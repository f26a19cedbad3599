//! The per-key summary: a running count and an exact running total.
//!
//! The mean a summary stands for is `sum / count` (in units of
//! [`crate::SCALE`]ths); holding the pair instead of the quotient keeps
//! every operation exact, makes the merge of two summaries plain addition —
//! associative and commutative on the nose, which is what licenses merging
//! partial results in any order — and leaves no division-by-zero case: the
//! empty summary is the identity of the merge, so merging empty summaries
//! is harmless by construction rather than prevented at run time.

use vstd::prelude::*;

verus! {

use crate::error::Error;

/// The mathematical content of an [`Average`]: how many values went in and
/// what they add up to, unbounded.
#[verifier::ext_equal]
pub struct Acc {
    pub count: int,
    pub sum: int,
}

/// The summary no value went into.
pub open spec fn empty_acc() -> Acc {
    Acc { count: 0, sum: 0 }
}

/// One more value folded in.
pub open spec fn push_acc(a: Acc, v: int) -> Acc {
    Acc { count: a.count + 1, sum: a.sum + v }
}

/// Two summaries combined: counts add, totals add.
pub open spec fn merge_acc(a: Acc, b: Acc) -> Acc {
    Acc { count: a.count + b.count, sum: a.sum + b.sum }
}

/// The summary is within what the machine representation can hold.
pub open spec fn fits(a: Acc) -> bool {
    0 <= a.count <= u64::MAX && i128::MIN <= a.sum <= i128::MAX
}

/// All the values of a sequence added up.
pub open spec fn sum_vals(vs: Seq<int>) -> int
    decreases vs.len(),
{
    if vs.len() == 0 {
        0
    } else {
        vs[0] + sum_vals(vs.drop_first())
    }
}

/// A sequence of values folded into a summary, first to last.
pub open spec fn push_all(a: Acc, vs: Seq<int>) -> Acc
    decreases vs.len(),
{
    if vs.len() == 0 {
        a
    } else {
        push_all(push_acc(a, vs[0]), vs.drop_first())
    }
}

/// The running summary of the values seen for one key.
#[derive(Clone, Copy)]
pub struct Average {
    count: u64,
    sum: i128,
}

impl Average {
    /// What this summary holds, as unbounded numbers.
    pub closed spec fn model(self) -> Acc {
        Acc { count: self.count as int, sum: self.sum as int }
    }

    /// A summary holding exactly one value.
    pub fn from_value(v: i128) -> (r: Average)
        ensures
            r.model() == push_acc(empty_acc(), v as int),
    {
        Average { count: 1, sum: v }
    }

    /// How many values went in.
    pub fn count(&self) -> (r: u64)
        ensures
            r as int == self.model().count,
    {
        self.count
    }

    /// What the values add up to, scaled by [`crate::SCALE`].
    pub fn sum(&self) -> (r: i128)
        ensures
            r as int == self.model().sum,
    {
        self.sum
    }

    /// Fold one value in. Fails, leaving the summary untouched, exactly
    /// where the new count or total would leave the machine range.
    pub fn push(&mut self, v: i128) -> (r: Result<(), Error>)
        ensures
            r is Ok <==> fits(push_acc(old(self).model(), v as int)),
            r is Ok ==> final(self).model() == push_acc(old(self).model(), v as int),
            r is Err ==> *final(self) == *old(self) && r == Err::<(), Error>(Error::Capacity),
    {
        if self.count == u64::MAX {
            return Err(Error::Capacity);
        }
        if v >= 0 {
            if self.sum > i128::MAX - v {
                return Err(Error::Capacity);
            }
        } else {
            if self.sum < i128::MIN - v {
                return Err(Error::Capacity);
            }
        }
        self.sum = self.sum + v;
        self.count = self.count + 1;
        Ok(())
    }

    /// Fold a whole summary in: counts add, totals add. Fails, leaving this
    /// summary untouched, exactly where the combined count or total would
    /// leave the machine range. The other summary is consumed either way.
    pub fn merge(&mut self, rhs: Average) -> (r: Result<(), Error>)
        ensures
            r is Ok <==> fits(merge_acc(old(self).model(), rhs.model())),
            r is Ok ==> final(self).model() == merge_acc(old(self).model(), rhs.model()),
            r is Err ==> *final(self) == *old(self) && r == Err::<(), Error>(Error::Capacity),
    {
        if self.count > u64::MAX - rhs.count {
            return Err(Error::Capacity);
        }
        if rhs.sum >= 0 {
            if self.sum > i128::MAX - rhs.sum {
                return Err(Error::Capacity);
            }
        } else {
            if self.sum < i128::MIN - rhs.sum {
                return Err(Error::Capacity);
            }
        }
        self.sum = self.sum + rhs.sum;
        self.count = self.count + rhs.count;
        Ok(())
    }
}

impl Default for Average {
    /// The summary no value went into.
    fn default() -> (r: Self)
        ensures
            r.model() == empty_acc(),
    {
        Average { count: 0, sum: 0 }
    }
}

/// What a machine summary holds always fits the machine range.
pub proof fn lemma_average_fits(a: Average)
    ensures
        fits(a.model()),
{
}

/// Folding a sequence of values into any summary raises its count by their
/// number and its total by their sum.
pub proof fn lemma_push_all(a: Acc, vs: Seq<int>)
    ensures
        push_all(a, vs).count == a.count + vs.len(),
        push_all(a, vs).sum == a.sum + sum_vals(vs),
    decreases vs.len(),
{
    if vs.len() > 0 {
        lemma_push_all(push_acc(a, vs[0]), vs.drop_first());
    }
}

/// Push correctness: values `v1..vn` pushed one by one into a fresh summary
/// leave count `n` and total `v1 + .. + vn` — the summary stands for the
/// arithmetic mean `(v1 + .. + vn) / n`.
pub proof fn lemma_push_mean(vs: Seq<int>)
    ensures
        push_all(empty_acc(), vs).count == vs.len(),
        push_all(empty_acc(), vs).sum == sum_vals(vs),
{
    lemma_push_all(empty_acc(), vs);
}

/// Merging summaries is commutative.
pub proof fn lemma_merge_comm(a: Acc, b: Acc)
    ensures
        merge_acc(a, b) == merge_acc(b, a),
{
    assert(merge_acc(a, b) =~= merge_acc(b, a));
}

/// Merge associativity: combining three summaries gives the same count and
/// total whichever pairing is taken, which is what lets partial results be
/// reduced in any order.
pub proof fn lemma_merge_assoc(a: Acc, b: Acc, c: Acc)
    ensures
        merge_acc(merge_acc(a, b), c) == merge_acc(a, merge_acc(b, c)),
{
    assert(merge_acc(merge_acc(a, b), c) =~= merge_acc(a, merge_acc(b, c)));
}

/// The degenerate case: merging with an empty summary changes nothing, so
/// an empty side never needs a special case — in particular two empty
/// summaries merge to the empty summary, not to anything undefined.
pub proof fn lemma_merge_empty(a: Acc)
    ensures
        merge_acc(a, empty_acc()) == a,
        merge_acc(empty_acc(), a) == a,
{
    assert(merge_acc(a, empty_acc()) =~= a);
    assert(merge_acc(empty_acc(), a) =~= a);
}

/// Pushing a value is the same as merging in a one-value summary.
pub proof fn lemma_push_is_merge_single(a: Acc, v: int)
    ensures
        push_acc(a, v) == merge_acc(a, push_acc(empty_acc(), v)),
{
    assert(push_acc(a, v) =~= merge_acc(a, push_acc(empty_acc(), v)));
}

} // verus!
