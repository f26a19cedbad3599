//! Byte-wise lexicographic order on keys.
//!
//! The ordered result is sorted by ascending byte-wise comparison of the
//! keys; this module holds that order, its laws (a strict total order), and
//! the executable three-way comparison.

use vstd::prelude::*;

verus! {

/// `a` comes strictly before `b`, comparing byte by byte; a proper prefix
/// comes before what extends it.
pub open spec fn lex_lt(a: Seq<u8>, b: Seq<u8>) -> bool
    decreases a.len(),
{
    if b.len() == 0 {
        false
    } else if a.len() == 0 {
        true
    } else if a[0] < b[0] {
        true
    } else if a[0] > b[0] {
        false
    } else {
        lex_lt(a.drop_first(), b.drop_first())
    }
}

/// The order is strict and total: of `a < b`, `b < a` and `a == b` exactly
/// one holds.
pub proof fn lemma_lex_lt_props(a: Seq<u8>, b: Seq<u8>)
    ensures
        lex_lt(a, b) || lex_lt(b, a) || a == b,
        lex_lt(a, b) ==> !lex_lt(b, a),
        lex_lt(a, b) ==> a != b,
    decreases a.len() + b.len(),
{
    if b.len() == 0 {
        if a.len() == 0 {
            assert(a =~= b);
        }
    } else if a.len() == 0 {
    } else if a[0] < b[0] || a[0] > b[0] {
        if a == b {
            assert(a[0] == b[0]);
        }
    } else {
        lemma_lex_lt_props(a.drop_first(), b.drop_first());
        if !lex_lt(a, b) && !lex_lt(b, a) {
            assert(a.drop_first() == b.drop_first());
            assert forall|i: int| 0 <= i < a.len() implies a[i] == b[i] by {
                if i > 0 {
                    assert(a[i] == a.drop_first()[i - 1]);
                    assert(b[i] == b.drop_first()[i - 1]);
                }
            }
            assert(a =~= b);
        }
        if a == b {
            assert(a.drop_first() =~= b.drop_first());
        }
    }
}

/// The order is transitive.
pub proof fn lemma_lex_lt_trans(a: Seq<u8>, b: Seq<u8>, c: Seq<u8>)
    requires
        lex_lt(a, b),
        lex_lt(b, c),
    ensures
        lex_lt(a, c),
    decreases a.len() + b.len() + c.len(),
{
    if c.len() == 0 {
    } else if b.len() == 0 {
    } else if a.len() == 0 {
    } else {
        if a[0] == b[0] && b[0] == c[0] {
            lemma_lex_lt_trans(a.drop_first(), b.drop_first(), c.drop_first());
        }
    }
}

/// Dropping an equal prefix changes nothing about the order.
pub proof fn lemma_lex_lt_skip(a: Seq<u8>, b: Seq<u8>, i: int)
    requires
        0 <= i <= a.len(),
        i <= b.len(),
        forall|j: int| 0 <= j < i ==> a[j] == b[j],
    ensures
        lex_lt(a, b) == lex_lt(a.skip(i), b.skip(i)),
    decreases i,
{
    if i > 0 {
        assert(a[0] == b[0]);
        assert forall|j: int| 0 <= j < i - 1 implies a.drop_first()[j] == b.drop_first()[j] by {
            assert(a.drop_first()[j] == a[j + 1]);
            assert(b.drop_first()[j] == b[j + 1]);
        }
        lemma_lex_lt_skip(a.drop_first(), b.drop_first(), i - 1);
        assert(a.drop_first().skip(i - 1) =~= a.skip(i));
        assert(b.drop_first().skip(i - 1) =~= b.skip(i));
    } else {
        assert(a.skip(0) =~= a);
        assert(b.skip(0) =~= b);
    }
}

/// What a three-way key comparison came to.
pub enum KeyCmp {
    Less,
    Equal,
    Greater,
}

/// Compare two keys byte by byte.
pub fn cmp_keys(a: &[u8], b: &[u8]) -> (r: KeyCmp)
    ensures
        r == KeyCmp::Less <==> lex_lt(a@, b@),
        r == KeyCmp::Greater <==> lex_lt(b@, a@),
        r == KeyCmp::Equal <==> a@ == b@,
{
    proof {
        lemma_lex_lt_props(a@, b@);
    }
    let al = a.len();
    let bl = b.len();
    let n = if al <= bl {
        al
    } else {
        bl
    };
    let mut i: usize = 0;
    while i < n
        invariant
            i <= n,
            n <= a@.len(),
            n <= b@.len(),
            forall|j: int| 0 <= j < i ==> a@[j] == b@[j],
        decreases n - i,
    {
        let x = a[i];
        let y = b[i];
        if x < y {
            proof {
                lemma_lex_lt_skip(a@, b@, i as int);
                assert(a@.skip(i as int)[0] == a@[i as int]);
                assert(b@.skip(i as int)[0] == b@[i as int]);
                lemma_lex_lt_props(a@, b@);
            }
            return KeyCmp::Less;
        }
        if x > y {
            proof {
                lemma_lex_lt_skip(b@, a@, i as int);
                assert(a@.skip(i as int)[0] == a@[i as int]);
                assert(b@.skip(i as int)[0] == b@[i as int]);
                lemma_lex_lt_props(a@, b@);
            }
            return KeyCmp::Greater;
        }
        i = i + 1;
    }
    proof {
        lemma_lex_lt_skip(a@, b@, n as int);
        lemma_lex_lt_skip(b@, a@, n as int);
        lemma_lex_lt_props(a@, b@);
    }
    if al == bl {
        proof {
            assert(a@ =~= b@);
        }
        KeyCmp::Equal
    } else if al < bl {
        proof {
            assert(a@.skip(n as int).len() == 0);
            assert(b@.skip(n as int).len() > 0);
        }
        KeyCmp::Less
    } else {
        proof {
            assert(b@.skip(n as int).len() == 0);
            assert(a@.skip(n as int).len() > 0);
        }
        KeyCmp::Greater
    }
}

} // verus!
