//! The partial mapping: keys with their summaries, kept sorted by key.
//!
//! A [`Table`] is what one pass over a slice of the input builds, and what
//! merging two passes' results produces. Its mathematical content is a map
//! from keys to summaries ([`Acc`]); the entries are held strictly sorted by
//! byte-wise key order with unique keys, so the final table *is* already the
//! ordered result — presenting it is reading it, not re-sorting it.

use vstd::prelude::*;

verus! {

use crate::average::{
    Acc,
    Average,
    empty_acc,
    fits,
    merge_acc,
    push_acc,
    lemma_average_fits,
    lemma_merge_empty,
    lemma_push_is_merge_single,
};
use crate::error::Error;
use crate::order::{KeyCmp, cmp_keys, lex_lt, lemma_lex_lt_props, lemma_lex_lt_trans};

/// The summary a map holds for `k`, or the empty summary where `k` is
/// absent — the identity of the merge, so absence and emptiness agree.
pub open spec fn get_or_empty(m: Map<Seq<u8>, Acc>, k: Seq<u8>) -> Acc {
    if m.dom().contains(k) {
        m[k]
    } else {
        empty_acc()
    }
}

/// Two maps combined: the union of their keys, the summaries merged
/// key by key.
pub open spec fn merge_maps(m1: Map<Seq<u8>, Acc>, m2: Map<Seq<u8>, Acc>) -> Map<Seq<u8>, Acc> {
    Map::new(
        |k: Seq<u8>| m1.dom().contains(k) || m2.dom().contains(k),
        |k: Seq<u8>| merge_acc(get_or_empty(m1, k), get_or_empty(m2, k)),
    )
}

/// The map holding one key.
pub open spec fn singleton(k: Seq<u8>, a: Acc) -> Map<Seq<u8>, Acc> {
    Map::empty().insert(k, a)
}

/// The map a sequence of entries stands for, merging front to back.
pub open spec fn entries_map(s: Seq<(Seq<u8>, Acc)>) -> Map<Seq<u8>, Acc>
    decreases s.len(),
{
    if s.len() == 0 {
        Map::empty()
    } else {
        merge_maps(singleton(s[0].0, s[0].1), entries_map(s.drop_first()))
    }
}

/// Some entry carries the key `k`.
pub open spec fn has_key(s: Seq<(Seq<u8>, Acc)>, k: Seq<u8>) -> bool {
    exists|i: int| 0 <= i < s.len() && (#[trigger] s[i]).0 == k
}

/// Entry keys strictly ascend.
pub open spec fn sorted_keys(s: Seq<(Seq<u8>, Acc)>) -> bool {
    forall|i: int, j: int|
        0 <= i < j < s.len() ==> lex_lt((#[trigger] s[i]).0, (#[trigger] s[j]).0)
}

/// No two entries carry the same key.
pub open spec fn distinct_keys(s: Seq<(Seq<u8>, Acc)>) -> bool {
    forall|i: int, j: int|
        0 <= i < j < s.len() ==> (#[trigger] s[i]).0 != (#[trigger] s[j]).0
}

pub proof fn lemma_sorted_distinct(s: Seq<(Seq<u8>, Acc)>)
    requires
        sorted_keys(s),
    ensures
        distinct_keys(s),
{
    assert forall|i: int, j: int| 0 <= i < j < s.len() implies (#[trigger] s[i]).0 != (
    #[trigger] s[j]).0 by {
        lemma_lex_lt_props(s[i].0, s[j].0);
    }
}

/// Looking a key up in a merged map merges the lookups.
pub proof fn lemma_gore_merge(m1: Map<Seq<u8>, Acc>, m2: Map<Seq<u8>, Acc>, k: Seq<u8>)
    ensures
        get_or_empty(merge_maps(m1, m2), k) == merge_acc(get_or_empty(m1, k), get_or_empty(m2, k)),
{
    if !m1.dom().contains(k) && !m2.dom().contains(k) {
        assert(merge_acc(empty_acc(), empty_acc()) =~= empty_acc());
    }
}

/// The empty map is the identity of the map merge.
pub proof fn lemma_merge_maps_empty(m: Map<Seq<u8>, Acc>)
    ensures
        merge_maps(m, Map::empty()) == m,
        merge_maps(Map::empty(), m) == m,
{
    let l = merge_maps(m, Map::empty());
    let r = merge_maps(Map::empty(), m);
    assert forall|k: Seq<u8>| #[trigger] l.dom().contains(k) implies l[k] == m[k] by {
        lemma_merge_empty(m[k]);
    }
    assert forall|k: Seq<u8>| #[trigger] r.dom().contains(k) implies r[k] == m[k] by {
        lemma_merge_empty(m[k]);
    }
    assert(l =~= m);
    assert(r =~= m);
}

/// The map merge is commutative.
pub proof fn lemma_merge_maps_comm(m1: Map<Seq<u8>, Acc>, m2: Map<Seq<u8>, Acc>)
    ensures
        merge_maps(m1, m2) == merge_maps(m2, m1),
{
    let l = merge_maps(m1, m2);
    let r = merge_maps(m2, m1);
    assert forall|k: Seq<u8>| #[trigger] l.dom().contains(k) implies l[k] == r[k] by {
        assert(merge_acc(get_or_empty(m1, k), get_or_empty(m2, k)) =~= merge_acc(
            get_or_empty(m2, k),
            get_or_empty(m1, k),
        ));
    }
    assert(l =~= r);
}

/// The map merge is associative.
pub proof fn lemma_merge_maps_assoc(
    m1: Map<Seq<u8>, Acc>,
    m2: Map<Seq<u8>, Acc>,
    m3: Map<Seq<u8>, Acc>,
)
    ensures
        merge_maps(merge_maps(m1, m2), m3) == merge_maps(m1, merge_maps(m2, m3)),
{
    let l = merge_maps(merge_maps(m1, m2), m3);
    let r = merge_maps(m1, merge_maps(m2, m3));
    assert forall|k: Seq<u8>| #[trigger] l.dom().contains(k) implies l[k] == r[k] by {
        lemma_gore_merge(m1, m2, k);
        lemma_gore_merge(m2, m3, k);
        assert(merge_acc(merge_acc(get_or_empty(m1, k), get_or_empty(m2, k)), get_or_empty(m3, k))
            =~= merge_acc(
            get_or_empty(m1, k),
            merge_acc(get_or_empty(m2, k), get_or_empty(m3, k)),
        ));
    }
    assert(l.dom() =~= r.dom());
    assert(l =~= r);
}

/// Two summaries for one key merge into one entry for it.
pub proof fn lemma_singleton_merge(k: Seq<u8>, a: Acc, b: Acc)
    ensures
        merge_maps(singleton(k, a), singleton(k, b)) == singleton(k, merge_acc(a, b)),
{
    let l = merge_maps(singleton(k, a), singleton(k, b));
    let r = singleton(k, merge_acc(a, b));
    assert(l =~= r);
}

/// Merging a one-key map in is inserting the key's combined summary.
pub proof fn lemma_merge_singleton_insert(m: Map<Seq<u8>, Acc>, k: Seq<u8>, a: Acc)
    ensures
        merge_maps(m, singleton(k, a)) == m.insert(k, merge_acc(get_or_empty(m, k), a)),
{
    let l = merge_maps(m, singleton(k, a));
    let r = m.insert(k, merge_acc(get_or_empty(m, k), a));
    assert forall|q: Seq<u8>| #[trigger] l.dom().contains(q) implies l[q] == r[q] by {
        if q != k {
            lemma_merge_empty(get_or_empty(m, q));
        }
    }
    assert(l =~= r);
}

/// A key is in the map of an entry sequence exactly where an entry
/// carries it.
pub proof fn lemma_entries_map_dom(s: Seq<(Seq<u8>, Acc)>, k: Seq<u8>)
    ensures
        entries_map(s).dom().contains(k) <==> has_key(s, k),
    decreases s.len(),
{
    if s.len() == 0 {
    } else {
        lemma_entries_map_dom(s.drop_first(), k);
        if entries_map(s).dom().contains(k) {
            if s[0].0 != k {
                assert(has_key(s.drop_first(), k));
                let i = choose|i: int|
                    0 <= i < s.drop_first().len() && (#[trigger] s.drop_first()[i]).0 == k;
                assert(s[i + 1] == s.drop_first()[i]);
                assert(has_key(s, k));
            } else {
                assert(s[0].0 == k);
                assert(has_key(s, k));
            }
        }
        if has_key(s, k) {
            let i = choose|i: int| 0 <= i < s.len() && (#[trigger] s[i]).0 == k;
            if i == 0 {
                assert(singleton(s[0].0, s[0].1).dom().contains(k));
            } else {
                assert(s.drop_first()[i - 1] == s[i]);
                assert(has_key(s.drop_first(), k));
            }
        }
    }
}

/// With distinct keys, the map of an entry sequence holds each entry's
/// summary unchanged at its key.
pub proof fn lemma_entries_map_index(s: Seq<(Seq<u8>, Acc)>, i: int)
    requires
        distinct_keys(s),
        0 <= i < s.len(),
    ensures
        entries_map(s).dom().contains(s[i].0),
        entries_map(s)[s[i].0] == s[i].1,
    decreases s.len(),
{
    let k = s[i].0;
    lemma_entries_map_dom(s, k);
    assert(has_key(s, k));
    let rest = s.drop_first();
    if i == 0 {
        lemma_entries_map_dom(rest, k);
        if has_key(rest, k) {
            let j = choose|j: int| 0 <= j < rest.len() && (#[trigger] rest[j]).0 == k;
            assert(s[j + 1] == rest[j]);
            assert(s[0].0 != s[j + 1].0);
        }
        assert(get_or_empty(entries_map(rest), k) == empty_acc());
        lemma_merge_empty(s[0].1);
    } else {
        assert forall|x: int, y: int| 0 <= x < y < rest.len() implies (#[trigger] rest[x]).0 != (
        #[trigger] rest[y]).0 by {
            assert(rest[x] == s[x + 1]);
            assert(rest[y] == s[y + 1]);
        }
        assert(rest[i - 1] == s[i]);
        lemma_entries_map_index(rest, i - 1);
        assert(s[0].0 != k);
        assert(get_or_empty(singleton(s[0].0, s[0].1), k) == empty_acc());
        lemma_merge_empty(entries_map(rest)[k]);
    }
}

/// Inserting an entry anywhere merges its one-key map in.
pub proof fn lemma_entries_map_insert(s: Seq<(Seq<u8>, Acc)>, i: int, e: (Seq<u8>, Acc))
    requires
        0 <= i <= s.len(),
    ensures
        entries_map(s.insert(i, e)) == merge_maps(entries_map(s), singleton(e.0, e.1)),
    decreases i,
{
    let t = s.insert(i, e);
    if i == 0 {
        assert(t[0] == e);
        assert(t.drop_first() =~= s);
        lemma_merge_maps_comm(singleton(e.0, e.1), entries_map(s));
    } else {
        assert(t[0] == s[0]);
        assert(t.drop_first() =~= s.drop_first().insert(i - 1, e));
        lemma_entries_map_insert(s.drop_first(), i - 1, e);
        lemma_merge_maps_assoc(
            singleton(s[0].0, s[0].1),
            entries_map(s.drop_first()),
            singleton(e.0, e.1),
        );
    }
}

/// Merging a summary into the entry already carrying its key merges its
/// one-key map in.
pub proof fn lemma_entries_map_update(s: Seq<(Seq<u8>, Acc)>, i: int, b: Acc)
    requires
        0 <= i < s.len(),
    ensures
        entries_map(s.update(i, (s[i].0, merge_acc(s[i].1, b)))) == merge_maps(
            entries_map(s),
            singleton(s[i].0, b),
        ),
    decreases i,
{
    let t = s.update(i, (s[i].0, merge_acc(s[i].1, b)));
    let k = s[i].0;
    if i == 0 {
        assert(t[0] == (k, merge_acc(s[0].1, b)));
        assert(t.drop_first() =~= s.drop_first());
        lemma_singleton_merge(k, s[0].1, b);
        let sa = singleton(k, s[0].1);
        let sb = singleton(k, b);
        let rest = entries_map(s.drop_first());
        // shuffle: (sa + sb) + rest == (sa + rest) + sb
        lemma_merge_maps_assoc(sa, sb, rest);
        lemma_merge_maps_comm(sb, rest);
        lemma_merge_maps_assoc(sa, rest, sb);
    } else {
        assert(t[0] == s[0]);
        assert(t.drop_first() =~= s.drop_first().update(i - 1, (s[i].0, merge_acc(s[i].1, b))));
        assert(s.drop_first()[i - 1] == s[i]);
        lemma_entries_map_update(s.drop_first(), i - 1, b);
        lemma_merge_maps_assoc(
            singleton(s[0].0, s[0].1),
            entries_map(s.drop_first()),
            singleton(k, b),
        );
    }
}

/// The key→summary table one worker builds and merges.
pub struct Table {
    entries: Vec<(Vec<u8>, Average)>,
}

impl View for Table {
    type V = Map<Seq<u8>, Acc>;

    open spec fn view(&self) -> Map<Seq<u8>, Acc> {
        entries_map(self.entries_view())
    }
}

impl Table {
    /// The entries as mathematical pairs, in storage order.
    pub closed spec fn entries_view(self) -> Seq<(Seq<u8>, Acc)> {
        self.entries@.map_values(|e: (Vec<u8>, Average)| (e.0@, e.1.model()))
    }

    /// Entries strictly sorted by key, every summary non-empty.
    pub open spec fn wf(self) -> bool {
        &&& sorted_keys(self.entries_view())
        &&& forall|i: int|
            0 <= i < self.entries_view().len() ==> (#[trigger] self.entries_view()[i]).1.count >= 1
    }

    /// The empty table.
    pub fn new() -> (r: Table)
        ensures
            r.wf(),
            r@ == Map::<Seq<u8>, Acc>::empty(),
    {
        let r = Table { entries: Vec::new() };
        proof {
            assert(r.entries_view() =~= Seq::<(Seq<u8>, Acc)>::empty());
        }
        r
    }

    /// Fold one summary in under its key: a new entry where the key is new,
    /// a merge into the entry already carrying it otherwise. Fails, leaving
    /// the table's content unchanged, exactly where the key's combined
    /// summary would leave the machine range.
    pub fn merge_entry(&mut self, key: Vec<u8>, acc: Average) -> (r: Result<(), Error>)
        requires
            old(self).wf(),
            acc.model().count >= 1,
        ensures
            final(self).wf(),
            r is Ok <==> fits(merge_acc(get_or_empty(old(self)@, key@), acc.model())),
            r is Ok ==> final(self)@ == merge_maps(old(self)@, singleton(key@, acc.model())),
            r is Err ==> final(self)@ == old(self)@ && r == Err::<(), Error>(Error::Capacity),
    {
        proof {
            lemma_sorted_distinct(self.entries_view());
        }
        let idx = Self::lower_bound(&self.entries, key.as_slice());
        let ghost ev = self.entries_view();
        let mut equal = false;
        if idx < self.entries.len() {
            match cmp_keys(self.entries[idx].0.as_slice(), key.as_slice()) {
                KeyCmp::Equal => {
                    equal = true;
                },
                _ => {
                    proof {
                        lemma_lex_lt_props(ev[idx as int].0, key@);
                    }
                },
            }
        }
        if equal {
            // the key is already here: merge into its entry
            proof {
                lemma_entries_map_index(ev, idx as int);
            }
            let (k0, mut a0) = self.entries.remove(idx);
            let res = a0.merge(acc);
            self.entries.insert(idx, (k0, a0));
            proof {
                let ev2 = self.entries_view();
                if res is Ok {
                    assert(ev2 =~= ev.update(idx as int, (ev[idx as int].0, merge_acc(ev[idx as int].1, acc.model()))));
                    lemma_entries_map_update(ev, idx as int, acc.model());
                    assert(singleton(ev[idx as int].0, acc.model()) =~= singleton(key@, acc.model()));
                    assert forall|i: int, j: int| 0 <= i < j < ev2.len() implies lex_lt(
                        (#[trigger] ev2[i]).0,
                        (#[trigger] ev2[j]).0,
                    ) by {
                        assert(ev2[i].0 == ev[i].0);
                        assert(ev2[j].0 == ev[j].0);
                    }
                } else {
                    assert(ev2 =~= ev);
                }
            }
            res
        } else {
            // a new key: insert it where the scan stopped
            proof {
                lemma_entries_map_dom(ev, key@);
                if has_key(ev, key@) {
                    let i = choose|i: int| 0 <= i < ev.len() && (#[trigger] ev[i]).0 == key@;
                    if i < idx {
                        lemma_lex_lt_props(ev[i].0, key@);
                    } else if i > idx {
                        lemma_lex_lt_trans(key@, ev[idx as int].0, ev[i].0);
                        lemma_lex_lt_props(key@, ev[i].0);
                    }
                }
                assert(get_or_empty(old(self)@, key@) == empty_acc());
                lemma_merge_empty(acc.model());
                lemma_average_fits(acc);
            }
            self.entries.insert(idx, (key, acc));
            proof {
                let ev2 = self.entries_view();
                assert(ev2 =~= ev.insert(idx as int, (key@, acc.model())));
                lemma_entries_map_insert(ev, idx as int, (key@, acc.model()));
                assert forall|i: int, j: int| 0 <= i < j < ev2.len() implies lex_lt(
                    (#[trigger] ev2[i]).0,
                    (#[trigger] ev2[j]).0,
                ) by {
                    if j < idx {
                        assert(ev2[i].0 == ev[i].0 && ev2[j].0 == ev[j].0);
                    } else if j == idx {
                        // the new key sits above everything the scan passed
                        assert(ev2[i].0 == ev[i].0);
                    } else if i < idx {
                        // two old entries on either side of the insertion
                        assert(ev2[i].0 == ev[i].0 && ev2[j].0 == ev[j - 1].0);
                    } else if i == idx {
                        // the new key sits below the entry the scan stopped at
                        assert(ev2[j].0 == ev[j - 1].0);
                        if j - 1 > idx {
                            lemma_lex_lt_trans(key@, ev[idx as int].0, ev[j - 1].0);
                        }
                    } else {
                        assert(ev2[i].0 == ev[i - 1].0 && ev2[j].0 == ev[j - 1].0);
                    }
                }
            }
            Ok(())
        }
    }

    /// Fold one value in under its key, creating the key's summary on first
    /// sight. Fails, leaving the table's content unchanged, exactly where
    /// the key's new count or total would leave the machine range.
    pub fn add_value(&mut self, key: Vec<u8>, v: i128) -> (r: Result<(), Error>)
        requires
            old(self).wf(),
        ensures
            final(self).wf(),
            r is Ok <==> fits(push_acc(get_or_empty(old(self)@, key@), v as int)),
            r is Ok ==> final(self)@ == merge_maps(
                old(self)@,
                singleton(key@, push_acc(empty_acc(), v as int)),
            ),
            r is Err ==> final(self)@ == old(self)@ && r == Err::<(), Error>(Error::Capacity),
    {
        let acc = Average::from_value(v);
        proof {
            lemma_push_is_merge_single(get_or_empty(old(self)@, key@), v as int);
        }
        self.merge_entry(key, acc)
    }

    /// Fold a whole table in: the union of the keys, the summaries merged
    /// where both sides carry a key, the others moved over unchanged. The
    /// other table is consumed — its summaries move, they are not copied.
    /// Succeeds exactly where every key's combined summary stays within the
    /// machine range; on failure the table holds the keys merged before the
    /// one that failed, and stays well-formed.
    pub fn merge_from(&mut self, other: Table) -> (r: Result<(), Error>)
        requires
            old(self).wf(),
            other.wf(),
        ensures
            final(self).wf(),
            r is Ok <==> (forall|k: Seq<u8>|
                #[trigger] other@.dom().contains(k) ==> fits(
                    merge_acc(get_or_empty(old(self)@, k), other@[k]),
                )),
            r is Ok ==> final(self)@ == merge_maps(old(self)@, other@),
            r is Err ==> r == Err::<(), Error>(Error::Capacity),
    {
        let mut rest = other;
        while rest.entries.len() > 0
            invariant
                self.wf(),
                rest.wf(),
                merge_maps(self@, rest@) == merge_maps(old(self)@, other@),
                forall|k: Seq<u8>| #[trigger] rest@.dom().contains(k) ==> get_or_empty(self@, k)
                    == get_or_empty(old(self)@, k) && other@.dom().contains(k) && other@[k]
                    == rest@[k],
                forall|k: Seq<u8>|
                    #[trigger] other@.dom().contains(k) && !rest@.dom().contains(k) ==> fits(
                        merge_acc(get_or_empty(old(self)@, k), other@[k]),
                    ),
            decreases rest.entries.len(),
        {
            let ghost rev = rest.entries_view();
            let ghost m0 = self@;
            proof {
                lemma_sorted_distinct(rev);
            }
            let (k, a) = rest.entries.remove(0);
            let ghost kk = k@;
            proof {
                assert(rest.entries_view() =~= rev.drop_first());
                assert(rev[0] == (kk, a.model()));
                // the head key is in the old remainder map, with the head summary
                lemma_entries_map_index(rev, 0);
                // ... and not among the tail keys
                lemma_entries_map_dom(rev.drop_first(), kk);
                if has_key(rev.drop_first(), kk) {
                    let j = choose|j: int|
                        0 <= j < rev.drop_first().len() && (#[trigger] rev.drop_first()[j]).0 == kk;
                    assert(rev[j + 1] == rev.drop_first()[j]);
                }
                // the tail is still a well-formed table
                assert forall|i: int, j: int|
                    0 <= i < j < rev.drop_first().len() implies lex_lt(
                    (#[trigger] rev.drop_first()[i]).0,
                    (#[trigger] rev.drop_first()[j]).0,
                ) by {
                    assert(rev.drop_first()[i] == rev[i + 1]);
                    assert(rev.drop_first()[j] == rev[j + 1]);
                }
                assert forall|i: int|
                    0 <= i < rev.drop_first().len() implies (#[trigger] rev.drop_first()[i]).1.count
                    >= 1 by {
                    assert(rev.drop_first()[i] == rev[i + 1]);
                }
            }
            let res = self.merge_entry(k, a);
            proof {
                let tail = rev.drop_first();
                // values of tail keys agree between the old and new remainder
                assert forall|q: Seq<u8>| #[trigger] entries_map(tail).dom().contains(q) implies
                    entries_map(rev).dom().contains(q) && entries_map(tail)[q] == entries_map(
                    rev,
                )[q] && q != kk by {
                    lemma_entries_map_dom(tail, q);
                    let j = choose|j: int| 0 <= j < tail.len() && (#[trigger] tail[j]).0 == q;
                    assert(rev[j + 1] == tail[j]);
                    assert(has_key(rev, q));
                    lemma_entries_map_dom(rev, q);
                    lemma_sorted_distinct(tail);
                    lemma_entries_map_index(tail, j);
                    lemma_entries_map_index(rev, j + 1);
                }
                if res is Ok {
                    // the combined summary of the head key fits, and is merged in
                    assert(fits(merge_acc(get_or_empty(old(self)@, kk), other@[kk])));
                    lemma_merge_maps_assoc(m0, singleton(kk, a.model()), entries_map(tail));
                    assert(merge_maps(singleton(kk, a.model()), entries_map(tail)) =~= entries_map(
                        rev,
                    ));
                    assert(merge_maps(self@, rest@) == merge_maps(old(self)@, other@));
                    // lookups at tail keys are untouched by a merge at the head key
                    assert forall|q: Seq<u8>| #[trigger] rest@.dom().contains(q) implies
                        get_or_empty(self@, q) == get_or_empty(old(self)@, q) by {
                        lemma_gore_merge(m0, singleton(kk, a.model()), q);
                        assert(get_or_empty(singleton(kk, a.model()), q) == empty_acc());
                        lemma_merge_empty(get_or_empty(m0, q));
                    }
                    assert forall|q: Seq<u8>|
                        #[trigger] other@.dom().contains(q) && !rest@.dom().contains(q) implies
                        fits(merge_acc(get_or_empty(old(self)@, q), other@[q])) by {
                        lemma_entries_map_dom(rev, q);
                        lemma_entries_map_dom(tail, q);
                        if has_key(rev, q) {
                            // q was the head key just merged
                            let j = choose|j: int| 0 <= j < rev.len() && (#[trigger] rev[j]).0 == q;
                            if j > 0 {
                                assert(tail[j - 1] == rev[j]);
                                assert(has_key(tail, q));
                            }
                        }
                    }
                } else {
                    // the head key's combined summary does not fit: the success
                    // condition fails at that key
                    assert(!fits(merge_acc(get_or_empty(old(self)@, kk), other@[kk])));
                }
            }
            if let Err(e) = res {
                return Err(e);
            }
        }
        proof {
            assert(rest.entries_view() =~= Seq::<(Seq<u8>, Acc)>::empty());
            assert(rest@ =~= Map::<Seq<u8>, Acc>::empty());
            lemma_merge_maps_empty(self@);
            lemma_merge_maps_empty(old(self)@);
        }
        Ok(())
    }

    /// The entries, sorted ascending by key: the ordered result. Each pair
    /// carries a key of the table and the summary the table holds for it;
    /// every key of the table appears.
    pub fn entries(&self) -> (r: &Vec<(Vec<u8>, Average)>)
        requires
            self.wf(),
        ensures
            forall|i: int, j: int|
                0 <= i < j < r@.len() ==> lex_lt((#[trigger] r@[i]).0@, (#[trigger] r@[j]).0@),
            forall|i: int|
                0 <= i < r@.len() ==> self@.dom().contains((#[trigger] r@[i]).0@) && self@[r@[i].0@]
                    == r@[i].1.model() && r@[i].1.model().count >= 1,
            forall|k: Seq<u8>| #[trigger] self@.dom().contains(k) ==> exists|i: int|
                0 <= i < r@.len() && (#[trigger] r@[i]).0@ == k,
    {
        proof {
            let ev = self.entries_view();
            lemma_sorted_distinct(ev);
            assert forall|i: int| 0 <= i < self.entries@.len() implies self@.dom().contains(
                (#[trigger] self.entries@[i]).0@,
            ) && self@[self.entries@[i].0@] == self.entries@[i].1.model()
                && self.entries@[i].1.model().count >= 1 by {
                assert(ev[i] == (self.entries@[i].0@, self.entries@[i].1.model()));
                lemma_entries_map_index(ev, i);
                assert(self.entries_view()[i].1.count >= 1);
            }
            assert forall|k: Seq<u8>| #[trigger] self@.dom().contains(k) implies exists|i: int|
                0 <= i < self.entries@.len() && (#[trigger] self.entries@[i]).0@ == k by {
                lemma_entries_map_dom(ev, k);
                let i = choose|i: int| 0 <= i < ev.len() && (#[trigger] ev[i]).0 == k;
                assert(self.entries@[i].0@ == k);
            }
            assert forall|i: int, j: int| 0 <= i < j < self.entries@.len() implies lex_lt(
                (#[trigger] self.entries@[i]).0@,
                (#[trigger] self.entries@[j]).0@,
            ) by {
                assert(ev[i] == (self.entries@[i].0@, self.entries@[i].1.model()));
                assert(ev[j] == (self.entries@[j].0@, self.entries@[j].1.model()));
            }
        }
        &self.entries
    }

    /// The first slot whose key is not below `key`.
    fn lower_bound(entries: &Vec<(Vec<u8>, Average)>, key: &[u8]) -> (idx: usize)
        ensures
            idx <= entries@.len(),
            forall|j: int| 0 <= j < idx ==> lex_lt((#[trigger] entries@[j]).0@, key@),
            idx < entries@.len() ==> !lex_lt(entries@[idx as int].0@, key@),
    {
        let n = entries.len();
        let mut i: usize = 0;
        while i < n
            invariant
                i <= n == entries@.len(),
                forall|j: int| 0 <= j < i ==> lex_lt((#[trigger] entries@[j]).0@, key@),
            decreases n - i,
        {
            match cmp_keys(entries[i].0.as_slice(), key) {
                KeyCmp::Less => {
                    i = i + 1;
                },
                KeyCmp::Equal => {
                    proof {
                        lemma_lex_lt_props(entries@[i as int].0@, key@);
                    }
                    return i;
                },
                KeyCmp::Greater => {
                    proof {
                        lemma_lex_lt_props(entries@[i as int].0@, key@);
                    }
                    return i;
                },
            }
        }
        i
    }
}

} // verus!
