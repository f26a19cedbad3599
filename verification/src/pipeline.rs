//! The run: input text to ordered per-key summaries.
//!
//! The input splits into lines; a contiguous slice of lines aggregates
//! sequentially into one [`Table`]; tables built from different slices merge.
//! The partition/merge law at the end of this module says the two routes
//! agree: however the line list is cut into contiguous chunks, aggregating
//! each chunk and merging the results yields exactly the map one sequential
//! pass yields — which is what licenses handing the chunks to parallel
//! workers and reducing their tables in any grouping.

use vstd::prelude::*;

verus! {

use crate::average::{
    Acc,
    empty_acc,
    fits,
    push_acc,
    push_all,
    sum_vals,
    lemma_push_is_merge_single,
    lemma_push_mean,
};
use crate::error::{Error, LineError};
use crate::number::{find_byte, is_number, lemma_find_byte, lemma_find_byte_at};
use crate::parse::{line_key, line_ok, line_split_ok, line_val, line_value_field, parse_line};
use crate::table::{
    Table,
    get_or_empty,
    merge_maps,
    singleton,
    lemma_merge_maps_assoc,
    lemma_merge_maps_empty,
    lemma_merge_singleton_insert,
};

/// A line with its trailing carriage return, if any, taken off.
pub open spec fn strip_cr(l: Seq<u8>) -> Seq<u8> {
    if l.len() > 0 && l.last() == 13 {
        l.drop_last()
    } else {
        l
    }
}

/// The text cut at each newline, each piece without its line terminator;
/// a final newline closes the last line rather than opening an empty one.
pub open spec fn split_lines_spec(t: Seq<u8>) -> Seq<Seq<u8>>
    decreases t.len(),
{
    if t.len() == 0 {
        Seq::empty()
    } else {
        let p = find_byte(t, 10);
        if 0 <= p < t.len() {
            seq![strip_cr(t.subrange(0, p))] + split_lines_spec(t.subrange(p + 1, t.len() as int))
        } else {
            seq![strip_cr(t)]
        }
    }
}

/// The views of a sequence of owned lines.
pub open spec fn views_of(ls: Seq<Vec<u8>>) -> Seq<Seq<u8>> {
    ls.map_values(|l: Vec<u8>| l@)
}

/// One line folded into the aggregation map; a line that is no record
/// leaves the map as it is.
pub open spec fn agg_step(m: Map<Seq<u8>, Acc>, l: Seq<u8>) -> Map<Seq<u8>, Acc> {
    if line_ok(l) {
        m.insert(line_key(l), push_acc(get_or_empty(m, line_key(l)), line_val(l)))
    } else {
        m
    }
}

/// A line sequence folded into the aggregation map, first to last.
pub open spec fn agg_from(m: Map<Seq<u8>, Acc>, ls: Seq<Seq<u8>>) -> Map<Seq<u8>, Acc>
    decreases ls.len(),
{
    if ls.len() == 0 {
        m
    } else {
        agg_from(agg_step(m, ls[0]), ls.drop_first())
    }
}

/// The map a line sequence aggregates to from nothing.
pub open spec fn agg_map(ls: Seq<Seq<u8>>) -> Map<Seq<u8>, Acc> {
    agg_from(Map::empty(), ls)
}

/// What a sequential aggregation of `ls` starting from `m` comes to, line
/// `base` being the first line's index for error reporting: the aggregated
/// map, or the error of the first line that is empty-like but malformed or
/// that pushes a key's summary out of the machine range.
pub open spec fn agg_run(m: Map<Seq<u8>, Acc>, ls: Seq<Seq<u8>>, base: int) -> Result<
    Map<Seq<u8>, Acc>,
    Error,
>
    decreases ls.len(),
{
    if ls.len() == 0 {
        Ok(m)
    } else {
        let l = ls[0];
        if l.len() == 0 {
            agg_run(m, ls.drop_first(), base + 1)
        } else if !line_split_ok(l) {
            Err(Error::BadLine(base as usize))
        } else if !is_number(line_value_field(l)) {
            Err(Error::BadNumber(base as usize))
        } else if !fits(push_acc(get_or_empty(m, line_key(l)), line_val(l))) {
            Err(Error::Capacity)
        } else {
            agg_run(
                m.insert(line_key(l), push_acc(get_or_empty(m, line_key(l)), line_val(l))),
                ls.drop_first(),
                base + 1,
            )
        }
    }
}

/// The text cut into owned lines, as [`split_lines_spec`] says.
pub fn split_lines(text: &[u8]) -> (r: Vec<Vec<u8>>)
    ensures
        views_of(r@) == split_lines_spec(text@),
{
    let n = text.len();
    let mut out: Vec<Vec<u8>> = Vec::new();
    let mut start: usize = 0;
    let mut i: usize = 0;
    proof {
        assert(text@.skip(0) =~= text@);
        assert(views_of(out@) =~= Seq::<Seq<u8>>::empty());
    }
    while i < n
        invariant
            start <= i <= n == text@.len(),
            forall|j: int| start <= j < i ==> text@[j] != 10,
            split_lines_spec(text@) == views_of(out@) + split_lines_spec(text@.skip(start as int)),
        decreases n - i,
    {
        if text[i] == 10 {
            let mut line = vstd::slice::slice_to_vec(
                vstd::slice::slice_subrange(text, start, i),
            );
            if line.len() > 0 && line[line.len() - 1] == 13 {
                let _ = line.pop();
            }
            proof {
                let rest = text@.skip(start as int);
                assert forall|j: int| 0 <= j < i - start implies rest[j] != 10 by {
                    assert(rest[j] == text@[start + j]);
                }
                assert(rest[i - start] == text@[i as int]);
                lemma_find_byte_at(rest, 10, i - start);
                assert(rest.subrange(0, i - start) =~= text@.subrange(start as int, i as int));
                assert(rest.subrange(i - start + 1, rest.len() as int) =~= text@.skip(i + 1));
                assert(line@ == strip_cr(text@.subrange(start as int, i as int)));
            }
            out.push(line);
            proof {
                let rest = text@.skip(start as int);
                assert(views_of(out@) =~= views_of(out@.drop_last()) + seq![line@]);
                assert(views_of(out@) + split_lines_spec(text@.skip(i + 1))
                    =~= views_of(out@.drop_last()) + split_lines_spec(rest));
            }
            start = i + 1;
        }
        i = i + 1;
    }
    proof {
        let rest = text@.skip(start as int);
        if start < n {
            lemma_find_byte(rest, 10);
            if find_byte(rest, 10) >= 0 {
                let f = find_byte(rest, 10);
                assert(rest[f] == text@[start + f]);
            }
            assert(rest =~= text@.subrange(start as int, n as int));
        } else {
            assert(rest.len() == 0);
        }
    }
    if start < n {
        let mut line = vstd::slice::slice_to_vec(vstd::slice::slice_subrange(text, start, n));
        if line.len() > 0 && line[line.len() - 1] == 13 {
            let _ = line.pop();
        }
        proof {
            assert(line@ == strip_cr(text@.skip(start as int)));
        }
        out.push(line);
        proof {
            assert(views_of(out@) =~= views_of(out@.drop_last()) + seq![line@]);
            assert(views_of(out@.drop_last()) + split_lines_spec(text@.skip(start as int))
                =~= views_of(out@));
        }
    } else {
        proof {
            assert(views_of(out@) + Seq::<Seq<u8>>::empty() =~= views_of(out@));
        }
    }
    out
}

/// A contiguous slice of lines aggregated sequentially into one table:
/// empty lines skipped, each record's value pushed under its key, the first
/// failure aborting the whole pass with its line's index.
pub fn aggregate(lines: &[Vec<u8>]) -> (r: Result<Table, Error>)
    ensures
        r matches Ok(t) ==> t.wf() && agg_run(Map::empty(), views_of(lines@), 0) == Ok::<
            Map<Seq<u8>, Acc>,
            Error,
        >(t@),
        r matches Err(e) ==> agg_run(Map::empty(), views_of(lines@), 0) == Err::<
            Map<Seq<u8>, Acc>,
            Error,
        >(e),
{
    let ghost vs = views_of(lines@);
    let mut t = Table::new();
    let n = lines.len();
    let mut i: usize = 0;
    proof {
        assert(vs.skip(0) =~= vs);
    }
    while i < n
        invariant
            i <= n == lines@.len(),
            vs == views_of(lines@),
            t.wf(),
            agg_run(Map::empty(), vs, 0) == agg_run(t@, vs.skip(i as int), i as int),
        decreases n - i,
    {
        let ghost m0 = t@;
        proof {
            assert(vs.skip(i as int)[0] == lines@[i as int]@);
            assert(vs.skip(i as int).drop_first() =~= vs.skip(i + 1));
        }
        let l = &lines[i];
        if l.len() > 0 {
            match parse_line(l.as_slice()) {
                Err(LineError::Split) => {
                    return Err(Error::BadLine(i));
                },
                Err(LineError::Number) => {
                    return Err(Error::BadNumber(i));
                },
                Ok((key, v)) => {
                    let ghost kk = key@;
                    let res = t.add_value(key, v);
                    proof {
                        lemma_push_is_merge_single(get_or_empty(m0, kk), v as int);
                        lemma_merge_singleton_insert(m0, kk, push_acc(empty_acc(), v as int));
                    }
                    if let Err(e) = res {
                        return Err(e);
                    }
                },
            }
        }
        i = i + 1;
    }
    proof {
        assert(vs.skip(n as int) =~= Seq::<Seq<u8>>::empty());
    }
    Ok(t)
}

/// The whole sequential run: the text split into lines and aggregated into
/// one table, whose sorted entries are the ordered result.
pub fn run(text: &[u8]) -> (r: Result<Table, Error>)
    ensures
        r matches Ok(t) ==> t.wf() && agg_run(Map::empty(), split_lines_spec(text@), 0) == Ok::<
            Map<Seq<u8>, Acc>,
            Error,
        >(t@),
        r matches Err(e) ==> agg_run(Map::empty(), split_lines_spec(text@), 0) == Err::<
            Map<Seq<u8>, Acc>,
            Error,
        >(e),
{
    let lines = split_lines(text);
    aggregate(lines.as_slice())
}

/// A pass that never failed computed exactly the pure fold of its lines.
pub proof fn lemma_agg_run_ok(m: Map<Seq<u8>, Acc>, ls: Seq<Seq<u8>>, base: int)
    requires
        agg_run(m, ls, base) is Ok,
    ensures
        agg_run(m, ls, base) == Ok::<Map<Seq<u8>, Acc>, Error>(agg_from(m, ls)),
    decreases ls.len(),
{
    if ls.len() == 0 {
    } else {
        let l = ls[0];
        if l.len() == 0 {
            lemma_agg_run_ok(m, ls.drop_first(), base + 1);
        } else {
            lemma_agg_run_ok(
                m.insert(line_key(l), push_acc(get_or_empty(m, line_key(l)), line_val(l))),
                ls.drop_first(),
                base + 1,
            );
        }
    }
}

/// Folding two line lists one after the other is folding their
/// concatenation.
pub proof fn lemma_agg_from_concat(m: Map<Seq<u8>, Acc>, ls1: Seq<Seq<u8>>, ls2: Seq<Seq<u8>>)
    ensures
        agg_from(m, ls1 + ls2) == agg_from(agg_from(m, ls1), ls2),
    decreases ls1.len(),
{
    if ls1.len() == 0 {
        assert(ls1 + ls2 =~= ls2);
    } else {
        assert((ls1 + ls2)[0] == ls1[0]);
        assert((ls1 + ls2).drop_first() =~= ls1.drop_first() + ls2);
        lemma_agg_from_concat(agg_step(m, ls1[0]), ls1.drop_first(), ls2);
    }
}

/// Folding lines onto a map is merging in what they aggregate to from
/// nothing.
pub proof fn lemma_agg_from_merge(m: Map<Seq<u8>, Acc>, ls: Seq<Seq<u8>>)
    ensures
        agg_from(m, ls) == merge_maps(m, agg_map(ls)),
    decreases ls.len(),
{
    if ls.len() == 0 {
        lemma_merge_maps_empty(m);
    } else {
        let l = ls[0];
        let tail = ls.drop_first();
        if line_ok(l) {
            let k = line_key(l);
            let v = line_val(l);
            let single = singleton(k, push_acc(empty_acc(), v));
            lemma_agg_from_merge(agg_step(m, l), tail);
            lemma_agg_from_merge(agg_step(Map::empty(), l), tail);
            lemma_merge_singleton_insert(m, k, push_acc(empty_acc(), v));
            lemma_push_is_merge_single(get_or_empty(m, k), v);
            assert(agg_step(Map::empty(), l) =~= single);
            lemma_merge_maps_assoc(m, single, agg_map(tail));
        } else {
            lemma_agg_from_merge(m, tail);
        }
    }
}

/// Partition/merge equivalence for one cut: a line list aggregated in two
/// contiguous pieces and merged equals the list aggregated in one pass.
pub proof fn lemma_partition_merge(ls1: Seq<Seq<u8>>, ls2: Seq<Seq<u8>>)
    ensures
        agg_map(ls1 + ls2) == merge_maps(agg_map(ls1), agg_map(ls2)),
{
    lemma_agg_from_concat(Map::empty(), ls1, ls2);
    lemma_agg_from_merge(agg_map(ls1), ls2);
}

/// The values of the records carrying key `k`, in line order.
pub open spec fn key_values(ls: Seq<Seq<u8>>, k: Seq<u8>) -> Seq<int>
    decreases ls.len(),
{
    if ls.len() == 0 {
        Seq::empty()
    } else {
        let rest = key_values(ls.drop_first(), k);
        if line_ok(ls[0]) && line_key(ls[0]) == k {
            seq![line_val(ls[0])] + rest
        } else {
            rest
        }
    }
}

/// What an aggregation pass leaves at one key is that key's values pushed,
/// in order, onto what the starting map held there.
pub proof fn lemma_agg_from_per_key(m: Map<Seq<u8>, Acc>, ls: Seq<Seq<u8>>, k: Seq<u8>)
    ensures
        get_or_empty(agg_from(m, ls), k) == push_all(get_or_empty(m, k), key_values(ls, k)),
    decreases ls.len(),
{
    if ls.len() == 0 {
    } else {
        let l = ls[0];
        let tail = ls.drop_first();
        lemma_agg_from_per_key(agg_step(m, l), tail, k);
        if line_ok(l) && line_key(l) == k {
            let vs = seq![line_val(l)] + key_values(tail, k);
            assert(vs[0] == line_val(l));
            assert(vs.drop_first() =~= key_values(tail, k));
            assert(get_or_empty(agg_step(m, l), k) == push_acc(get_or_empty(m, k), line_val(l)));
        } else {
            assert(get_or_empty(agg_step(m, l), k) == get_or_empty(m, k));
        }
    }
}

/// Aggregator correctness: for every key, the aggregated map holds exactly
/// how many records carried the key and what their values add up to — the
/// summary stands for the arithmetic mean of exactly that key's values.
pub proof fn lemma_aggregate_per_key(ls: Seq<Seq<u8>>, k: Seq<u8>)
    ensures
        get_or_empty(agg_map(ls), k).count == key_values(ls, k).len(),
        get_or_empty(agg_map(ls), k).sum == sum_vals(key_values(ls, k)),
{
    lemma_agg_from_per_key(Map::empty(), ls, k);
    lemma_push_mean(key_values(ls, k));
}

/// Chunked aggregates merged back to front.
pub open spec fn merge_all(cs: Seq<Seq<Seq<u8>>>) -> Map<Seq<u8>, Acc>
    decreases cs.len(),
{
    if cs.len() == 0 {
        Map::empty()
    } else {
        merge_maps(agg_map(cs[0]), merge_all(cs.drop_first()))
    }
}

/// Partition/merge equivalence: however a line list is cut into contiguous
/// chunks, aggregating every chunk on its own and merging the partial maps
/// equals aggregating the whole list sequentially.
pub proof fn lemma_partition_merge_all(cs: Seq<Seq<Seq<u8>>>)
    ensures
        agg_map(cs.flatten()) == merge_all(cs),
    decreases cs.len(),
{
    if cs.len() == 0 {
    } else {
        lemma_partition_merge_all(cs.drop_first());
        assert(cs.first() == cs[0]);
        lemma_partition_merge(cs[0], cs.drop_first().flatten());
    }
}

} // verus!
