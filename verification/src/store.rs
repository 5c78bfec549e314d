//! Ordering records by recency, compacting the store, and choosing the
//! candidate set for a search.
//!
//! Compaction keeps the `keep` most recent records: the store is sorted
//! by timestamp, newest first, and cut.  Listing recent records keeps
//! the newest `limit` the same way.

use vstd::prelude::*;

use vstd::multiset::Multiset;
use crate::record::Record;

verus! {

/// Clamped age of a record in seconds: how far `ts` lies in the past of
/// `now`, never negative.  A record stamped in the future counts as age zero.
pub fn age_secs(now: i64, ts: i64) -> (r: u64)
    ensures
        r == if now >= ts {
            now - ts
        } else {
            0
        },
{
    if now >= ts {
        ((now as i128) - (ts as i128)) as u64
    } else {
        0
    }
}

/// Newest first: every record's timestamp is at least the next one's.
pub open spec fn sorted_desc(s: Seq<Record>) -> bool {
    forall|a: int, b: int| 0 <= a < b < s.len() ==> s[a].ts >= s[b].ts
}

/// The records carrying one given timestamp, in their current order.
pub open spec fn ts_slice(s: Seq<Record>, t: i64) -> Seq<Record> {
    s.filter(|x: Record| x.ts == t)
}

proof fn lemma_ts_slice_empty(t: i64)
    ensures
        ts_slice(Seq::empty(), t) == Seq::<Record>::empty(),
{
    reveal(Seq::filter);
}

proof fn lemma_ts_slice_push(s: Seq<Record>, x: Record, t: i64)
    ensures
        ts_slice(s.push(x), t) == if x.ts == t {
            ts_slice(s, t).push(x)
        } else {
            ts_slice(s, t)
        },
{
    reveal(Seq::filter);
    assert(s.push(x).drop_last() =~= s);
    assert(s.push(x).last() == x);
}

proof fn lemma_ts_slice_concat(a: Seq<Record>, b: Seq<Record>, t: i64)
    ensures
        ts_slice(a + b, t) == ts_slice(a, t) + ts_slice(b, t),
    decreases b.len(),
{
    if b.len() == 0 {
        assert(a + b =~= a);
        lemma_ts_slice_empty(t);
        assert(ts_slice(a, t) + ts_slice(b, t) =~= ts_slice(a, t));
    } else {
        let x = b.last();
        lemma_ts_slice_concat(a, b.drop_last(), t);
        assert(a + b =~= (a + b.drop_last()).push(x));
        lemma_ts_slice_push(a + b.drop_last(), x, t);
        lemma_ts_slice_push(b.drop_last(), x, t);
        assert(b.drop_last().push(x) =~= b);
        if x.ts == t {
            assert((ts_slice(a, t) + ts_slice(b.drop_last(), t)).push(x) =~= ts_slice(a, t)
                + ts_slice(b.drop_last(), t).push(x));
        }
    }
}

proof fn lemma_ts_slice_none(s: Seq<Record>, t: i64)
    requires
        forall|i: int| 0 <= i < s.len() ==> (#[trigger] s[i]).ts != t,
    ensures
        ts_slice(s, t) == Seq::<Record>::empty(),
    decreases s.len(),
{
    if s.len() == 0 {
        lemma_ts_slice_empty(t);
        assert(s =~= Seq::<Record>::empty());
    } else {
        let d = s.drop_last();
        assert(forall|i: int| 0 <= i < d.len() ==> d[i] == s[i] && (#[trigger] s[i]).ts != t);
        lemma_ts_slice_none(d, t);
        assert(d.push(s.last()) =~= s);
        lemma_ts_slice_push(d, s.last(), t);
        assert(s.last().ts != t);
    }
}

/// Index of the first record with the greatest timestamp: everything
/// before it is strictly older, so records with equal timestamps leave
/// in their input order.
fn max_ts_index(v: &Vec<Record>) -> (r: usize)
    requires
        v@.len() > 0,
    ensures
        r < v@.len(),
        forall|k: int| 0 <= k < v@.len() ==> v@[r as int].ts >= v@[k].ts,
        forall|k: int| 0 <= k < r ==> v@[k].ts < v@[r as int].ts,
{
    let mut best: usize = 0;
    let mut j: usize = 1;
    while j < v.len()
        invariant
            best < j <= v@.len(),
            forall|k: int| 0 <= k < j ==> v@[best as int].ts >= v@[k].ts,
            forall|k: int| 0 <= k < best ==> v@[k].ts < v@[best as int].ts,
        decreases v@.len() - j,
    {
        if v[j].ts > v[best].ts {
            best = j;
        }
        j = j + 1;
    }
    best
}

/// Sorts records by timestamp, newest first.  The result holds exactly
/// the input records, and it is stable: for every timestamp, the records
/// carrying it come out in their input order.
pub fn sort_by_ts_desc(records: Vec<Record>) -> (r: Vec<Record>)
    ensures
        r@.to_multiset() == records@.to_multiset(),
        r@.len() == records@.len(),
        sorted_desc(r@),
        forall|t: i64| #[trigger] ts_slice(r@, t) == ts_slice(records@, t),
{
    broadcast use vstd::seq_lib::group_to_multiset_ensures;
    broadcast use vstd::multiset::group_multiset_axioms;

    let ghost orig = records@;
    let mut work = records;
    let mut out: Vec<Record> = Vec::new();
    proof {
        assert(out@.to_multiset() =~= Multiset::<Record>::empty());
        assert(out@.to_multiset().add(work@.to_multiset()) =~= orig.to_multiset());
        assert forall|t: i64| #[trigger] ts_slice(orig, t) == ts_slice(out@, t) + ts_slice(
            work@,
            t,
        ) by {
            lemma_ts_slice_empty(t);
            assert(out@ =~= Seq::<Record>::empty());
            assert(ts_slice(out@, t) + ts_slice(work@, t) =~= ts_slice(work@, t));
        }
    }
    while work.len() > 0
        invariant
            out@.to_multiset().add(work@.to_multiset()) == orig.to_multiset(),
            out@.len() + work@.len() == orig.len(),
            sorted_desc(out@),
            forall|a: int, b: int|
                0 <= a < out@.len() && 0 <= b < work@.len() ==> out@[a].ts >= work@[b].ts,
            forall|t: i64| #[trigger] ts_slice(orig, t) == ts_slice(out@, t) + ts_slice(work@, t),
        decreases work.len(),
    {
        let ghost w0 = work@;
        let ghost o0 = out@;
        let mi = max_ts_index(&work);
        let x = work.remove(mi);
        out.push(x);
        proof {
            assert(x == w0[mi as int]);
            assert(work@ == w0.remove(mi as int));
            vstd::seq_lib::to_multiset_remove(w0, mi as int);
            assert(work@.to_multiset() == w0.to_multiset().remove(x));
            assert(out@ == o0.push(x));
            vstd::seq_lib::to_multiset_build(o0, x);
            assert(out@.to_multiset() =~= o0.to_multiset().insert(x));
            vstd::seq_lib::to_multiset_contains(w0, x);
            assert(w0.to_multiset().count(x) > 0) by {
                assert(w0.contains(x));
            }
            assert(out@.to_multiset().add(work@.to_multiset()) =~= o0.to_multiset().add(
                w0.to_multiset(),
            ));
            // Order: the popped maximum goes after everything already out
            // and before everything still in.
            assert(forall|b: int|
                0 <= b < work@.len() ==> x.ts >= #[trigger] work@[b].ts && (work@[b] == w0[b]
                    || work@[b] == w0[b + 1]));
            assert(forall|a: int| 0 <= a < o0.len() ==> #[trigger] o0[a].ts >= x.ts);
            assert(forall|a: int| 0 <= a < out@.len() ==> out@[a] == (if a < o0.len() {
                o0[a]
            } else {
                x
            }));
            // Stability: the popped record is the first of its timestamp,
            // so each timestamp's records move over in order.
            let pre = w0.take(mi as int);
            let post = w0.skip(mi as int + 1);
            assert forall|t: i64| #[trigger] ts_slice(orig, t) == ts_slice(out@, t) + ts_slice(
                work@,
                t,
            ) by {
                assert(ts_slice(orig, t) == ts_slice(o0, t) + ts_slice(w0, t));
                assert(w0 =~= pre + (seq![x] + post));
                lemma_ts_slice_concat(pre, seq![x] + post, t);
                lemma_ts_slice_concat(seq![x], post, t);
                assert(seq![x] =~= Seq::<Record>::empty().push(x));
                lemma_ts_slice_push(Seq::empty(), x, t);
                lemma_ts_slice_empty(t);
                assert(work@ =~= pre + post);
                lemma_ts_slice_concat(pre, post, t);
                lemma_ts_slice_push(o0, x, t);
                if t == x.ts {
                    assert(forall|k: int|
                        0 <= k < pre.len() ==> pre[k] == w0[k] && (#[trigger] pre[k]).ts != t);
                    lemma_ts_slice_none(pre, t);
                    assert(ts_slice(seq![x], t) =~= Seq::<Record>::empty().push(x));
                    assert(ts_slice(w0, t) =~= seq![x] + ts_slice(post, t));
                    assert(ts_slice(out@, t) =~= ts_slice(o0, t).push(x));
                    assert(ts_slice(work@, t) =~= ts_slice(post, t));
                    assert(ts_slice(o0, t).push(x) + ts_slice(post, t) =~= ts_slice(o0, t) + (
                    seq![x] + ts_slice(post, t)));
                } else {
                    assert(ts_slice(seq![x], t) =~= Seq::<Record>::empty());
                    assert(ts_slice(w0, t) =~= ts_slice(pre, t) + ts_slice(post, t));
                    assert(ts_slice(out@, t) =~= ts_slice(o0, t));
                    assert(ts_slice(work@, t) =~= ts_slice(pre, t) + ts_slice(post, t));
                }
            }
        }
    }
    proof {
        assert(work@.to_multiset() =~= Multiset::<Record>::empty());
        assert(out@.to_multiset() =~= out@.to_multiset().add(work@.to_multiset()));
        vstd::seq_lib::to_multiset_len(out@);
        vstd::seq_lib::to_multiset_len(orig);
        assert forall|t: i64| #[trigger] ts_slice(out@, t) == ts_slice(orig, t) by {
            assert(work@ =~= Seq::<Record>::empty());
            lemma_ts_slice_empty(t);
            assert(ts_slice(out@, t) + ts_slice(work@, t) =~= ts_slice(out@, t));
        }
    }
    out
}

/// Keeps the `keep` most recent records, newest first: the compaction
/// rule, and also what a listing of recent records shows.  Every kept
/// record is at least as recent as every dropped one, and among records
/// with one timestamp the earliest-stored survive, in their input order.
pub fn cmd_compact(records: Vec<Record>, keep: usize) -> (r: Vec<Record>)
    ensures
        sorted_desc(r@),
        r@.len() == if records@.len() <= keep {
            records@.len() as int
        } else {
            keep as int
        },
        r@.to_multiset().subset_of(records@.to_multiset()),
        forall|x: Record, y: Record|
            #[trigger] r@.contains(x) && #[trigger] records@.to_multiset().sub(
                r@.to_multiset(),
            ).count(y) > 0 ==> x.ts >= y.ts,
        forall|t: i64| #[trigger] ts_slice(r@, t) == ts_slice(records@, t).take(
            ts_slice(r@, t).len() as int,
        ),
{
    broadcast use vstd::seq_lib::group_to_multiset_ensures;
    broadcast use vstd::multiset::group_multiset_axioms;

    let ghost orig = records@;
    let mut sorted = sort_by_ts_desc(records);
    let ghost s = sorted@;
    if sorted.len() > keep {
        sorted.truncate(keep);
        proof {
            assert(sorted@ == s.take(keep as int));
            assert(s =~= s.take(keep as int) + s.skip(keep as int));
            vstd::seq_lib::lemma_multiset_commutative(s.take(keep as int), s.skip(keep as int));
            let kept = s.take(keep as int).to_multiset();
            let rest = s.skip(keep as int).to_multiset();
            assert(orig.to_multiset() == kept.add(rest));
            assert(orig.to_multiset().sub(kept) =~= rest);
            assert forall|x: Record, y: Record|
                #[trigger] sorted@.contains(x) && #[trigger] orig.to_multiset().sub(
                    sorted@.to_multiset(),
                ).count(y) > 0 implies x.ts >= y.ts by {
                let a = choose|a: int| 0 <= a < sorted@.len() && sorted@[a] == x;
                assert(s.skip(keep as int).contains(y));
                let b = choose|b: int|
                    0 <= b < s.skip(keep as int).len() && s.skip(keep as int)[b] == y;
                assert(s[a] == x);
                assert(s[keep + b] == y);
            }
            assert forall|t: i64| #[trigger] ts_slice(sorted@, t) == ts_slice(orig, t).take(
                ts_slice(sorted@, t).len() as int,
            ) by {
                lemma_ts_slice_concat(s.take(keep as int), s.skip(keep as int), t);
                assert(ts_slice(s, t) == ts_slice(sorted@, t) + ts_slice(s.skip(keep as int), t));
                assert(ts_slice(s, t).take(ts_slice(sorted@, t).len() as int) =~= ts_slice(
                    sorted@,
                    t,
                ));
                assert(ts_slice(s, t) == ts_slice(orig, t));
            }
        }
    } else {
        proof {
            assert(orig.to_multiset().sub(sorted@.to_multiset()) =~= Multiset::<Record>::empty());
            assert forall|t: i64| #[trigger] ts_slice(sorted@, t) == ts_slice(orig, t).take(
                ts_slice(sorted@, t).len() as int,
            ) by {
                assert(ts_slice(sorted@, t) == ts_slice(orig, t));
                assert(ts_slice(orig, t).take(ts_slice(orig, t).len() as int) =~= ts_slice(
                    orig,
                    t,
                ));
            }
        }
    }
    sorted
}

/// The records whose id is among the candidates, in input order.
pub open spec fn selected(rs: Seq<Record>, ids: Seq<u128>) -> Seq<Record> {
    rs.filter(|x: Record| ids.contains(x.id))
}

proof fn lemma_selected_empty(ids: Seq<u128>)
    ensures
        selected(Seq::empty(), ids) == Seq::<Record>::empty(),
{
    reveal(Seq::filter);
}

proof fn lemma_selected_push(rs: Seq<Record>, x: Record, ids: Seq<u128>)
    ensures
        selected(rs.push(x), ids) == if ids.contains(x.id) {
            selected(rs, ids).push(x)
        } else {
            selected(rs, ids)
        },
{
    reveal(Seq::filter);
    assert(rs.push(x).drop_last() =~= rs);
    assert(rs.push(x).last() == x);
}

/// Whether an id is among the candidate ids.
fn contains_id(ids: &Vec<u128>, id: u128) -> (r: bool)
    ensures
        r == ids@.contains(id),
{
    let mut j: usize = 0;
    while j < ids.len()
        invariant
            j <= ids@.len(),
            forall|k: int| 0 <= k < j ==> ids@[k] != id,
        decreases ids@.len() - j,
    {
        if ids[j] == id {
            return true;
        }
        j = j + 1;
    }
    false
}

/// Keeps the records the candidate set names, in their stored order:
/// what the scorer then ranks.
pub fn select_candidates(records: Vec<Record>, ids: &Vec<u128>) -> (r: Vec<Record>)
    ensures
        r@ == selected(records@, ids@),
        records@.len() == 0 ==> r@.len() == 0,
{
    let ghost orig = records@;
    let mut work = records;
    let mut out: Vec<Record> = Vec::new();
    let ghost mut i: int = 0;
    proof {
        lemma_selected_empty(ids@);
        assert(orig.take(0) =~= Seq::<Record>::empty());
    }
    while work.len() > 0
        invariant
            0 <= i <= orig.len(),
            work@ == orig.skip(i),
            work@.len() == orig.len() - i,
            out@ == selected(orig.take(i), ids@),
        decreases work.len(),
    {
        let ghost w0 = work@;
        let x = work.remove(0);
        proof {
            assert(x == orig[i]);
            assert(work@ =~= orig.skip(i + 1));
            assert(orig.take(i + 1) =~= orig.take(i).push(x));
            lemma_selected_push(orig.take(i), x, ids@);
        }
        if contains_id(ids, x.id) {
            out.push(x);
        }
        proof {
            i = i + 1;
        }
    }
    proof {
        assert(orig.take(i) =~= orig);
        if orig.len() == 0 {
            assert(orig =~= Seq::<Record>::empty());
            lemma_selected_empty(ids@);
        }
    }
    out
}

/// How many nearest neighbours to ask the index for: ten per requested
/// row, at least ten, and never more than there are vectors.
pub open spec fn candidate_k_spec(limit: int, total: int) -> int {
    let p = if limit * 10 > usize::MAX {
        usize::MAX as int
    } else {
        limit * 10
    };
    let k = if p < 10 {
        10
    } else {
        p
    };
    if k < total {
        k
    } else {
        total
    }
}

/// Computes the candidate count for a search with `limit` requested
/// rows over `total` stored vectors.
pub fn candidate_k(limit: usize, total: usize) -> (r: usize)
    ensures
        r == candidate_k_spec(limit as int, total as int),
{
    let p: usize = if limit > usize::MAX / 10 {
        proof {
            assert(limit >= usize::MAX / 10 + 1);
            assert(limit * 10 >= (usize::MAX / 10 + 1) * 10);
            assert(limit * 10 > usize::MAX);
        }
        usize::MAX
    } else {
        proof {
            assert(limit * 10 <= (usize::MAX / 10) * 10);
        }
        limit * 10
    };
    let k = if p < 10 {
        10
    } else {
        p
    };
    if k < total {
        k
    } else {
        total
    }
}

} // verus!
