//! Ordering for listings: newest first by start time, with ties kept in
//! catalogue order. A listing is pinned exactly by being sorted under this
//! total order and holding the same multiset of candidates.

use vstd::multiset::Multiset;
use vstd::prelude::*;

verus! {

broadcast use vstd::seq_lib::group_to_multiset_ensures;

/// `a` lists at or before `b`: it started strictly later, or at the same
/// instant but no later in the catalogue. A total order on candidates with
/// distinct positions.
pub open spec fn key_ge(a: (i64, usize), b: (i64, usize)) -> bool {
    a.0 > b.0 || (a.0 == b.0 && a.1 <= b.1)
}

/// The candidates are in listing order.
pub open spec fn sorted_desc(s: Seq<(i64, usize)>) -> bool {
    forall|p: int, q: int| 0 <= p < q < s.len() ==> key_ge(#[trigger] s[p], #[trigger] s[q])
}

/// Sorts candidates into listing order by repeatedly moving the best
/// remaining one over; the result holds exactly the given candidates.
#[verifier::loop_isolation(false)]
pub fn sort_newest_first(cands: Vec<(i64, usize)>) -> (out: Vec<(i64, usize)>)
    ensures
        sorted_desc(out@),
        out@.to_multiset() == cands@.to_multiset(),
        out@.len() == cands@.len(),
{
    let mut remaining = cands;
    let ghost all = remaining@;
    let mut out: Vec<(i64, usize)> = Vec::new();
    proof {
        assert(out@.to_multiset().add(remaining@.to_multiset()) =~= all.to_multiset());
    }
    while remaining.len() > 0
        invariant
            sorted_desc(out@),
            out@.to_multiset().add(remaining@.to_multiset()) == all.to_multiset(),
            out@.len() + remaining@.len() == all.len(),
            forall|p: int, q: int|
                0 <= p < out@.len() && 0 <= q < remaining@.len() ==> key_ge(
                    #[trigger] out@[p],
                    #[trigger] remaining@[q],
                ),
        decreases remaining@.len(),
    {
        // find the best remaining candidate
        let m = remaining.len();
        let mut bi: usize = 0;
        let mut j: usize = 1;
        while j < m
            invariant
                bi < j <= m,
                m == remaining@.len(),
                m > 0,
                forall|q: int|
                    0 <= q < j ==> key_ge(remaining@[bi as int], #[trigger] remaining@[q]),
            decreases m - j,
        {
            let cur = remaining[j];
            let best_so_far = remaining[bi];
            if cur.0 > best_so_far.0 || (cur.0 == best_so_far.0 && cur.1 <= best_so_far.1) {
                bi = j;
            }
            j = j + 1;
        }
        let best = remaining[bi];
        let ghost pre_rem = remaining@;
        let ghost pre_out = out@;
        remaining.remove(bi);
        out.push(best);
        proof {
            assert(pre_rem.contains(best));
            assert(pre_rem.remove(bi as int).to_multiset() =~= pre_rem.to_multiset().remove(best));
            assert(pre_out.push(best).to_multiset() =~= pre_out.to_multiset().insert(best));
            assert(out@.to_multiset().add(remaining@.to_multiset()) =~= all.to_multiset());
            assert forall|p: int, q: int|
                0 <= p < out@.len() && 0 <= q < remaining@.len() implies key_ge(
                #[trigger] out@[p],
                #[trigger] remaining@[q],
            ) by {
                let orig_q: int = if q < bi {
                    q
                } else {
                    q + 1
                };
                assert(remaining@[q] == pre_rem[orig_q]);
                if p < pre_out.len() {
                    assert(out@[p] == pre_out[p]);
                } else {
                    assert(out@[p] == best);
                }
            }
            assert forall|p: int, q: int|
                0 <= p < q < out@.len() implies key_ge(#[trigger] out@[p], #[trigger] out@[q]) by {
                if q == out@.len() - 1 {
                    assert(out@[q] == best);
                    assert(out@[p] == pre_out[p]);
                    assert(pre_rem[bi as int] == best);
                } else {
                    assert(out@[p] == pre_out[p]);
                    assert(out@[q] == pre_out[q]);
                }
            }
        }
    }
    proof {
        assert(remaining@.to_multiset() =~= Multiset::<(i64, usize)>::empty());
        assert(out@.to_multiset() =~= all.to_multiset());
    }
    out
}

} // verus!
