//! The ranked candidate selector.
//!
//! Given a query, a candidate list, and a cutoff, the selector keeps the
//! candidates whose similarity score reaches the cutoff and orders them by
//! descending score, breaking ties by the candidates' original positions so
//! that the outcome is deterministic. Scoring compares the query against
//! each candidate's case-folded form — the fold is for comparison only, and
//! the selected names keep their stored casing.

use vstd::prelude::*;
use vstd::relations::{sorted_by, total_ordering};
use vstd::seq_lib::lemma_sorted_unique;
use crate::scoring::{jw_bits, jaro_winkler_bits, lower_of, lowercase, ONE_BITS};

verus! {

/// Ranking order on (score bits, candidate position) pairs: a pair comes
/// first when its score is higher, or on equal scores when its candidate
/// stood earlier in the input.
pub open spec fn rank_leq(a: (u64, usize), b: (u64, usize)) -> bool {
    a.0 > b.0 || (a.0 == b.0 && a.1 <= b.1)
}

/// The ranking order as a single closure value, so that every use of it
/// denotes the same function.
pub open spec fn rank_leq_fn() -> spec_fn((u64, usize), (u64, usize)) -> bool {
    |a: (u64, usize), b: (u64, usize)| rank_leq(a, b)
}

/// The retention test for a cutoff, as a single closure value.
pub open spec fn cutoff_pred(cutoff: u64) -> spec_fn((u64, usize)) -> bool {
    |p: (u64, usize)| p.0 >= cutoff
}

/// The (score, position) pairs of the first `n` candidates, in input order.
/// Each candidate is scored in its case-folded form.
pub open spec fn prefix_pairs(q: Seq<char>, cands: Seq<Seq<char>>, n: int) -> Seq<(u64, usize)> {
    Seq::new(n as nat, |i: int| (jw_bits(q, lower_of(cands[i])), i as usize))
}

/// The pairs of the first `n` candidates whose score reaches the cutoff.
pub open spec fn scored_prefix(q: Seq<char>, cands: Seq<Seq<char>>, cutoff: u64, n: int) -> Seq<
    (u64, usize),
> {
    prefix_pairs(q, cands, n).filter(cutoff_pred(cutoff))
}

/// The pairs of all candidates whose score reaches the cutoff, in input order.
pub open spec fn scored_pairs(q: Seq<char>, cands: Seq<Seq<char>>, cutoff: u64) -> Seq<
    (u64, usize),
> {
    scored_prefix(q, cands, cutoff, cands.len() as int)
}

/// The retained pairs, ordered by descending score with ties in input order.
pub open spec fn ranked_pairs(q: Seq<char>, cands: Seq<Seq<char>>, cutoff: u64) -> Seq<
    (u64, usize),
> {
    scored_pairs(q, cands, cutoff).sort_by(rank_leq_fn())
}

/// The selected candidates themselves, in ranked order.
pub open spec fn select_spec(q: Seq<char>, cands: Seq<Seq<char>>, cutoff: u64) -> Seq<Seq<char>> {
    ranked_pairs(q, cands, cutoff).map_values(|p: (u64, usize)| cands[p.1 as int])
}

/// The ranking order is a total order: ranking sorts every candidate list,
/// and two rankings of the same pairs agree.
pub proof fn lemma_rank_total()
    ensures
        total_ordering(rank_leq_fn()),
{
    let leq = rank_leq_fn();
    assert forall|a: (u64, usize), b: (u64, usize)| #[trigger] leq(a, b) && leq(b, a) implies a
        == b by {
        assert(a.0 == b.0 && a.1 == b.1);
        assert(a == (a.0, a.1));
        assert(b == (b.0, b.1));
    }
}

/// Exec comparison mirroring `rank_leq`.
fn rank_before(a: (u64, usize), b: (u64, usize)) -> (r: bool)
    ensures
        r == rank_leq(a, b),
{
    a.0 > b.0 || (a.0 == b.0 && a.1 <= b.1)
}

/// Every ranked pair points at a candidate, carries that candidate's score,
/// and reaches the cutoff; and ranking keeps the number of retained pairs.
pub proof fn lemma_ranked_pairs_wf(q: Seq<char>, cands: Seq<Seq<char>>, cutoff: u64)
    requires
        cands.len() <= usize::MAX,
    ensures
        ranked_pairs(q, cands, cutoff).len() == scored_pairs(q, cands, cutoff).len(),
        forall|k: int|
            0 <= k < ranked_pairs(q, cands, cutoff).len() ==> {
                let p = #[trigger] ranked_pairs(q, cands, cutoff)[k];
                &&& p.1 < cands.len()
                &&& p.0 == jw_bits(q, lower_of(cands[p.1 as int]))
                &&& p.0 >= cutoff
            },
{
    broadcast use vstd::seq_lib::group_to_multiset_ensures;

    let sp = scored_pairs(q, cands, cutoff);
    let rp = ranked_pairs(q, cands, cutoff);
    let base = prefix_pairs(q, cands, cands.len() as int);
    let pred = cutoff_pred(cutoff);
    sp.lemma_sort_by_ensures(rank_leq_fn());
    assert(sp.to_multiset().len() == sp.len());
    assert(rp.to_multiset().len() == rp.len());
    assert(rp.len() == sp.len());
    assert forall|k: int| 0 <= k < rp.len() implies {
        let p = #[trigger] rp[k];
        &&& p.1 < cands.len()
        &&& p.0 == jw_bits(q, lower_of(cands[p.1 as int]))
        &&& p.0 >= cutoff
    } by {
        let p = rp[k];
        assert(rp.contains(p));
        assert(rp.to_multiset().contains(p));
        assert(sp.to_multiset().contains(p));
        assert(sp.contains(p));
        let m = choose|m: int| 0 <= m < sp.len() && sp[m] == p;
        base.lemma_filter_contains_rev(pred, p);
        let i = choose|i: int| 0 <= i < base.len() && base[i] == p;
        assert(base[i] == (jw_bits(q, lower_of(cands[i])), i as usize));
        assert(p.1 as int == i);
        base.lemma_filter_pred(pred, m);
    }
}

/// The selection is ranked: along the selected candidates the scores never
/// increase, every retained score lies at or above the cutoff, and each
/// selected name is the candidate its ranked pair points at. Together with
/// the scorer's bound of `ONE_BITS` on every score this pins the selector's
/// output ordering completely.
pub proof fn lemma_selection_sorted(q: Seq<char>, cands: Seq<Seq<char>>, cutoff: u64)
    requires
        cands.len() <= usize::MAX,
    ensures
        sorted_by(ranked_pairs(q, cands, cutoff), rank_leq_fn()),
        forall|k1: int, k2: int|
            0 <= k1 <= k2 < ranked_pairs(q, cands, cutoff).len() ==> (#[trigger] ranked_pairs(
                q,
                cands,
                cutoff,
            )[k1]).0 >= (#[trigger] ranked_pairs(q, cands, cutoff)[k2]).0,
        select_spec(q, cands, cutoff).len() == ranked_pairs(q, cands, cutoff).len(),
        forall|k: int|
            0 <= k < ranked_pairs(q, cands, cutoff).len() ==> #[trigger] select_spec(
                q,
                cands,
                cutoff,
            )[k] == cands[ranked_pairs(q, cands, cutoff)[k].1 as int],
{
    let sp = scored_pairs(q, cands, cutoff);
    let rp = ranked_pairs(q, cands, cutoff);
    sp.lemma_sort_by_ensures(rank_leq_fn());
    lemma_ranked_pairs_wf(q, cands, cutoff);
    assert forall|k1: int, k2: int| 0 <= k1 <= k2 < rp.len() implies (#[trigger] rp[k1]).0
        >= (#[trigger] rp[k2]).0 by {
        if k1 < k2 {
            assert(rank_leq_fn()(rp[k1], rp[k2]));
        }
    }
}

/// Retain the candidates whose similarity to `word` reaches `cutoff` and
/// order them by descending score, ties by original position. Each
/// candidate is scored in its case-folded form but returned as stored.
///
/// The result equals `select_spec(word@, ..)` exactly, and every candidate's
/// score is bounded by `ONE_BITS`, the encoding of a full score.
pub fn get_close_matches(word: &str, possibilities: &Vec<String>, cutoff: u64) -> (r: Vec<String>)
    ensures
        r.deep_view() == select_spec(word@, possibilities.deep_view(), cutoff),
        r@.len() == ranked_pairs(word@, possibilities.deep_view(), cutoff).len(),
        forall|k: int| 0 <= k < r@.len() ==> #[trigger] r@[k]@ == r.deep_view()[k],
        forall|i: int|
            0 <= i < possibilities.deep_view().len() ==> #[trigger] jw_bits(
                word@,
                lower_of(possibilities.deep_view()[i]),
            ) <= ONE_BITS,
{
    let ghost cv = possibilities.deep_view();
    proof {
        assert(cv.len() == possibilities@.len());
    }
    // Score every candidate and retain those at or above the cutoff.
    let mut pairs: Vec<(u64, usize)> = Vec::new();
    let mut i: usize = 0;
    proof {
        assert(prefix_pairs(word@, cv, 0) =~= Seq::<(u64, usize)>::empty());
        assert(pairs@ == scored_prefix(word@, cv, cutoff, 0));
    }
    while i < possibilities.len()
        invariant
            i <= possibilities@.len(),
            cv == possibilities.deep_view(),
            cv.len() == possibilities@.len(),
            pairs@ == scored_prefix(word@, cv, cutoff, i as int),
            forall|k: int| 0 <= k < i ==> #[trigger] jw_bits(word@, lower_of(cv[k])) <= ONE_BITS,
        decreases possibilities@.len() - i,
    {
        let cand_lower = lowercase(possibilities[i].as_str());
        let s = jaro_winkler_bits(word, cand_lower.as_str());
        proof {
            assert(possibilities@[i as int]@ == cv[i as int]);
            assert(cand_lower@ == lower_of(cv[i as int]));
            assert(prefix_pairs(word@, cv, i + 1) =~= prefix_pairs(word@, cv, i as int).push(
                (s, i),
            ));
            prefix_pairs(word@, cv, i as int).lemma_filter_push((s, i), cutoff_pred(cutoff));
            assert(cutoff_pred(cutoff)((s, i)) == (s >= cutoff));
        }
        if s >= cutoff {
            pairs.push((s, i));
        }
        i += 1;
    }
    let ghost sp = scored_pairs(word@, cv, cutoff);
    proof {
        assert(pairs@ == sp);
    }
    // Sort the retained pairs by inserting each into an ordered list.
    let mut out: Vec<(u64, usize)> = Vec::new();
    let mut n: usize = 0;
    proof {
        assert(out@ =~= pairs@.take(0));
    }
    while n < pairs.len()
        invariant
            n <= pairs@.len(),
            pairs@ == sp,
            sorted_by(out@, rank_leq_fn()),
            out@.to_multiset() == pairs@.take(n as int).to_multiset(),
        decreases pairs@.len() - n,
    {
        broadcast use vstd::seq_lib::group_to_multiset_ensures;

        let p = pairs[n];
        let mut j: usize = 0;
        while j < out.len()
            invariant
                j <= out@.len(),
                forall|m: int| 0 <= m < j ==> rank_leq(#[trigger] out@[m], p),
            ensures
                j <= out@.len(),
                forall|m: int| 0 <= m < j ==> rank_leq(#[trigger] out@[m], p),
                j == out@.len() || !rank_leq(out@[j as int], p),
            decreases out@.len() - j,
        {
            if rank_before(out[j], p) {
                j += 1;
            } else {
                break ;
            }
        }
        let ghost old_out = out@;
        out.insert(j, p);
        proof {
            old_out.insert_ensures(j as int, p);
            assert(out@.to_multiset() =~= old_out.to_multiset().insert(p)) by {
                vstd::seq_lib::to_multiset_insert(old_out, j as int, p);
            }
            assert(pairs@.take(n + 1) =~= pairs@.take(n as int).push(p));
            assert(sorted_by(out@, rank_leq_fn())) by {
                let leq = rank_leq_fn();
                assert forall|x: int, y: int| 0 <= x < y < out@.len() implies #[trigger] leq(
                    out@[x],
                    out@[y],
                ) by {
                    if y == j {
                        assert(leq(old_out[x], p));
                    } else if x == j {
                        assert(rank_leq(p, old_out[j as int]));
                        if j < y - 1 {
                            assert(leq(old_out[j as int], old_out[y - 1]));
                        }
                        assert(rank_leq(p, old_out[y - 1]));
                    } else if x < j && y > j {
                        if x < y - 1 {
                            assert(leq(old_out[x], old_out[y - 1]));
                        }
                    }
                }
            }
        }
        n += 1;
    }
    proof {
        broadcast use vstd::seq_lib::group_to_multiset_ensures;

        assert(pairs@.take(n as int) =~= pairs@);
        sp.lemma_sort_by_ensures(rank_leq_fn());
        lemma_rank_total();
        lemma_sorted_unique(out@, ranked_pairs(word@, cv, cutoff), rank_leq_fn());
        assert(out@ == ranked_pairs(word@, cv, cutoff));
        lemma_ranked_pairs_wf(word@, cv, cutoff);
    }
    // Hand back the candidates themselves, in ranked order.
    let ghost rp = ranked_pairs(word@, cv, cutoff);
    let mut result: Vec<String> = Vec::new();
    let mut k: usize = 0;
    while k < out.len()
        invariant
            k <= out@.len(),
            out@ == rp,
            cv == possibilities.deep_view(),
            cv.len() == possibilities@.len(),
            forall|m: int|
                0 <= m < rp.len() ==> (#[trigger] rp[m]).1 < cv.len() && rp[m].0 == jw_bits(
                    word@,
                    lower_of(cv[rp[m].1 as int]),
                ),
            result@.len() == k,
            forall|m: int| 0 <= m < k ==> #[trigger] result@[m]@ == cv[rp[m].1 as int],
        decreases out@.len() - k,
    {
        let idx = out[k].1;
        result.push(possibilities[idx].clone());
        k += 1;
    }
    proof {
        assert(result.deep_view() =~= select_spec(word@, cv, cutoff));
        assert forall|m: int| 0 <= m < result@.len() implies #[trigger] result@[m]@
            == result.deep_view()[m] by {}
    }
    result
}

} // verus!
