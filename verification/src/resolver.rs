//! The match resolver.
//!
//! A query is resolved against a candidate list in two steps: a
//! case-insensitive exact comparison that short-circuits before any scoring,
//! and otherwise the ranked selector with the fixed cutoff. The outcome is
//! classified into one of four dispositions.

use vstd::prelude::*;
use vstd::string::StringExecFns;
use crate::scoring::{jw_bits, lower_of, lowercase, CUTOFF_BITS};
use crate::selector::{
    cutoff_pred, get_close_matches, prefix_pairs, rank_leq_fn, ranked_pairs, scored_pairs,
    select_spec, lemma_ranked_pairs_wf,
};

verus! {

/// The outcome of resolving a query against a candidate set. A matched
/// candidate is reported in its original casing.
#[derive(Debug, PartialEq, Eq)]
pub enum MatchDisposition {
    /// A candidate equals the query, ignoring case.
    Exact(String),
    /// No exact hit, and exactly one candidate reaches the cutoff.
    UniqueFuzzy(String),
    /// No exact hit, and several candidates reach the cutoff; they are
    /// listed by descending score, ties in input order.
    Ambiguous(Vec<String>),
    /// No exact hit and no candidate reaches the cutoff.
    NoMatch,
}

/// The disposition at the specification level, over character sequences.
pub enum SpecDisposition {
    Exact(Seq<char>),
    UniqueFuzzy(Seq<char>),
    Ambiguous(Seq<Seq<char>>),
    NoMatch,
}

impl View for MatchDisposition {
    type V = SpecDisposition;

    open spec fn view(&self) -> SpecDisposition {
        match self {
            MatchDisposition::Exact(s) => SpecDisposition::Exact(s@),
            MatchDisposition::UniqueFuzzy(s) => SpecDisposition::UniqueFuzzy(s@),
            MatchDisposition::Ambiguous(v) => SpecDisposition::Ambiguous(v.deep_view()),
            MatchDisposition::NoMatch => SpecDisposition::NoMatch,
        }
    }
}

/// Whether some candidate equals the query after case folding.
pub open spec fn has_exact(q: Seq<char>, cands: Seq<Seq<char>>) -> bool {
    exists|i: int| 0 <= i < cands.len() && lower_of(#[trigger] cands[i]) == lower_of(q)
}

/// The position of the first candidate that equals the query after case
/// folding; meaningful only when `has_exact` holds.
pub open spec fn first_exact(q: Seq<char>, cands: Seq<Seq<char>>) -> int
    decreases cands.len(),
{
    if cands.len() == 0 {
        0
    } else if lower_of(cands[0]) == lower_of(q) {
        0
    } else {
        1 + first_exact(q, cands.drop_first())
    }
}

/// What resolution returns, as a function of the query and the candidates.
pub open spec fn resolve_spec(q: Seq<char>, cands: Seq<Seq<char>>) -> SpecDisposition {
    if has_exact(q, cands) {
        SpecDisposition::Exact(cands[first_exact(q, cands)])
    } else {
        let sel = select_spec(lower_of(q), cands, CUTOFF_BITS);
        if sel.len() == 0 {
            SpecDisposition::NoMatch
        } else if sel.len() == 1 {
            SpecDisposition::UniqueFuzzy(sel[0])
        } else {
            SpecDisposition::Ambiguous(sel)
        }
    }
}

/// When `has_exact` holds, `first_exact` names the first matching position.
pub proof fn lemma_first_exact_props(q: Seq<char>, cands: Seq<Seq<char>>)
    requires
        has_exact(q, cands),
    ensures
        0 <= first_exact(q, cands) < cands.len(),
        lower_of(cands[first_exact(q, cands)]) == lower_of(q),
        forall|k: int|
            0 <= k < first_exact(q, cands) ==> lower_of(#[trigger] cands[k]) != lower_of(q),
    decreases cands.len(),
{
    if lower_of(cands[0]) == lower_of(q) {
    } else {
        let w = choose|i: int| 0 <= i < cands.len() && lower_of(#[trigger] cands[i]) == lower_of(
            q,
        );
        let rest = cands.drop_first();
        assert(rest[w - 1] == cands[w]);
        assert(has_exact(q, rest));
        lemma_first_exact_props(q, rest);
        let f = first_exact(q, rest);
        assert(cands[1 + f] == rest[f]);
        assert forall|k: int| 0 <= k < 1 + f implies lower_of(#[trigger] cands[k]) != lower_of(
            q,
        ) by {
            if k > 0 {
                assert(rest[k - 1] == cands[k]);
            }
        }
    }
}

/// A match at position `i` with none before it pins `first_exact` to `i`.
pub proof fn lemma_first_exact_at(q: Seq<char>, cands: Seq<Seq<char>>, i: int)
    requires
        0 <= i < cands.len(),
        lower_of(cands[i]) == lower_of(q),
        forall|k: int| 0 <= k < i ==> lower_of(#[trigger] cands[k]) != lower_of(q),
    ensures
        first_exact(q, cands) == i,
    decreases i,
{
    if i > 0 {
        let rest = cands.drop_first();
        assert(rest[i - 1] == cands[i]);
        assert forall|k: int| 0 <= k < i - 1 implies lower_of(#[trigger] rest[k]) != lower_of(
            q,
        ) by {
            assert(rest[k] == cands[k + 1]);
        }
        lemma_first_exact_at(q, rest, i - 1);
    }
}

/// Resolve `query` against `candidates`: a case-insensitive exact hit wins
/// outright; otherwise the ranked selector at the fixed cutoff decides over
/// the case-folded strings, and the number of survivors classifies the
/// outcome. Matched candidates keep their stored casing.
pub fn resolve(query: &str, candidates: &Vec<String>) -> (r: MatchDisposition)
    ensures
        r@ == resolve_spec(query@, candidates.deep_view()),
{
    let ghost cv = candidates.deep_view();
    let query_lower = lowercase(query);
    let mut i: usize = 0;
    while i < candidates.len()
        invariant
            i <= candidates@.len(),
            cv == candidates.deep_view(),
            cv.len() == candidates@.len(),
            query_lower@ == lower_of(query@),
            forall|k: int| 0 <= k < i ==> lower_of(#[trigger] cv[k]) != lower_of(query@),
        decreases candidates@.len() - i,
    {
        let cand_lower = lowercase(candidates[i].as_str());
        if cand_lower == query_lower {
            proof {
                assert(cv[i as int] == candidates@[i as int]@);
                assert(has_exact(query@, cv));
                lemma_first_exact_at(query@, cv, i as int);
            }
            return MatchDisposition::Exact(candidates[i].clone());
        }
        i += 1;
    }
    proof {
        assert(!has_exact(query@, cv));
    }
    let matches = get_close_matches(query_lower.as_str(), candidates, CUTOFF_BITS);
    proof {
        assert(matches.deep_view() == select_spec(lower_of(query@), cv, CUTOFF_BITS));
        assert(matches@.len() == matches.deep_view().len());
    }
    if matches.len() == 0 {
        MatchDisposition::NoMatch
    } else if matches.len() == 1 {
        let m = matches[0].clone();
        proof {
            assert(m@ == matches.deep_view()[0]);
        }
        MatchDisposition::UniqueFuzzy(m)
    } else {
        MatchDisposition::Ambiguous(matches)
    }
}

/// The user-facing report lines for one resolution, over the case-folded
/// query: an exact hit reports nothing here (the follow-up action speaks
/// for it), a unique fuzzy hit names the match, an ambiguous outcome asks
/// the user to disambiguate and lists the survivors in ranked order, and no
/// match says so.
pub open spec fn report_lines_spec(q: Seq<char>, kind: Seq<char>, d: SpecDisposition) -> Seq<
    Seq<char>,
> {
    match d {
        SpecDisposition::Exact(_) => Seq::empty(),
        SpecDisposition::UniqueFuzzy(m) => seq!["Match found for "@ + q + ": "@ + m],
        SpecDisposition::Ambiguous(ms) => seq![
            "No exact match found for "@ + q + ". Did you mean one of the following?"@,
        ] + ms,
        SpecDisposition::NoMatch => seq!["No "@ + kind + " matches found for "@ + q],
    }
}

/// Render the report for resolving `query` (folded to lower case, as the
/// resolver folds it) to the disposition `d`, one line per entry.
pub fn report_lines(query: &str, kind: &str, d: &MatchDisposition) -> (r: Vec<String>)
    ensures
        r.deep_view() == report_lines_spec(lower_of(query@), kind@, d@),
{
    let query_lower = lowercase(query);
    let mut r: Vec<String> = Vec::new();
    match d {
        MatchDisposition::Exact(_) => {
            proof {
                assert(r.deep_view() =~= Seq::<Seq<char>>::empty());
            }
        },
        MatchDisposition::UniqueFuzzy(m) => {
            let mut line = "Match found for ".to_owned();
            line.append(query_lower.as_str());
            line.append(": ");
            line.append(m.as_str());
            r.push(line);
            proof {
                assert(r.deep_view() =~= report_lines_spec(lower_of(query@), kind@, d@));
            }
        },
        MatchDisposition::Ambiguous(ms) => {
            let ghost mv = ms.deep_view();
            let mut line = "No exact match found for ".to_owned();
            line.append(query_lower.as_str());
            line.append(". Did you mean one of the following?");
            let ghost header = line@;
            r.push(line);
            let mut i: usize = 0;
            while i < ms.len()
                invariant
                    i <= ms@.len(),
                    mv == ms.deep_view(),
                    mv.len() == ms@.len(),
                    r@.len() == i + 1,
                    r@[0]@ == header,
                    forall|k: int| 1 <= k < i + 1 ==> #[trigger] r@[k]@ == mv[k - 1],
                decreases ms@.len() - i,
            {
                r.push(ms[i].clone());
                i += 1;
            }
            proof {
                assert(r.deep_view() =~= seq![header] + mv);
            }
        },
        MatchDisposition::NoMatch => {
            let mut line = "No ".to_owned();
            line.append(kind);
            line.append(" matches found for ");
            line.append(query_lower.as_str());
            r.push(line);
            proof {
                assert(r.deep_view() =~= report_lines_spec(lower_of(query@), kind@, d@));
            }
        },
    }
    r
}

/// A case-insensitive exact hit always resolves to `Exact` with the first
/// matching candidate in its original casing, whatever the other candidates
/// would score.
pub proof fn lemma_exact_short_circuit(q: Seq<char>, cands: Seq<Seq<char>>)
    requires
        has_exact(q, cands),
    ensures
        ({
            let i = first_exact(q, cands);
            &&& 0 <= i < cands.len()
            &&& lower_of(cands[i]) == lower_of(q)
            &&& forall|k: int| 0 <= k < i ==> lower_of(#[trigger] cands[k]) != lower_of(q)
            &&& resolve_spec(q, cands) == SpecDisposition::Exact(cands[i])
        }),
{
    lemma_first_exact_props(q, cands);
}

/// Resolution is deterministic: the disposition is a function of the query
/// and the candidate list alone, so resolving the same inputs twice yields
/// the same disposition, orderings included.
pub proof fn lemma_resolve_idempotent(
    q: Seq<char>,
    cands: Seq<Seq<char>>,
    d1: SpecDisposition,
    d2: SpecDisposition,
)
    requires
        d1 == resolve_spec(q, cands),
        d2 == resolve_spec(q, cands),
    ensures
        d1 == d2,
{
}

/// The filter of a sequence whose predicate holds at exactly one position is
/// the singleton of that element.
proof fn lemma_filter_single(s: Seq<(u64, usize)>, pred: spec_fn((u64, usize)) -> bool, w: int)
    requires
        0 <= w < s.len(),
        pred(s[w]),
        forall|i: int| 0 <= i < s.len() && i != w ==> !pred(#[trigger] s[i]),
    ensures
        s.filter(pred) == seq![s[w]],
    decreases s.len(),
{
    let rest = s.drop_last();
    if s.len() == w + 1 {
        assert(rest.all(|x: (u64, usize)| !pred(x))) by {
            assert forall|i: int| 0 <= i < rest.len() implies !pred(#[trigger] rest[i]) by {
                assert(rest[i] == s[i]);
            }
        }
        rest.lemma_all_neg_filter_empty(pred);
        assert(rest.filter(pred) =~= Seq::<(u64, usize)>::empty());
        rest.lemma_filter_push(s[w], pred);
        assert(s =~= rest.push(s[w]));
        assert(s.filter(pred) =~= seq![s[w]]);
    } else {
        assert forall|i: int| 0 <= i < rest.len() && i != w implies !pred(#[trigger] rest[i]) by {
            assert(rest[i] == s[i]);
        }
        assert(rest[w] == s[w]);
        lemma_filter_single(rest, pred, w);
        rest.lemma_filter_push(s.last(), pred);
        assert(!pred(s.last()));
        assert(s =~= rest.push(s.last()));
        assert(s.filter(pred) =~= seq![s[w]]);
    }
}

/// With no exact hit and exactly one candidate whose score reaches the
/// cutoff, resolution yields `UniqueFuzzy` with that candidate.
pub proof fn lemma_unique_fuzzy(q: Seq<char>, cands: Seq<Seq<char>>, w: int)
    requires
        cands.len() <= usize::MAX,
        !has_exact(q, cands),
        0 <= w < cands.len(),
        jw_bits(lower_of(q), lower_of(cands[w])) >= CUTOFF_BITS,
        forall|i: int|
            0 <= i < cands.len() && i != w ==> jw_bits(lower_of(q), lower_of(#[trigger] cands[i]))
                < CUTOFF_BITS,
    ensures
        resolve_spec(q, cands) == SpecDisposition::UniqueFuzzy(cands[w]),
{
    broadcast use vstd::seq_lib::group_to_multiset_ensures;

    let ql = lower_of(q);
    let base = prefix_pairs(ql, cands, cands.len() as int);
    let pred = cutoff_pred(CUTOFF_BITS);
    assert forall|i: int| 0 <= i < base.len() && i != w implies !pred(#[trigger] base[i]) by {
        assert(base[i] == (jw_bits(ql, lower_of(cands[i])), i as usize));
    }
    assert(base[w] == (jw_bits(ql, lower_of(cands[w])), w as usize));
    assert(pred(base[w]));
    lemma_filter_single(base, pred, w);
    let sp = scored_pairs(ql, cands, CUTOFF_BITS);
    assert(sp == seq![base[w]]);
    sp.lemma_sort_by_ensures(rank_leq_fn());
    let rp = ranked_pairs(ql, cands, CUTOFF_BITS);
    assert(sp.to_multiset().len() == sp.len());
    assert(rp.to_multiset().len() == rp.len());
    assert(rp.len() == 1);
    assert(rp.contains(rp[0]));
    assert(rp.to_multiset().contains(rp[0]));
    assert(sp.to_multiset().contains(rp[0]));
    assert(sp.contains(rp[0]));
    assert(rp[0] == base[w]);
    assert(select_spec(ql, cands, CUTOFF_BITS) == rp.map_values(
        |p: (u64, usize)| cands[p.1 as int],
    ));
    assert(select_spec(ql, cands, CUTOFF_BITS)[0] == cands[w]);
}

/// With no exact hit and no candidate whose score reaches the cutoff,
/// resolution yields `NoMatch`.
pub proof fn lemma_no_match(q: Seq<char>, cands: Seq<Seq<char>>)
    requires
        cands.len() <= usize::MAX,
        !has_exact(q, cands),
        forall|i: int|
            0 <= i < cands.len() ==> jw_bits(lower_of(q), lower_of(#[trigger] cands[i])) < CUTOFF_BITS,
    ensures
        resolve_spec(q, cands) == SpecDisposition::NoMatch,
{
    broadcast use vstd::seq_lib::group_to_multiset_ensures;

    let ql = lower_of(q);
    let base = prefix_pairs(ql, cands, cands.len() as int);
    let pred = cutoff_pred(CUTOFF_BITS);
    assert(base.all(|x: (u64, usize)| !pred(x))) by {
        assert forall|i: int| 0 <= i < base.len() implies !pred(#[trigger] base[i]) by {
            assert(base[i] == (jw_bits(ql, lower_of(cands[i])), i as usize));
        }
    }
    base.lemma_all_neg_filter_empty(pred);
    let sp = scored_pairs(ql, cands, CUTOFF_BITS);
    assert(sp.len() == 0);
    sp.lemma_sort_by_ensures(rank_leq_fn());
    let rp = ranked_pairs(ql, cands, CUTOFF_BITS);
    assert(sp.to_multiset().len() == sp.len());
    assert(rp.to_multiset().len() == rp.len());
    assert(rp.len() == 0);
}

/// With no exact hit and at least two candidates whose scores reach the
/// cutoff, resolution yields `Ambiguous`, listing exactly the candidates
/// that reach the cutoff.
pub proof fn lemma_ambiguous(q: Seq<char>, cands: Seq<Seq<char>>, w1: int, w2: int)
    requires
        cands.len() <= usize::MAX,
        !has_exact(q, cands),
        0 <= w1 < w2 < cands.len(),
        jw_bits(lower_of(q), lower_of(cands[w1])) >= CUTOFF_BITS,
        jw_bits(lower_of(q), lower_of(cands[w2])) >= CUTOFF_BITS,
    ensures
        ({
            let sel = select_spec(lower_of(q), cands, CUTOFF_BITS);
            &&& resolve_spec(q, cands) == SpecDisposition::Ambiguous(sel)
            &&& sel.len() >= 2
            &&& forall|i: int|
                0 <= i < cands.len() && jw_bits(lower_of(q), lower_of(#[trigger] cands[i])) >= CUTOFF_BITS
                    ==> sel.contains(cands[i])
            &&& forall|k: int|
                0 <= k < sel.len() ==> exists|i: int|
                    0 <= i < cands.len() && #[trigger] sel[k] == cands[i] && jw_bits(
                        lower_of(q),
                        lower_of(cands[i]),
                    ) >= CUTOFF_BITS
        }),
{
    broadcast use vstd::seq_lib::group_to_multiset_ensures;

    let ql = lower_of(q);
    let base = prefix_pairs(ql, cands, cands.len() as int);
    let pred = cutoff_pred(CUTOFF_BITS);
    let sp = scored_pairs(ql, cands, CUTOFF_BITS);
    let rp = ranked_pairs(ql, cands, CUTOFF_BITS);
    let sel = select_spec(ql, cands, CUTOFF_BITS);
    sp.lemma_sort_by_ensures(rank_leq_fn());
    lemma_ranked_pairs_wf(ql, cands, CUTOFF_BITS);
    assert(sp.to_multiset().len() == sp.len());
    assert(rp.to_multiset().len() == rp.len());
    // Each qualifying candidate's pair survives the filter and so appears in
    // the ranking.
    assert forall|i: int|
        0 <= i < cands.len() && jw_bits(ql, lower_of(#[trigger] cands[i])) >= CUTOFF_BITS implies sel.contains(
        cands[i],
    ) by {
        assert(base[i] == (jw_bits(ql, lower_of(cands[i])), i as usize));
        base.lemma_filter_contains(pred, i);
        assert(sp.contains(base[i]));
        assert(sp.to_multiset().contains(base[i]));
        assert(rp.to_multiset().contains(base[i]));
        assert(rp.contains(base[i]));
        let k = choose|k: int| 0 <= k < rp.len() && rp[k] == base[i];
        assert(sel[k] == cands[i]);
        assert(sel.contains(cands[i]));
    }
    // At least the two named candidates survive, at distinct positions.
    let p1 = base[w1];
    let p2 = base[w2];
    assert(p1 == (jw_bits(ql, lower_of(cands[w1])), w1 as usize));
    assert(p2 == (jw_bits(ql, lower_of(cands[w2])), w2 as usize));
    assert(p1.1 != p2.1);
    base.lemma_filter_contains(pred, w1);
    base.lemma_filter_contains(pred, w2);
    let k1 = choose|k: int| 0 <= k < sp.len() && sp[k] == p1;
    let k2 = choose|k: int| 0 <= k < sp.len() && sp[k] == p2;
    assert(k1 != k2);
    assert(sp.len() >= 2);
    assert(sel.len() >= 2);
    // Conversely, every listed candidate is a qualifying one.
    assert forall|k: int| 0 <= k < sel.len() implies exists|i: int|
        0 <= i < cands.len() && #[trigger] sel[k] == cands[i] && jw_bits(ql, lower_of(cands[i]))
            >= CUTOFF_BITS by {
        let i = rp[k].1 as int;
        assert(sel[k] == cands[i] && 0 <= i < cands.len() && jw_bits(ql, lower_of(cands[i])) >= CUTOFF_BITS);
    }
}

} // verus!
