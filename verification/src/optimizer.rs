//! The decision at the heart of the rewrite pipeline: of the candidate
//! rewrites of a query, keep those that select the same nodes as the query
//! on every document that the document automaton allows.
//!
//! Each candidate comes with the automaton it compiles to, or none when it
//! could not be compiled; such candidates are skipped. A candidate equal, as
//! a parsed query, to an earlier one is skipped too. What remains is
//! returned sorted by text, candidates with the same text in their order.

use vstd::prelude::*;
use crate::automaton::{Automaton, Symbol};
use crate::order::{chars_less, lemma_chars_less_total, lemma_chars_less_transitive, str_less};
use crate::product::{has_nonempty_intersection_of_symmetric_difference, scan_fits_along_paths};
use rsonpath_syntax::JsonPathQuery;

verus! {

#[verifier::external_type_specification]
#[verifier::external_body]
pub struct ExJsonPathQuery(rsonpath_syntax::JsonPathQuery);

/// Whether two parsed queries compare equal under
/// `rsonpath_syntax::JsonPathQuery`'s `==`.
pub uninterp spec fn query_eq(a: JsonPathQuery, b: JsonPathQuery) -> bool;

/// `==` on `rsonpath_syntax::JsonPathQuery` (derived: segment by segment,
/// names compared unquoted, numbers by value). Claimed: the result is
/// [`query_eq`] of the two queries, and a query equals itself (its floats
/// are never NaN).
#[verifier::external_body]
pub(crate) fn same_query(a: &JsonPathQuery, b: &JsonPathQuery) -> (r: bool)
    ensures
        r == query_eq(*a, *b),
        *a == *b ==> r,
{
    a == b
}

/// For each query, whether an earlier query of `queries` is equal to it:
/// exactly those flagged, so the first query never is, and a query that
/// occurs earlier always is.
pub fn repeated_queries(queries: &[JsonPathQuery]) -> (r: Vec<bool>)
    ensures
        r@.len() == queries@.len(),
        forall|i: int| 0 <= i < queries@.len() ==> (#[trigger] r@[i] <==> exists|j: int|
            0 <= j < i && query_eq(queries@[j], queries@[i])),
        queries@.len() > 0 ==> !r@[0],
        forall|i: int, j: int| 0 <= j < i < queries@.len() && #[trigger] queries@[j] == #[trigger] queries@[i] ==> r@[i],
{
    let mut r: Vec<bool> = Vec::new();
    let mut i: usize = 0;
    while i < queries.len()
        invariant
            i <= queries@.len(),
            r@.len() == i,
            i > 0 ==> !r@[0],
            forall|m: int| 0 <= m < i ==> (#[trigger] r@[m] <==> exists|j: int| 0 <= j < m && query_eq(queries@[j], queries@[m])),
            forall|m: int, j: int| 0 <= j < m < i && #[trigger] queries@[j] == #[trigger] queries@[m] ==> r@[m],
        decreases queries@.len() - i,
    {
        let mut seen = false;
        let mut j: usize = 0;
        while j < i
            invariant
                j <= i,
                i < queries@.len(),
                i == 0 ==> !seen,
                forall|m: int| 0 <= m < j && #[trigger] queries@[m] == queries@[i as int] ==> seen,
                seen <==> exists|m: int| 0 <= m < j && query_eq(queries@[m], queries@[i as int]),
            decreases i - j,
        {
            if same_query(&queries[j], &queries[i]) {
                seen = true;
            }
            j += 1;
        }
        r.push(seen);
        i += 1;
    }
    r
}

/// A candidate rewrite: its text, the automaton it compiles to, if any, and
/// whether an earlier candidate is the same query.
pub struct CompiledCandidate {
    pub query: String,
    pub automaton: Option<Automaton>,
    pub repeats: bool,
}

/// `q1` and `q2` accept the same paths among those that `d` accepts.
pub open spec fn equivalent_under(q1: &Automaton, q2: &Automaton, d: &Automaton) -> bool {
    forall|w: Seq<Symbol>| #[trigger] d.accepts(w) ==> q1.accepts(w) == q2.accepts(w)
}

/// Candidate `i` is kept: it is not the same query as an earlier one, it
/// compiled, and it is equivalent to the query under `d`.
pub open spec fn kept(query_automaton: &Automaton, d: &Automaton, cs: Seq<CompiledCandidate>, i: int) -> bool {
    &&& 0 <= i < cs.len()
    &&& !cs[i].repeats
    &&& match cs[i].automaton {
        Some(a) => equivalent_under(query_automaton, &a, d),
        None => false,
    }
}

/// Every compiled candidate is a well-formed automaton whose product with
/// the query and the document stays within the indices a JSON array has.
pub open spec fn candidates_ok(query_automaton: &Automaton, d: &Automaton, cs: Seq<CompiledCandidate>) -> bool {
    forall|i: int|
        0 <= i < cs.len() ==> match (#[trigger] cs[i]).automaton {
            Some(a) => a.wf() && scan_fits_along_paths(query_automaton, &a, d),
            None => true,
        }
}

/// Candidate `i` comes before candidate `j`: by text, then by position.
pub open spec fn text_before(cs: Seq<CompiledCandidate>, i: int, j: int) -> bool {
    chars_less(cs[i].query@, cs[j].query@) || (cs[i].query@ == cs[j].query@ && i < j)
}

/// The candidates `r` are listed by text, then by position, each once.
pub open spec fn in_text_order(cs: Seq<CompiledCandidate>, r: Seq<usize>) -> bool {
    forall|k1: int, k2: int| 0 <= k1 < k2 < r.len() ==> text_before(cs, (#[trigger] r[k1]) as int, (#[trigger] r[k2]) as int)
}

/// `r` lists, in text order, exactly the kept candidates among the first `n`.
spec fn accounts_for(query_automaton: &Automaton, d: &Automaton, cs: Seq<CompiledCandidate>, r: Seq<usize>, n: int) -> bool {
    &&& in_text_order(cs, r)
    &&& forall|k: int| 0 <= k < r.len() ==> (#[trigger] r[k]) < n && kept(query_automaton, d, cs, r[k] as int)
    &&& forall|i: int| 0 <= i < n && #[trigger] kept(query_automaton, d, cs, i) ==> exists|k: int| 0 <= k < r.len() && r[k] == i
}

/// Inserts candidate `i`, later than every candidate of `r`, where it keeps
/// the text order.
fn insert_in_text_order(cs: &[CompiledCandidate], r: &mut Vec<usize>, i: usize)
    requires
        i < cs@.len(),
        in_text_order(cs@, old(r)@),
        forall|k: int| 0 <= k < old(r)@.len() ==> (#[trigger] old(r)@[k]) < i,
    ensures
        in_text_order(cs@, final(r)@),
        exists|p: int| 0 <= p <= old(r)@.len() && final(r)@ == old(r)@.insert(p, i),
{
    let mut p: usize = 0;
    while p < r.len() && !str_less(cs[i].query.as_str(), cs[r[p]].query.as_str())
        invariant
            p <= r@.len(),
            r@ == old(r)@,
            i < cs@.len(),
            forall|k: int| 0 <= k < r@.len() ==> (#[trigger] r@[k]) < i,
            forall|k: int| 0 <= k < p ==> !chars_less(cs@[i as int].query@, cs@[(#[trigger] r@[k]) as int].query@),
        decreases r@.len() - p,
    {
        p += 1;
    }
    let ghost before = r@;
    proof {
        let ti = cs@[i as int].query@;
        assert forall|k: int| 0 <= k < p implies text_before(cs@, (#[trigger] before[k]) as int, i as int) by {
            lemma_chars_less_total(ti, cs@[before[k] as int].query@);
        }
        assert forall|k: int| p <= k < before.len() implies text_before(cs@, i as int, (#[trigger] before[k]) as int) by {
            let tp = cs@[before[p as int] as int].query@;
            let tk = cs@[before[k] as int].query@;
            if k > p {
                assert(text_before(cs@, before[p as int] as int, before[k] as int));
                if chars_less(tp, tk) {
                    lemma_chars_less_transitive(ti, tp, tk);
                }
            }
        }
    }
    r.insert(p, i);
    proof {
        let after = r@;
        before.insert_ensures(p as int, i);
        assert forall|k1: int, k2: int| 0 <= k1 < k2 < after.len() implies text_before(
            cs@,
            (#[trigger] after[k1]) as int,
            (#[trigger] after[k2]) as int,
        ) by {
            if k2 < p {
                assert(after[k1] == before[k1] && after[k2] == before[k2]);
            } else if k2 == p {
                assert(after[k1] == before[k1]);
            } else if k1 < p {
                assert(after[k1] == before[k1]);
                assert(after[k2] == before[k2 - 1]);
            } else if k1 == p {
                assert(after[k2] == before[k2 - 1]);
            } else {
                assert(after[k1] == before[k1 - 1]);
                assert(after[k2] == before[k2 - 1]);
            }
        }
    }
}

/// The positions of the candidates that are equivalent to the query (whose
/// automaton is `query_automaton`) on every path that the document automaton
/// `d` accepts, ordered by text, candidates with the same text in their
/// order.
///
/// A candidate is skipped when it is the same query as an earlier one or
/// when it did not compile. When the first candidate is the query itself
/// with its own automaton, it is in the result.
pub fn select_equivalent_candidates(
    query_automaton: &Automaton,
    d: &Automaton,
    candidates: &[CompiledCandidate],
) -> (r: Vec<usize>)
    requires
        query_automaton.wf(),
        d.wf(),
        candidates_ok(query_automaton, d, candidates@),
    ensures
        in_text_order(candidates@, r@),
        forall|k: int| 0 <= k < r@.len() ==> #[trigger] kept(query_automaton, d, candidates@, r@[k] as int),
        forall|i: int| #[trigger] kept(query_automaton, d, candidates@, i) ==> exists|k: int| 0 <= k < r@.len() && r@[k] == i,
        candidates@.len() > 0 && !candidates@[0].repeats && candidates@[0].automaton == Some(*query_automaton)
            ==> exists|k: int| 0 <= k < r@.len() && r@[k] == 0,
{
    let mut result: Vec<usize> = Vec::new();
    let mut i: usize = 0;
    while i < candidates.len()
        invariant
            query_automaton.wf(),
            d.wf(),
            candidates_ok(query_automaton, d, candidates@),
            i <= candidates@.len(),
            accounts_for(query_automaton, d, candidates@, result@, i as int),
        decreases candidates@.len() - i,
    {
        let ghost prev = result@;
        let mut kept_here = false;
        if !candidates[i].repeats {
            if let Some(a) = &candidates[i].automaton {
                proof {
                    assert(candidates@[i as int].automaton == Some(*a));
                }
                if !has_nonempty_intersection_of_symmetric_difference(query_automaton, a, d) {
                    proof {
                        assert(equivalent_under(query_automaton, a, d));
                        assert(kept(query_automaton, d, candidates@, i as int));
                    }
                    insert_in_text_order(candidates, &mut result, i);
                    kept_here = true;
                    proof {
                        let p = choose|p: int| 0 <= p <= prev.len() && result@ == prev.insert(p, i);
                        prev.insert_ensures(p, i);
                        assert forall|k: int| 0 <= k < result@.len() implies (#[trigger] result@[k]) < i + 1
                            && kept(query_automaton, d, candidates@, result@[k] as int) by {
                            if k < p {
                                assert(result@[k] == prev[k]);
                            } else if k > p {
                                assert(result@[k] == prev[k - 1]);
                            }
                        }
                        assert forall|m: int| 0 <= m < i + 1 && #[trigger] kept(query_automaton, d, candidates@, m)
                            implies exists|k: int| 0 <= k < result@.len() && result@[k] == m by {
                            if m < i {
                                let k0 = choose|k: int| 0 <= k < prev.len() && prev[k] == m;
                                if k0 < p {
                                    assert(result@[k0] == prev[k0]);
                                } else {
                                    assert(result@[k0 + 1] == prev[k0]);
                                }
                            } else {
                                assert(result@[p] == i);
                            }
                        }
                    }
                }
            }
        }
        proof {
            if !kept_here {
                assert(!kept(query_automaton, d, candidates@, i as int));
                assert forall|m: int| 0 <= m < i + 1 && #[trigger] kept(query_automaton, d, candidates@, m)
                    implies exists|k: int| 0 <= k < result@.len() && result@[k] == m by {}
            }
        }
        i += 1;
    }
    proof {
        if candidates@.len() > 0 && !candidates@[0].repeats && candidates@[0].automaton == Some(*query_automaton) {
            assert(kept(query_automaton, d, candidates@, 0));
        }
    }
    result
}

} // verus!
