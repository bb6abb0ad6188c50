//! Candidate rewrites of a JSONPath query.
//!
//! A query is a sequence of segments; the rewrites here only look at
//! whether a segment is a child or a descendant segment, and carry its
//! selectors through unchanged.

use vstd::prelude::*;

verus! {

#[verifier::external_type_specification]
#[verifier::external_body]
pub struct ExSelectors(rsonpath_syntax::Selectors);

/// `Selectors` dereferences to a slice of `Selector`, so that type is declared too.
#[verifier::external_type_specification]
#[verifier::external_body]
pub struct ExSelector(rsonpath_syntax::Selector);

/// A segment of a JSONPath query: its selectors, applied to children or,
/// for a descendant segment, to all descendants.
pub struct QuerySegment {
    pub descendant: bool,
    pub selectors: rsonpath_syntax::Selectors,
}

/// A copy of the selectors: `Clone` of `rsonpath_syntax::Selectors`, which
/// is derived and gives an equal value.
#[verifier::external_body]
fn clone_selectors(s: &rsonpath_syntax::Selectors) -> (r: rsonpath_syntax::Selectors)
    ensures
        r == *s,
{
    s.clone()
}

/// A copy of a segment.
fn copy_segment(s: &QuerySegment) -> (r: QuerySegment)
    ensures
        r == *s,
{
    QuerySegment { descendant: s.descendant, selectors: clone_selectors(&s.selectors) }
}

/// The rewrite that drops the first `prefix_len` segments and makes the
/// first remaining one a descendant segment.
pub open spec fn descendant_suffix(segments: Seq<QuerySegment>, prefix_len: int) -> Seq<QuerySegment> {
    seq![QuerySegment { descendant: true, selectors: segments[prefix_len].selectors }] + segments.skip(prefix_len + 1)
}

/// Removes longer and longer prefixes of a query and replaces the first
/// remaining segment with a descendant segment: `$.a.b.c` yields `$..b.c`
/// and `$..c`.
#[derive(Debug, Default, Clone, Copy)]
pub struct PrefixToDescendantGenerator;

impl PrefixToDescendantGenerator {
    /// The rewrites of the query with these segments, for each prefix length
    /// from 1 to one less than the number of segments, in that order.
    pub fn generate_segments(&self, segments: &[QuerySegment]) -> (r: Vec<Vec<QuerySegment>>)
        ensures
            r@.len() == if segments@.len() == 0 { 0 } else { segments@.len() - 1 },
            forall|i: int| 0 <= i < r@.len() ==> (#[trigger] r@[i])@ == descendant_suffix(segments@, i + 1),
    {
        let mut result: Vec<Vec<QuerySegment>> = Vec::new();
        let mut prefix_len: usize = 1;
        while prefix_len < segments.len()
            invariant
                1 <= prefix_len,
                prefix_len <= segments@.len() || (segments@.len() == 0 && prefix_len == 1),
                result@.len() == prefix_len - 1,
                forall|i: int| 0 <= i < result@.len() ==> (#[trigger] result@[i])@ == descendant_suffix(segments@, i + 1),
            decreases segments@.len() - prefix_len,
        {
            let mut rewritten: Vec<QuerySegment> = Vec::new();
            rewritten.push(QuerySegment { descendant: true, selectors: clone_selectors(&segments[prefix_len].selectors) });
            let mut k: usize = prefix_len + 1;
            while k < segments.len()
                invariant
                    prefix_len < segments@.len(),
                    prefix_len + 1 <= k <= segments@.len(),
                    rewritten@ == seq![QuerySegment { descendant: true, selectors: segments@[prefix_len as int].selectors }]
                        + segments@.subrange(prefix_len + 1, k as int),
                decreases segments@.len() - k,
            {
                rewritten.push(copy_segment(&segments[k]));
                proof {
                    assert(segments@.subrange(prefix_len + 1, k + 1) =~= segments@.subrange(prefix_len + 1, k as int).push(segments@[k as int]));
                }
                k += 1;
            }
            proof {
                assert(segments@.subrange(prefix_len + 1, segments@.len() as int) =~= segments@.skip(prefix_len + 1));
            }
            result.push(rewritten);
            prefix_len += 1;
        }
        proof {
            if segments@.len() > 0 {
                assert(prefix_len == segments@.len());
            } else {
                assert(prefix_len == 1);
            }
        }
        result
    }
}

} // verus!
