//! JSON document → nondeterministic document automaton.
//!
//! Every node of the document becomes a state, an edge to each child: its
//! member name, or the empty label for an array element. With hash-consing,
//! equal subtrees share one state: a state is kept once per distinct sorted
//! list of edges, which is what its subtree is up to equality.

use vstd::prelude::*;

use crate::automaton::{
    new_array_transition, new_dumpster_state, new_member_transition, ArrayTransition, Automaton, MemberTransition, StateTable,
    Symbol,
};
use crate::json::{
    edge_sym, has_path, items_node_count, lemma_items_node_count_prefix, lemma_members_node_count_prefix, members_node_count,
    node_count, parse_json, parsed_json, JsonValue,
};
use crate::nfa_minimizer::{
    doc_word, is_dumpster, lemma_subset_run_from_initial, lemma_subset_run_reaches, nfa_accepts, nfa_reaches, nfa_successors,
    subset_run, DocSym,
};
use crate::shape::{
    child_count, child_index, child_label, child_sym, child_value, is_subtree, lemma_child_smaller, lemma_one_shape_one_state,
    lemma_one_state_one_shape, lemma_reached_state_of, lemma_subtree_has_state, same_shape, state_of, state_of_some_value, unshared_state_of,
};
use crate::order::{chars_less, lemma_chars_less_irreflexive, lemma_chars_less_total, lemma_chars_less_transitive, str_less};

verus! {

/// An edge of a tree state as values: its label and the key of its target.
pub open spec fn edge_view(e: (String, usize)) -> (Seq<char>, usize) {
    (e.0@, e.1)
}

/// The edges of a tree state as values.
pub open spec fn edges_view(es: Seq<(String, usize)>) -> Seq<(Seq<char>, usize)> {
    es.map_values(|e: (String, usize)| edge_view(e))
}

/// The order of edges: by label, then by target key.
pub open spec fn edge_less(a: (Seq<char>, usize), b: (Seq<char>, usize)) -> bool {
    chars_less(a.0, b.0) || (a.0 == b.0 && a.1 < b.1)
}

/// Every edge comes strictly before every later one.
pub open spec fn strictly_sorted_edges(es: Seq<(Seq<char>, usize)>) -> bool {
    forall|i: int, j: int| 0 <= i < j < es.len() ==> edge_less(#[trigger] es[i], #[trigger] es[j])
}

/// `es` holds an edge labelled `l` to `k`.
pub open spec fn has_edge(es: Seq<(Seq<char>, usize)>, l: Seq<char>, k: usize) -> bool {
    exists|i: int| 0 <= i < es.len() && #[trigger] es[i] == (l, k)
}

proof fn lemma_edge_less_total(a: (Seq<char>, usize), b: (Seq<char>, usize))
    ensures
        a != b ==> (edge_less(a, b) || edge_less(b, a)),
        !(edge_less(a, b) && edge_less(b, a)),
{
    lemma_chars_less_total(a.0, b.0);
    lemma_chars_less_irreflexive(a.0);
}

proof fn lemma_edge_less_transitive(a: (Seq<char>, usize), b: (Seq<char>, usize), c: (Seq<char>, usize))
    requires
        edge_less(a, b),
        edge_less(b, c),
    ensures
        edge_less(a, c),
{
    if chars_less(a.0, b.0) && chars_less(b.0, c.0) {
        lemma_chars_less_transitive(a.0, b.0, c.0);
    }
}

/// Whether edge `a` comes before edge `b`.
fn edge_before(a: &(String, usize), b: &(String, usize)) -> (r: bool)
    ensures
        r == edge_less(edge_view(*a), edge_view(*b)),
{
    if str_less(a.0.as_str(), b.0.as_str()) {
        true
    } else {
        a.0 == b.0 && a.1 < b.1
    }
}

/// Inserts `edge` into the strictly sorted `edges` unless it is there.
fn insert_edge_sorted(edges: &mut Vec<(String, usize)>, edge: (String, usize))
    requires
        strictly_sorted_edges(edges_view(old(edges)@)),
    ensures
        strictly_sorted_edges(edges_view(final(edges)@)),
        forall|l: Seq<char>, k: usize| has_edge(edges_view(final(edges)@), l, k) <==> (has_edge(edges_view(old(edges)@), l, k)
            || (l, k) == edge_view(edge)),
{
    let ghost e = edge_view(edge);
    let mut k: usize = 0;
    while k < edges.len() && edge_before(&edges[k], &edge)
        invariant
            k <= edges@.len(),
            edges@ == old(edges)@,
            e == edge_view(edge),
            forall|m: int| 0 <= m < k ==> edge_less(edge_view(#[trigger] edges@[m]), e),
        decreases edges@.len() - k,
    {
        k += 1;
    }
    if k < edges.len() && edges[k].0 == edge.0 && edges[k].1 == edge.1 {
        proof {
            assert(edges_view(edges@)[k as int] == e);
        }
        return;
    }
    let ghost before = edges_view(edges@);
    proof {
        if k < before.len() {
            assert(before[k as int] == edge_view(edges@[k as int]));
            lemma_edge_less_total(before[k as int], e);
        }
    }
    edges.insert(k, edge);
    proof {
        let after = edges_view(edges@);
        assert(after.len() == before.len() + 1);
        assert forall|i: int| 0 <= i < after.len() implies #[trigger] after[i] == (if i < k {
            before[i]
        } else if i == k {
            e
        } else {
            before[i - 1]
        }) by {}
        assert forall|i: int| 0 <= i < k implies edge_less(#[trigger] before[i], e) by {
            assert(before[i] == edge_view(edges@[i]));
        }
        assert forall|i: int, j: int| 0 <= i < j < after.len() implies edge_less(#[trigger] after[i], #[trigger] after[j]) by {
            if j < k {
            } else if j == k {
            } else if i < k {
                lemma_edge_less_transitive(before[i], e, before[k as int]);
                if j - 1 > k {
                    lemma_edge_less_transitive(before[i], before[k as int], before[j - 1]);
                }
            } else if i == k {
                if j - 1 > k {
                    lemma_edge_less_transitive(e, before[k as int], before[j - 1]);
                }
            } else {
            }
        }
        assert forall|l: Seq<char>, kk: usize| has_edge(after, l, kk) <==> (has_edge(before, l, kk) || (l, kk) == e) by {
            if has_edge(before, l, kk) {
                let m = choose|m: int| 0 <= m < before.len() && #[trigger] before[m] == (l, kk);
                if m < k {
                    assert(after[m] == before[m]);
                } else {
                    assert(after[m + 1] == before[m]);
                }
            }
            if (l, kk) == e {
                assert(after[k as int] == e);
            }
            if has_edge(after, l, kk) {
                let m = choose|m: int| 0 <= m < after.len() && #[trigger] after[m] == (l, kk);
                if m < k {
                    assert(after[m] == before[m]);
                } else if m > k {
                    assert(after[m] == before[m - 1]);
                }
            }
        }
    }
}

/// Whether two edge lists are equal as values.
fn same_edges(a: &Vec<(String, usize)>, b: &Vec<(String, usize)>) -> (r: bool)
    ensures
        r == (edges_view(a@) == edges_view(b@)),
{
    if a.len() != b.len() {
        proof {
            assert(edges_view(a@).len() != edges_view(b@).len());
        }
        return false;
    }
    let mut i: usize = 0;
    while i < a.len()
        invariant
            a@.len() == b@.len(),
            i <= a@.len(),
            forall|j: int| 0 <= j < i ==> edge_view(#[trigger] a@[j]) == edge_view(b@[j]),
        decreases a@.len() - i,
    {
        if !(a[i].0 == b[i].0 && a[i].1 == b[i].1) {
            proof {
                assert(edges_view(a@)[i as int] != edges_view(b@)[i as int]);
            }
            return false;
        }
        i += 1;
    }
    proof {
        assert(edges_view(a@) =~= edges_view(b@)) by {
            assert forall|j: int| 0 <= j < a@.len() implies edges_view(a@)[j] == edges_view(b@)[j] by {
                assert(edge_view(a@[j]) == edge_view(b@[j]));
            }
        }
    }
    true
}


/// Configuration of a [`JsonNfaBuilder`].
#[derive(Debug, Clone, Copy)]
pub struct JsonNfaBuilderConfig {
    /// Whether equal subtrees share one state.
    pub hash_cons: bool,
}

impl Default for JsonNfaBuilderConfig {
    fn default() -> (r: Self)
        ensures
            r.hash_cons,
    {
        Self { hash_cons: true }
    }
}

/// Counts collected while building a document automaton.
#[derive(Debug, Clone, Copy, PartialEq, Eq)]
pub struct JsonNfaBuildMetrics {
    /// Nodes of the document.
    pub json_node_count: usize,
    /// Tree states kept, not counting the dumpster state.
    pub nfa_state_count: usize,
}

/// The state of a document node: its edges, in the order they were added
/// (sorted and without repeats once organised).
struct TreeState {
    transitions: Vec<(String, usize)>,
}

impl TreeState {
    fn new() -> (r: Self)
        ensures
            r.transitions@.len() == 0,
    {
        Self { transitions: Vec::new() }
    }

    /// Sorts the edges and drops repeated ones.
    fn organize(&mut self)
        ensures
            strictly_sorted_edges(edges_view(final(self).transitions@)),
            forall|l: Seq<char>, k: usize| has_edge(edges_view(final(self).transitions@), l, k)
                <==> has_edge(edges_view(old(self).transitions@), l, k),
    {
        let mut sorted: Vec<(String, usize)> = Vec::new();
        let mut i: usize = 0;
        while i < self.transitions.len()
            invariant
                i <= self.transitions@.len(),
                strictly_sorted_edges(edges_view(sorted@)),
                forall|l: Seq<char>, k: usize| has_edge(edges_view(sorted@), l, k)
                    <==> has_edge(edges_view(self.transitions@.take(i as int)), l, k),
            decreases self.transitions@.len() - i,
        {
            let label = self.transitions[i].0.clone();
            let key = self.transitions[i].1;
            insert_edge_sorted(&mut sorted, (label, key));
            proof {
                let pre = edges_view(self.transitions@.take(i as int));
                let post = edges_view(self.transitions@.take(i + 1));
                assert(post =~= pre.push(edge_view(self.transitions@[i as int])));
                assert forall|l: Seq<char>, k: usize| has_edge(post, l, k) <==> (has_edge(pre, l, k)
                    || (l, k) == edge_view(self.transitions@[i as int])) by {
                    if has_edge(post, l, k) {
                        let m = choose|m: int| 0 <= m < post.len() && #[trigger] post[m] == (l, k);
                        if m < pre.len() {
                            assert(pre[m] == post[m]);
                        }
                    }
                    if has_edge(pre, l, k) {
                        let m = choose|m: int| 0 <= m < pre.len() && #[trigger] pre[m] == (l, k);
                        assert(post[m] == pre[m]);
                    }
                    if (l, k) == edge_view(self.transitions@[i as int]) {
                        assert(post[i as int] == (l, k));
                    }
                }
            }
            i += 1;
        }
        proof {
            assert(self.transitions@.take(self.transitions@.len() as int) =~= self.transitions@);
        }
        self.transitions = sorted;
    }

    fn add_transition(&mut self, label: String, target: usize)
        ensures
            final(self).transitions@ == old(self).transitions@.push((label, target)),
    {
        self.transitions.push((label, target));
    }
}

/// The edges of the state with key `k` (none if there is no such state).
spec fn entry_edges(t: Seq<Option<TreeState>>, k: int) -> Seq<(Seq<char>, usize)> {
    if 0 <= k < t.len() {
        match t[k] {
            Some(st) => edges_view(st.transitions@),
            None => Seq::empty(),
        }
    } else {
        Seq::empty()
    }
}

/// Whether the path `d` can be followed from the state with key `k`.
spec fn table_accepts(t: Seq<Option<TreeState>>, k: int, d: Seq<DocSym>) -> bool
    decreases d.len(),
{
    if d.len() == 0 {
        true
    } else {
        exists|i: int| 0 <= i < entry_edges(t, k).len() && edge_sym((#[trigger] entry_edges(t, k)[i]).0) == d[0]
            && table_accepts(t, entry_edges(t, k)[i].1 as int, d.drop_first())
    }
}

/// The table can go from key `k` to key `k2` along the path `d`.
spec fn table_path(t: Seq<Option<TreeState>>, k: int, d: Seq<DocSym>, k2: int) -> bool
    decreases d.len(),
{
    if d.len() == 0 {
        k == k2
    } else {
        exists|i: int| 0 <= i < entry_edges(t, k).len() && edge_sym((#[trigger] entry_edges(t, k)[i]).0) == d[0]
            && table_path(t, entry_edges(t, k)[i].1 as int, d.drop_first(), k2)
    }
}

/// Some path leads the table from key `k` to key `k2`.
spec fn table_reaches(t: Seq<Option<TreeState>>, k: int, k2: int) -> bool {
    exists|d: Seq<DocSym>| #[trigger] table_path(t, k, d, k2)
}

/// Some of the first `n` edges of `es` leads to a key from which `k` is reached.
spec fn reached_from_some(t: Seq<Option<TreeState>>, es: Seq<(Seq<char>, usize)>, n: int, k: int) -> bool {
    exists|j: int| 0 <= j < n && table_reaches(t, (#[trigger] es[j]).1 as int, k)
}

/// A path of the table from one of the edges' targets, with the edge in front.
proof fn lemma_table_path_edge(t: Seq<Option<TreeState>>, k: int, i: int, d: Seq<DocSym>, k2: int)
    requires
        0 <= i < entry_edges(t, k).len(),
        table_path(t, entry_edges(t, k)[i].1 as int, d, k2),
    ensures
        table_path(t, k, seq![edge_sym(entry_edges(t, k)[i].0)] + d, k2),
{
    let d2 = seq![edge_sym(entry_edges(t, k)[i].0)] + d;
    assert(d2.drop_first() =~= d);
    assert(d2[0] == edge_sym(entry_edges(t, k)[i].0));
}

/// Paths of the table stay when it grows.
proof fn lemma_table_path_grows(t1: Seq<Option<TreeState>>, t2: Seq<Option<TreeState>>, k: int, d: Seq<DocSym>, k2: int)
    requires
        table_closed(t1),
        table_grows(t1, t2),
        0 <= k < t1.len(),
        t1[k] is Some,
        table_path(t1, k, d, k2),
    ensures
        table_path(t2, k, d, k2),
    decreases d.len(),
{
    assert(entry_edges(t2, k) == entry_edges(t1, k));
    if d.len() > 0 {
        let es = entry_edges(t1, k);
        let i = choose|i: int| 0 <= i < entry_edges(t1, k).len() && edge_sym((#[trigger] entry_edges(t1, k)[i]).0) == d[0]
            && table_path(t1, entry_edges(t1, k)[i].1 as int, d.drop_first(), k2);
        lemma_table_path_grows(t1, t2, es[i].1 as int, d.drop_first(), k2);
        assert(entry_edges(t2, k)[i] == es[i]);
    }
}

/// Reachability in the table stays when it grows.
proof fn lemma_table_reaches_grows(t1: Seq<Option<TreeState>>, t2: Seq<Option<TreeState>>, k: int, k2: int)
    requires
        table_closed(t1),
        table_grows(t1, t2),
        0 <= k < t1.len(),
        t1[k] is Some,
        table_reaches(t1, k, k2),
    ensures
        table_reaches(t2, k, k2),
{
    let d = choose|d: Seq<DocSym>| #[trigger] table_path(t1, k, d, k2);
    lemma_table_path_grows(t1, t2, k, d, k2);
}

/// One more child built and its edge added: what the children reach, and
/// that the first child reaches key 0.
proof fn lemma_child_step(
    t0len: int,
    t1: Seq<Option<TreeState>>,
    t2: Seq<Option<TreeState>>,
    l1: Seq<(Seq<char>, usize)>,
    e: (Seq<char>, usize),
)
    requires
        table_closed(t1),
        table_grows(t1, t2),
        edges_to_states(t1, l1),
        (e.1 as int) < t2.len(),
        table_reaches(t2, e.1 as int, 0),
        forall|k: int| t1.len() <= k < t2.len() ==> #[trigger] table_reaches(t2, e.1 as int, k),
        forall|k: int| t0len <= k < t1.len() ==> #[trigger] reached_from_some(t1, l1, l1.len() as int, k),
        l1.len() > 0 ==> table_reaches(t1, l1[0].1 as int, 0),
    ensures
        forall|k: int| t0len <= k < t2.len() ==> #[trigger] reached_from_some(t2, l1.push(e), (l1.len() + 1) as int, k),
        table_reaches(t2, l1.push(e)[0].1 as int, 0),
{
    let l2 = l1.push(e);
    assert forall|k: int| t0len <= k < t2.len() implies #[trigger] reached_from_some(t2, l2, (l1.len() + 1) as int, k) by {
        if k < t1.len() {
            assert(reached_from_some(t1, l1, l1.len() as int, k));
            let j = choose|j: int| 0 <= j < l1.len() && table_reaches(t1, (#[trigger] l1[j]).1 as int, k);
            assert(l1[j].1 < t1.len() && t1[l1[j].1 as int] is Some);
            lemma_table_reaches_grows(t1, t2, l1[j].1 as int, k);
            assert(l2[j] == l1[j]);
        } else {
            assert(l2[l1.len() as int] == e);
        }
    }
    if l1.len() > 0 {
        assert(l1[0].1 < t1.len() && t1[l1[0].1 as int] is Some);
        lemma_table_reaches_grows(t1, t2, l1[0].1 as int, 0);
        assert(l2[0] == l1[0]);
    } else {
        assert(l2[0] == e);
    }
}

/// The key of a node reaches key 0 and every key that its children reach.
proof fn lemma_key_reaches(
    t1: Seq<Option<TreeState>>,
    t2: Seq<Option<TreeState>>,
    ls: Seq<(Seq<char>, usize)>,
    sorted: Seq<(Seq<char>, usize)>,
    key: usize,
    t0len: int,
)
    requires
        table_closed(t1),
        table_grows(t1, t2),
        edges_to_states(t1, ls),
        (key as int) < t2.len(),
        entry_edges(t2, key as int) == sorted,
        forall|l: Seq<char>, k: usize| has_edge(sorted, l, k) <==> has_edge(ls, l, k),
        forall|k: int| t0len <= k < t1.len() ==> #[trigger] reached_from_some(t1, ls, ls.len() as int, k),
        ls.len() > 0 ==> table_reaches(t1, ls[0].1 as int, 0),
        t2.len() <= t1.len() + 1,
        t2.len() == t1.len() + 1 ==> key == t1.len(),
        ls.len() == 0 ==> key == 0,
    ensures
        table_reaches(t2, key as int, 0),
        forall|k: int| t0len <= k < t2.len() ==> #[trigger] table_reaches(t2, key as int, k),
{
    assert forall|j: int, k: int| 0 <= j < ls.len() && table_reaches(t1, (#[trigger] ls[j]).1 as int, k)
        implies #[trigger] table_reaches(t2, key as int, k) by {
        assert(ls[j].1 < t1.len() && t1[ls[j].1 as int] is Some);
        lemma_table_reaches_grows(t1, t2, ls[j].1 as int, k);
        assert(has_edge(ls, ls[j].0, ls[j].1));
        let m = choose|m: int| 0 <= m < sorted.len() && #[trigger] sorted[m] == (ls[j].0, ls[j].1);
        let d = choose|d: Seq<DocSym>| #[trigger] table_path(t2, ls[j].1 as int, d, k);
        lemma_table_path_edge(t2, key as int, m, d, k);
    }
    assert forall|k: int| t0len <= k < t2.len() implies #[trigger] table_reaches(t2, key as int, k) by {
        if k < t1.len() {
            assert(reached_from_some(t1, ls, ls.len() as int, k));
            let j = choose|j: int| 0 <= j < ls.len() && table_reaches(t1, (#[trigger] ls[j]).1 as int, k);
        } else {
            assert(table_path(t2, key as int, Seq::<DocSym>::empty(), k));
        }
    }
    if ls.len() > 0 {
        assert(table_reaches(t1, ls[0].1 as int, 0));
    } else {
        assert(table_path(t2, key as int, Seq::<DocSym>::empty(), 0));
    }
}

/// Every edge of every state leads to a state.
spec fn table_closed(t: Seq<Option<TreeState>>) -> bool {
    forall|k: int, i: int| 0 <= k < t.len() && 0 <= i < entry_edges(t, k).len() ==>
        (#[trigger] entry_edges(t, k)[i]).1 < t.len() && t[entry_edges(t, k)[i].1 as int] is Some
}

/// `t2` keeps the states of `t1` and adds states only after them.
spec fn table_grows(t1: Seq<Option<TreeState>>, t2: Seq<Option<TreeState>>) -> bool {
    &&& t1.len() <= t2.len()
    &&& forall|k: int| 0 <= k < t1.len() ==> #[trigger] t2[k] == t1[k]
    &&& forall|k: int| t1.len() <= k < t2.len() ==> #[trigger] t2[k] is Some
}

/// The state with key `k` can follow exactly the paths of `v`.
spec fn represents(t: Seq<Option<TreeState>>, k: usize, v: JsonValue) -> bool {
    forall|d: Seq<DocSym>| #[trigger] table_accepts(t, k as int, d) == has_path(v, d)
}

/// Growing a closed table does not change what its states can follow.
proof fn lemma_table_accepts_grows(t1: Seq<Option<TreeState>>, t2: Seq<Option<TreeState>>, k: int, d: Seq<DocSym>)
    requires
        table_closed(t1),
        table_grows(t1, t2),
        0 <= k < t1.len(),
        t1[k] is Some,
    ensures
        table_accepts(t2, k, d) == table_accepts(t1, k, d),
    decreases d.len(),
{
    assert(entry_edges(t2, k) == entry_edges(t1, k));
    if d.len() > 0 {
        let es = entry_edges(t1, k);
        let rest = d.drop_first();
        if table_accepts(t2, k, d) {
            let i = choose|i: int| 0 <= i < entry_edges(t2, k).len() && edge_sym((#[trigger] entry_edges(t2, k)[i]).0) == d[0]
                && table_accepts(t2, entry_edges(t2, k)[i].1 as int, d.drop_first());
            assert(es[i] == entry_edges(t1, k)[i]);
            lemma_table_accepts_grows(t1, t2, es[i].1 as int, rest);
            assert(table_accepts(t1, es[i].1 as int, rest));
        }
        if table_accepts(t1, k, d) {
            let i = choose|i: int| 0 <= i < entry_edges(t1, k).len() && edge_sym((#[trigger] entry_edges(t1, k)[i]).0) == d[0]
                && table_accepts(t1, entry_edges(t1, k)[i].1 as int, d.drop_first());
            assert(es[i] == entry_edges(t1, k)[i]);
            lemma_table_accepts_grows(t1, t2, es[i].1 as int, rest);
            assert(table_accepts(t2, entry_edges(t2, k)[i].1 as int, rest));
        }
    }
}

/// A state keeps representing its subtree as the table grows.
proof fn lemma_represents_grows(t1: Seq<Option<TreeState>>, t2: Seq<Option<TreeState>>, k: usize, v: JsonValue)
    requires
        table_closed(t1),
        table_grows(t1, t2),
        k < t1.len(),
        t1[k as int] is Some,
        represents(t1, k, v),
    ensures
        represents(t2, k, v),
{
    assert forall|d: Seq<DocSym>| #[trigger] table_accepts(t2, k as int, d) == has_path(v, d) by {
        lemma_table_accepts_grows(t1, t2, k as int, d);
    }
}

/// The state with key `k` is the state of `v`: each child of `v` has an
/// edge with its label to the state of that child, and every edge is such
/// an edge.
spec fn has_key(t: Seq<Option<TreeState>>, v: JsonValue, k: int) -> bool
    decreases v,
{
    &&& 0 <= k < t.len()
    &&& t[k] is Some
    &&& forall|j: int| #[trigger] child_index(v, j) ==> exists|i: int| #![trigger entry_edges(t, k)[i]]
        0 <= i < entry_edges(t, k).len() && entry_edges(t, k)[i].0 == child_label(v, j)
        && has_key(t, child_value(v, j), entry_edges(t, k)[i].1 as int)
    &&& forall|i: int| #[trigger] edge_index(t, k, i) ==> exists|j: int| #![trigger child_value(v, j)]
        0 <= j < child_count(v) && entry_edges(t, k)[i].0 == child_label(v, j)
        && has_key(t, child_value(v, j), entry_edges(t, k)[i].1 as int)
}

/// `i` is the index of an edge of the state with key `k`.
spec fn edge_index(t: Seq<Option<TreeState>>, k: int, i: int) -> bool {
    0 <= i < entry_edges(t, k).len()
}

/// The edges `l` lead, in order, to the states of the first `n` children of `v`.
spec fn children_keyed(t: Seq<Option<TreeState>>, l: Seq<(Seq<char>, usize)>, v: JsonValue, n: int) -> bool {
    &&& 0 <= n <= child_count(v)
    &&& l.len() == n
    &&& forall|j: int| 0 <= j < n ==> (#[trigger] l[j]).0 == child_label(v, j) && has_key(t, child_value(v, j), l[j].1 as int)
}

/// States of values stay when the table grows.
proof fn lemma_has_key_grows(t1: Seq<Option<TreeState>>, t2: Seq<Option<TreeState>>, v: JsonValue, k: int)
    requires
        table_grows(t1, t2),
        has_key(t1, v, k),
    ensures
        has_key(t2, v, k),
    decreases v,
{
    let es = entry_edges(t1, k);
    assert(entry_edges(t2, k) == es);
    assert forall|j: int| #[trigger] child_index(v, j) implies exists|i: int| #![trigger entry_edges(t2, k)[i]]
        0 <= i < entry_edges(t2, k).len() && entry_edges(t2, k)[i].0 == child_label(v, j)
        && has_key(t2, child_value(v, j), entry_edges(t2, k)[i].1 as int) by {
        let i = choose|i: int| 0 <= i < es.len() && es[i].0 == child_label(v, j) && has_key(t1, child_value(v, j), es[i].1 as int);
        lemma_child_smaller(v, j);
        lemma_has_key_grows(t1, t2, child_value(v, j), es[i].1 as int);
        assert(0 <= i < entry_edges(t2, k).len() && entry_edges(t2, k)[i].0 == child_label(v, j)
            && has_key(t2, child_value(v, j), entry_edges(t2, k)[i].1 as int));
    }
    assert forall|i: int| #[trigger] edge_index(t2, k, i) implies exists|j: int| #![trigger child_value(v, j)]
        0 <= j < child_count(v) && entry_edges(t2, k)[i].0 == child_label(v, j)
        && has_key(t2, child_value(v, j), entry_edges(t2, k)[i].1 as int) by {
        assert(edge_index(t1, k, i));
        assert(es[i] == entry_edges(t1, k)[i]);
        let j = choose|j: int| 0 <= j < child_count(v) && es[i].0 == child_label(v, j) && has_key(t1, child_value(v, j), es[i].1 as int);
        lemma_child_smaller(v, j);
        lemma_has_key_grows(t1, t2, child_value(v, j), es[i].1 as int);
    }
}

/// The children's states stay when the table grows.
proof fn lemma_keyed_grows(t1: Seq<Option<TreeState>>, t2: Seq<Option<TreeState>>, l: Seq<(Seq<char>, usize)>, v: JsonValue, n: int)
    requires
        table_grows(t1, t2),
        children_keyed(t1, l, v, n),
    ensures
        children_keyed(t2, l, v, n),
{
    assert forall|j: int| 0 <= j < n implies (#[trigger] l[j]).0 == child_label(v, j) && has_key(t2, child_value(v, j), l[j].1 as int) by {
        lemma_has_key_grows(t1, t2, child_value(v, j), l[j].1 as int);
    }
}

/// One more child, with its state.
proof fn lemma_keyed_step(
    t1: Seq<Option<TreeState>>,
    t2: Seq<Option<TreeState>>,
    l: Seq<(Seq<char>, usize)>,
    v: JsonValue,
    n: int,
    e: (Seq<char>, usize),
)
    requires
        table_grows(t1, t2),
        children_keyed(t1, l, v, n),
        n < child_count(v),
        e.0 == child_label(v, n),
        has_key(t2, child_value(v, n), e.1 as int),
    ensures
        children_keyed(t2, l.push(e), v, n + 1),
{
    lemma_keyed_grows(t1, t2, l, v, n);
    let l2 = l.push(e);
    assert forall|j: int| 0 <= j < n + 1 implies (#[trigger] l2[j]).0 == child_label(v, j) && has_key(t2, child_value(v, j), l2[j].1 as int) by {
        if j < n {
            assert(l2[j] == l[j]);
        }
    }
}

/// A state whose edges are those to the states of the children of `v` is
/// the state of `v`.
proof fn lemma_node_has_key(t: Seq<Option<TreeState>>, k: int, l: Seq<(Seq<char>, usize)>, v: JsonValue)
    requires
        0 <= k < t.len(),
        t[k] is Some,
        forall|lab: Seq<char>, key: usize| has_edge(entry_edges(t, k), lab, key) <==> has_edge(l, lab, key),
        children_keyed(t, l, v, child_count(v)),
    ensures
        has_key(t, v, k),
{
    let es = entry_edges(t, k);
    assert forall|j: int| #[trigger] child_index(v, j) implies exists|i: int| #![trigger entry_edges(t, k)[i]]
        0 <= i < entry_edges(t, k).len() && entry_edges(t, k)[i].0 == child_label(v, j)
        && has_key(t, child_value(v, j), entry_edges(t, k)[i].1 as int) by {
        assert(l[j] == (l[j].0, l[j].1));
        assert(has_edge(l, l[j].0, l[j].1));
        let i = choose|i: int| 0 <= i < es.len() && #[trigger] es[i] == (l[j].0, l[j].1);
        assert(0 <= i < es.len() && es[i].0 == child_label(v, j) && has_key(t, child_value(v, j), es[i].1 as int));
    }
    assert forall|i: int| #[trigger] edge_index(t, k, i) implies exists|j: int| #![trigger child_value(v, j)]
        0 <= j < child_count(v) && entry_edges(t, k)[i].0 == child_label(v, j)
        && has_key(t, child_value(v, j), entry_edges(t, k)[i].1 as int) by {
        let e = es[i];
        assert(es[i] == (e.0, e.1));
        assert(has_edge(es, e.0, e.1));
        assert(has_edge(l, e.0, e.1));
        let j = choose|j: int| 0 <= j < l.len() && #[trigger] l[j] == (e.0, e.1);
        assert(0 <= j < child_count(v) && es[i].0 == child_label(v, j) && has_key(t, child_value(v, j), es[i].1 as int));
    }
}

/// Without hash-consing, the entry with key `k` holds the state of `v`: one
/// edge per child, in order, with its label; the edge to the last child
/// leads back to `k`, every other edge to a smaller key that holds the state
/// of that child.
spec fn plain_key(t: Seq<Option<TreeState>>, v: JsonValue, k: int) -> bool
    decreases v,
{
    &&& 0 <= k < t.len()
    &&& t[k] is Some
    &&& entry_edges(t, k).len() == child_count(v)
    &&& forall|j: int| #[trigger] child_index(v, j) ==> {
        &&& entry_edges(t, k)[j].0 == child_label(v, j)
        &&& j + 1 == child_count(v) ==> entry_edges(t, k)[j].1 == k
        &&& j + 1 < child_count(v) ==> entry_edges(t, k)[j].1 < k
            && plain_key(t, child_value(v, j), entry_edges(t, k)[j].1 as int)
    }
}

/// The two tables have the same entries up to key `k`.
spec fn agree_upto(t1: Seq<Option<TreeState>>, t2: Seq<Option<TreeState>>, k: int) -> bool {
    &&& k < t1.len()
    &&& k < t2.len()
    &&& forall|m: int| 0 <= m <= k ==> #[trigger] t1[m] == t2[m]
}

/// The state of a value at key `k` depends on the entries up to `k` only.
proof fn lemma_plain_key_stays(t1: Seq<Option<TreeState>>, t2: Seq<Option<TreeState>>, v: JsonValue, k: int)
    requires
        agree_upto(t1, t2, k),
        plain_key(t1, v, k),
    ensures
        plain_key(t2, v, k),
    decreases v,
{
    assert(t1[k] == t2[k]);
    assert(entry_edges(t2, k) == entry_edges(t1, k));
    assert forall|j: int| #[trigger] child_index(v, j) implies {
        &&& entry_edges(t2, k)[j].0 == child_label(v, j)
        &&& j + 1 == child_count(v) ==> entry_edges(t2, k)[j].1 == k
        &&& j + 1 < child_count(v) ==> entry_edges(t2, k)[j].1 < k
            && plain_key(t2, child_value(v, j), entry_edges(t2, k)[j].1 as int)
    } by {
        if j + 1 < child_count(v) {
            let c = entry_edges(t1, k)[j].1 as int;
            lemma_child_smaller(v, j);
            lemma_plain_key_stays(t1, t2, child_value(v, j), c);
        }
    }
}

/// The edges `l` are those of a state of `v` without hash-consing, `c`
/// being the count at which `v` is finished.
spec fn plain_children(t: Seq<Option<TreeState>>, l: Seq<(Seq<char>, usize)>, v: JsonValue, c: int) -> bool {
    &&& l.len() == child_count(v)
    &&& forall|j: int| #[trigger] child_index(v, j) ==> {
        &&& l[j].0 == child_label(v, j)
        &&& j + 1 == child_count(v) ==> l[j].1 == c
        &&& j + 1 < child_count(v) ==> l[j].1 < c && plain_key(t, child_value(v, j), l[j].1 as int)
    }
}

/// The first `n` edges of `l` lead to keys up to `c` that hold the states of
/// the first `n` children of `v`.
spec fn plain_prefix(t: Seq<Option<TreeState>>, l: Seq<(Seq<char>, usize)>, v: JsonValue, n: int, c: int) -> bool {
    &&& l.len() == n
    &&& n > 0 ==> l[n - 1].1 == c
    &&& forall|j: int| 0 <= j < n ==> (#[trigger] l[j]).0 == child_label(v, j) && l[j].1 <= c
        && (j + 1 < n ==> l[j].1 < c) && plain_key(t, child_value(v, j), l[j].1 as int)
}

/// One more child, finished at count `c2`, after the others finished by `c1`.
proof fn lemma_plain_prefix_step(
    t1: Seq<Option<TreeState>>,
    t2: Seq<Option<TreeState>>,
    l: Seq<(Seq<char>, usize)>,
    v: JsonValue,
    n: int,
    c1: int,
    c2: int,
    e: (Seq<char>, usize),
)
    requires
        plain_prefix(t1, l, v, n, c1),
        agree_upto(t1, t2, c1),
        c1 < c2,
        e.0 == child_label(v, n),
        e.1 == c2,
        plain_key(t2, child_value(v, n), c2),
    ensures
        plain_prefix(t2, l.push(e), v, n + 1, c2),
{
    let l2 = l.push(e);
    assert forall|j: int| 0 <= j < n + 1 implies (#[trigger] l2[j]).0 == child_label(v, j) && l2[j].1 <= c2
        && (j + 1 < n + 1 ==> l2[j].1 < c2) && plain_key(t2, child_value(v, j), l2[j].1 as int) by {
        if j < n {
            assert(l2[j] == l[j]);
            assert(agree_upto(t1, t2, l[j].1 as int));
            lemma_plain_key_stays(t1, t2, child_value(v, j), l[j].1 as int);
        }
    }
}

/// The edges `l` lead, in order, to states that represent the children of `v`.
spec fn children_represented(t: Seq<Option<TreeState>>, l: Seq<(Seq<char>, usize)>, v: JsonValue) -> bool {
    match v {
        JsonValue::Object(members) => l.len() == members@.len() && forall|j: int| 0 <= j < l.len() ==>
            (#[trigger] l[j]).0 == members@[j].0@ && represents(t, l[j].1, members@[j].1),
        JsonValue::Array(items) => l.len() == items@.len() && forall|j: int| 0 <= j < l.len() ==>
            (#[trigger] l[j]).0 == Seq::<char>::empty() && represents(t, l[j].1, items@[j]),
        _ => l.len() == 0,
    }
}

/// A state whose edges are those to its children's states represents the node.
proof fn lemma_node_represents(t: Seq<Option<TreeState>>, k: usize, l: Seq<(Seq<char>, usize)>, v: JsonValue)
    requires
        forall|lab: Seq<char>, key: usize| has_edge(entry_edges(t, k as int), lab, key) <==> has_edge(l, lab, key),
        children_represented(t, l, v),
    ensures
        represents(t, k, v),
{
    let es = entry_edges(t, k as int);
    assert forall|d: Seq<DocSym>| #[trigger] table_accepts(t, k as int, d) == has_path(v, d) by {
        if d.len() > 0 {
            let rest = d.drop_first();
            if table_accepts(t, k as int, d) {
                let i = choose|i: int| 0 <= i < entry_edges(t, k as int).len() && edge_sym((#[trigger] entry_edges(t, k as int)[i]).0) == d[0]
                    && table_accepts(t, entry_edges(t, k as int)[i].1 as int, d.drop_first());
                let e = entry_edges(t, k as int)[i];
                assert(entry_edges(t, k as int)[i] == (e.0, e.1));
                assert(has_edge(entry_edges(t, k as int), e.0, e.1));
                assert(has_edge(l, e.0, e.1));
                let j = choose|j: int| 0 <= j < l.len() && #[trigger] l[j] == (e.0, e.1);
                assert(table_accepts(t, l[j].1 as int, d.drop_first()));
                match v {
                    JsonValue::Object(members) => {
                        assert(represents(t, l[j].1, members@[j].1));
                        assert(has_path(members@[j].1, d.drop_first()));
                        assert(edge_sym(members@[j].0@) == d[0]);
                    },
                    JsonValue::Array(items) => {
                        assert(represents(t, l[j].1, items@[j]));
                        assert(has_path(items@[j], d.drop_first()));
                    },
                    _ => {},
                }
            }
            if has_path(v, d) {
                match v {
                    JsonValue::Object(members) => {
                        let j = choose|j: int| 0 <= j < members@.len() && edge_sym((#[trigger] members@[j]).0@) == d[0]
                            && has_path(members@[j].1, d.drop_first());
                        assert(l[j] == (members@[j].0@, l[j].1));
                        assert(has_edge(l, l[j].0, l[j].1));
                        let i = choose|i: int| 0 <= i < es.len() && #[trigger] es[i] == (l[j].0, l[j].1);
                        assert(represents(t, l[j].1, members@[j].1));
                        assert(table_accepts(t, es[i].1 as int, rest));
                    },
                    JsonValue::Array(items) => {
                        let j = choose|j: int| 0 <= j < items@.len() && has_path(#[trigger] items@[j], d.drop_first());
                        assert(has_edge(l, l[j].0, l[j].1));
                        let i = choose|i: int| 0 <= i < es.len() && #[trigger] es[i] == (l[j].0, l[j].1);
                        assert(represents(t, l[j].1, items@[j]));
                        assert(table_accepts(t, es[i].1 as int, rest));
                    },
                    _ => {},
                }
            }
        }
    }
}






/// The states built so far, by key; with hash-consing every key holds a
/// state, without it the key of a node is the number of nodes counted when
/// the node is done.
struct JsonTreeBuilder {
    states: Vec<Option<TreeState>>,
    json_node_count: usize,
    config: JsonNfaBuilderConfig,
}

impl JsonTreeBuilder {
    spec fn inv(&self) -> bool {
        &&& table_closed(self.states@)
        &&& self.states@.len() >= 1
        &&& self.config.hash_cons ==> forall|k: int| 0 <= k < self.states@.len() ==> #[trigger] self.states@[k] is Some
        &&& self.config.hash_cons ==> forall|k: int| 0 <= k < self.states@.len() ==> strictly_sorted_edges(#[trigger] entry_edges(self.states@, k))
        &&& self.config.hash_cons ==> entry_edges(self.states@, 0).len() == 0
        &&& self.config.hash_cons ==> forall|k1: int, k2: int| 0 <= k1 < self.states@.len() && 0 <= k2 < self.states@.len() && k1 != k2
            ==> #[trigger] entry_edges(self.states@, k1) != #[trigger] entry_edges(self.states@, k2)
        &&& !self.config.hash_cons ==> self.states@.len() == self.json_node_count + 1
    }

    /// A builder that knows the leaf state only.
    fn new(config: JsonNfaBuilderConfig) -> (r: Self)
        ensures
            r.inv(),
            r.config == config,
            r.json_node_count == 0,
            r.states@.len() == 1,
            r.states@[0] is Some,
    {
        let mut leaf = TreeState::new();
        let ghost empty = leaf.transitions@;
        leaf.organize();
        proof {
            let ev = edges_view(leaf.transitions@);
            if ev.len() > 0 {
                assert(ev[0] == (ev[0].0, ev[0].1));
                assert(has_edge(ev, ev[0].0, ev[0].1));
                assert(has_edge(edges_view(empty), ev[0].0, ev[0].1));
            }
        }
        let mut states: Vec<Option<TreeState>> = Vec::new();
        states.push(Some(leaf));
        let r = Self { states, json_node_count: 0, config };
        proof {
            assert(entry_edges(r.states@, 0) =~= Seq::<(Seq<char>, usize)>::empty());
        }
        r
    }

    /// The key of the state with exactly these edges, if there is one.
    fn find_state(&self, edges: &Vec<(String, usize)>) -> (r: Option<usize>)
        ensures
            match r {
                Some(k) => k < self.states@.len() && self.states@[k as int] is Some
                    && entry_edges(self.states@, k as int) == edges_view(edges@),
                None => forall|k: int| 0 <= k < self.states@.len() && #[trigger] self.states@[k] is Some
                    ==> entry_edges(self.states@, k) != edges_view(edges@),
            },
    {
        let mut k: usize = 0;
        while k < self.states.len()
            invariant
                k <= self.states@.len(),
                forall|j: int| 0 <= j < k && #[trigger] self.states@[j] is Some ==> entry_edges(self.states@, j) != edges_view(edges@),
            decreases self.states@.len() - k,
        {
            match &self.states[k] {
                Some(st) => {
                    if same_edges(&st.transitions, edges) {
                        return Some(k);
                    }
                },
                None => {},
            }
            k += 1;
        }
        None
    }
}



/// Every edge of `l` leads to a state of `t`.
spec fn edges_to_states(t: Seq<Option<TreeState>>, l: Seq<(Seq<char>, usize)>) -> bool {
    forall|j: int| 0 <= j < l.len() ==> (#[trigger] l[j]).1 < t.len() && t[l[j].1 as int] is Some
}

/// Replacing or filling one entry with a state whose edges lead to states keeps the table closed.
proof fn lemma_set_keeps_closed(t: Seq<Option<TreeState>>, key: int, st: TreeState)
    requires
        table_closed(t),
        0 <= key < t.len(),
        edges_to_states(t, edges_view(st.transitions@)),
    ensures
        table_closed(t.update(key, Some(st))),
{
    let t2 = t.update(key, Some(st));
    assert forall|k: int, i: int| 0 <= k < t2.len() && 0 <= i < entry_edges(t2, k).len() implies
        (#[trigger] entry_edges(t2, k)[i]).1 < t2.len() && t2[entry_edges(t2, k)[i].1 as int] is Some by {
        if k == key {
            assert(entry_edges(t2, k) == edges_view(st.transitions@));
        } else {
            assert(entry_edges(t2, k) == entry_edges(t, k));
        }
    }
}

/// Adding a state whose edges lead to states keeps the table closed.
proof fn lemma_push_keeps_closed(t: Seq<Option<TreeState>>, st: Option<TreeState>)
    requires
        table_closed(t),
        st is Some ==> edges_to_states(t, edges_view(st->Some_0.transitions@)),
    ensures
        table_closed(t.push(st)),
        table_grows(t, t.push(st)) || st is None,
{
    let t2 = t.push(st);
    assert forall|k: int, i: int| 0 <= k < t2.len() && 0 <= i < entry_edges(t2, k).len() implies
        (#[trigger] entry_edges(t2, k)[i]).1 < t2.len() && t2[entry_edges(t2, k)[i].1 as int] is Some by {
        if k == t.len() {
            assert(entry_edges(t2, k) == edges_view(st->Some_0.transitions@));
        } else {
            assert(entry_edges(t2, k) == entry_edges(t, k));
        }
    }
}

/// Growing the table keeps the edges to states and the children they represent.
proof fn lemma_children_grow(t1: Seq<Option<TreeState>>, t2: Seq<Option<TreeState>>, l: Seq<(Seq<char>, usize)>, v: JsonValue, n: int)
    requires
        table_closed(t1),
        table_grows(t1, t2),
        edges_to_states(t1, l),
        0 <= n <= l.len(),
        match v {
            JsonValue::Object(members) => n <= members@.len() && forall|j: int| 0 <= j < n ==>
                (#[trigger] l[j]).0 == members@[j].0@ && represents(t1, l[j].1, members@[j].1),
            JsonValue::Array(items) => n <= items@.len() && forall|j: int| 0 <= j < n ==>
                (#[trigger] l[j]).0 == Seq::<char>::empty() && represents(t1, l[j].1, items@[j]),
            _ => true,
        },
    ensures
        edges_to_states(t2, l),
        match v {
            JsonValue::Object(members) => forall|j: int| 0 <= j < n ==>
                (#[trigger] l[j]).0 == members@[j].0@ && represents(t2, l[j].1, members@[j].1),
            JsonValue::Array(items) => forall|j: int| 0 <= j < n ==>
                (#[trigger] l[j]).0 == Seq::<char>::empty() && represents(t2, l[j].1, items@[j]),
            _ => true,
        },
{
    match v {
        JsonValue::Object(members) => {
            assert forall|j: int| 0 <= j < n implies (#[trigger] l[j]).0 == members@[j].0@ && represents(t2, l[j].1, members@[j].1) by {
                lemma_represents_grows(t1, t2, l[j].1, members@[j].1);
            }
        },
        JsonValue::Array(items) => {
            assert forall|j: int| 0 <= j < n implies (#[trigger] l[j]).0 == Seq::<char>::empty() && represents(t2, l[j].1, items@[j]) by {
                lemma_represents_grows(t1, t2, l[j].1, items@[j]);
            }
        },
        _ => {},
    }
}


/// `t2` keeps every state of `t1`, perhaps replaced, and may have more.
spec fn keeps_states(t1: Seq<Option<TreeState>>, t2: Seq<Option<TreeState>>) -> bool {
    &&& t1.len() <= t2.len()
    &&& forall|k: int| 0 <= k < t1.len() && t1[k] is Some ==> #[trigger] t2[k] is Some
}

impl JsonTreeBuilder {
    /// Builds the states of `current` and its subtrees, and returns the key of its state.
    fn build_state(&mut self, current: &JsonValue) -> (key: usize)
        requires
            old(self).inv(),
            old(self).json_node_count + node_count(*current) <= usize::MAX,
        ensures
            final(self).inv(),
            final(self).config == old(self).config,
            final(self).json_node_count == old(self).json_node_count + node_count(*current),
            key < final(self).states@.len(),
            final(self).states@[key as int] is Some,
            keeps_states(old(self).states@, final(self).states@),
            final(self).config.hash_cons ==> table_grows(old(self).states@, final(self).states@),
            final(self).config.hash_cons ==> represents(final(self).states@, key, *current),
            final(self).config.hash_cons ==> has_key(final(self).states@, *current, key as int),
            !final(self).config.hash_cons ==> key == final(self).json_node_count,
            !final(self).config.hash_cons ==> plain_key(final(self).states@, *current, key as int),
            !final(self).config.hash_cons ==> agree_upto(old(self).states@, final(self).states@, old(self).json_node_count as int),
            final(self).config.hash_cons ==> table_reaches(final(self).states@, key as int, 0),
            final(self).config.hash_cons ==> forall|k: int| old(self).states@.len() <= k < final(self).states@.len()
                ==> #[trigger] table_reaches(final(self).states@, key as int, k),
        decreases current,
    {
        self.json_node_count += 1;
        if !self.config.hash_cons {
            proof {
                lemma_push_keeps_closed(self.states@, None);
            }
            self.states.push(None);
        }
        let mut state = TreeState::new();
        match current {
            JsonValue::Object(values) => {
                let mut i: usize = 0;
                while i < values.len()
                    invariant
                        self.inv(),
                        self.config == old(self).config,
                        *current == JsonValue::Object(*values),
                        old(self).json_node_count + node_count(*current) <= usize::MAX,
                        node_count(*current) == 1 + members_node_count(values@),
                        self.json_node_count == old(self).json_node_count + 1 + members_node_count(values@.take(i as int)),
                        i <= values@.len(),
                        state.transitions@.len() == i,
                        edges_to_states(self.states@, edges_view(state.transitions@)),
                        keeps_states(old(self).states@, self.states@),
                        self.config.hash_cons ==> table_grows(old(self).states@, self.states@),
                        self.config.hash_cons ==> forall|j: int| 0 <= j < i ==>
                            (#[trigger] edges_view(state.transitions@)[j]).0 == values@[j].0@
                                && represents(self.states@, edges_view(state.transitions@)[j].1, values@[j].1),
                    self.config.hash_cons ==> forall|k: int| old(self).states@.len() <= k < self.states@.len()
                            ==> #[trigger] reached_from_some(self.states@, edges_view(state.transitions@), i as int, k),
                        self.config.hash_cons && i > 0 ==> table_reaches(self.states@, edges_view(state.transitions@)[0].1 as int, 0),
                        self.config.hash_cons ==> children_keyed(self.states@, edges_view(state.transitions@), *current, i as int),
                        !self.config.hash_cons ==> agree_upto(old(self).states@, self.states@, old(self).json_node_count as int),
                        !self.config.hash_cons ==> plain_prefix(self.states@, edges_view(state.transitions@), *current, i as int,
                            self.json_node_count as int),
                    decreases values@.len() - i,
                {
                    let ghost t1 = self.states@;
                    let ghost l1 = edges_view(state.transitions@);
                    proof {
                        lemma_members_node_count_prefix(values@, i + 1);
                        assert(values@.take(i + 1).drop_last() =~= values@.take(i as int));
                    }
                    let ghost c1 = self.json_node_count as int;
                    let child = self.build_state(&values[i].1);
                    proof {
                        assert forall|j: int| 0 <= j < l1.len() implies (#[trigger] l1[j]).1 < self.states@.len()
                            && self.states@[l1[j].1 as int] is Some by {}
                        if self.config.hash_cons {
                            lemma_children_grow(t1, self.states@, l1, *current, i as int);
                        }
                    }
                    state.add_transition(values[i].0.clone(), child);
                    proof {
                        let l2 = edges_view(state.transitions@);
                        assert(l2 =~= l1.push((values@[i as int].0@, child)));
                        if self.config.hash_cons {
                            lemma_child_step(old(self).states@.len() as int, t1, self.states@, l1, (values@[i as int].0@, child));
                            lemma_keyed_step(t1, self.states@, l1, *current, i as int, (values@[i as int].0@, child));
                        } else {
                            lemma_plain_prefix_step(t1, self.states@, l1, *current, i as int, c1, child as int, (values@[i as int].0@, child));
                            assert(agree_upto(old(self).states@, self.states@, old(self).json_node_count as int)) by {
                                assert forall|m: int| 0 <= m <= old(self).json_node_count implies #[trigger] old(self).states@[m] == self.states@[m] by {
                                    assert(old(self).states@[m] == t1[m]);
                                    assert(t1[m] == self.states@[m]);
                                }
                            }
                        }
                    }
                    i += 1;
                }
                proof {
                    assert(values@.take(values@.len() as int) =~= values@);
                }
            },
            JsonValue::Array(values) => {
                let mut i: usize = 0;
                while i < values.len()
                    invariant
                        self.inv(),
                        self.config == old(self).config,
                        *current == JsonValue::Array(*values),
                        old(self).json_node_count + node_count(*current) <= usize::MAX,
                        node_count(*current) == 1 + items_node_count(values@),
                        self.json_node_count == old(self).json_node_count + 1 + items_node_count(values@.take(i as int)),
                        i <= values@.len(),
                        state.transitions@.len() == i,
                        edges_to_states(self.states@, edges_view(state.transitions@)),
                        keeps_states(old(self).states@, self.states@),
                        self.config.hash_cons ==> table_grows(old(self).states@, self.states@),
                        self.config.hash_cons ==> forall|j: int| 0 <= j < i ==>
                            (#[trigger] edges_view(state.transitions@)[j]).0 == Seq::<char>::empty()
                                && represents(self.states@, edges_view(state.transitions@)[j].1, values@[j]),
                    self.config.hash_cons ==> forall|k: int| old(self).states@.len() <= k < self.states@.len()
                            ==> #[trigger] reached_from_some(self.states@, edges_view(state.transitions@), i as int, k),
                        self.config.hash_cons && i > 0 ==> table_reaches(self.states@, edges_view(state.transitions@)[0].1 as int, 0),
                        self.config.hash_cons ==> children_keyed(self.states@, edges_view(state.transitions@), *current, i as int),
                        !self.config.hash_cons ==> agree_upto(old(self).states@, self.states@, old(self).json_node_count as int),
                        !self.config.hash_cons ==> plain_prefix(self.states@, edges_view(state.transitions@), *current, i as int,
                            self.json_node_count as int),
                    decreases values@.len() - i,
                {
                    let ghost t1 = self.states@;
                    let ghost l1 = edges_view(state.transitions@);
                    proof {
                        lemma_items_node_count_prefix(values@, i + 1);
                        assert(values@.take(i + 1).drop_last() =~= values@.take(i as int));
                    }
                    let ghost c1 = self.json_node_count as int;
                    let child = self.build_state(&values[i]);
                    proof {
                        assert forall|j: int| 0 <= j < l1.len() implies (#[trigger] l1[j]).1 < self.states@.len()
                            && self.states@[l1[j].1 as int] is Some by {}
                        if self.config.hash_cons {
                            lemma_children_grow(t1, self.states@, l1, *current, i as int);
                        }
                    }
                    state.add_transition(String::new(), child);
                    proof {
                        let l2 = edges_view(state.transitions@);
                        assert(l2 =~= l1.push((Seq::<char>::empty(), child)));
                        if self.config.hash_cons {
                            lemma_child_step(old(self).states@.len() as int, t1, self.states@, l1, (Seq::<char>::empty(), child));
                            lemma_keyed_step(t1, self.states@, l1, *current, i as int, (Seq::<char>::empty(), child));
                        } else {
                            lemma_plain_prefix_step(t1, self.states@, l1, *current, i as int, c1, child as int, (Seq::<char>::empty(), child));
                            assert(agree_upto(old(self).states@, self.states@, old(self).json_node_count as int)) by {
                                assert forall|m: int| 0 <= m <= old(self).json_node_count implies #[trigger] old(self).states@[m] == self.states@[m] by {
                                    assert(old(self).states@[m] == t1[m]);
                                    assert(t1[m] == self.states@[m]);
                                }
                            }
                        }
                    }
                    i += 1;
                }
                proof {
                    assert(values@.take(values@.len() as int) =~= values@);
                }
            },
            _ => {},
        }
        let ghost l = edges_view(state.transitions@);
        let ghost t1 = self.states@;
        proof {
            if !(current is Object) && !(current is Array) {
                assert(l.len() == 0);
            }
            if self.config.hash_cons {
                assert(children_keyed(t1, l, *current, child_count(*current)));
            } else {
                assert(plain_prefix(t1, l, *current, child_count(*current), self.json_node_count as int));
                assert(plain_children(t1, l, *current, self.json_node_count as int)) by {
                    assert forall|j: int| #[trigger] child_index(*current, j) implies {
                        &&& l[j].0 == child_label(*current, j)
                        &&& j + 1 == child_count(*current) ==> l[j].1 == self.json_node_count
                        &&& j + 1 < child_count(*current) ==> l[j].1 < self.json_node_count
                            && plain_key(t1, child_value(*current, j), l[j].1 as int)
                    } by {}
                }
            }
        }
        let key: usize;
        if self.config.hash_cons {
            state.organize();
            let ghost sorted = edges_view(state.transitions@);
            proof {
                assert(edges_to_states(t1, sorted)) by {
                    assert forall|j: int| 0 <= j < sorted.len() implies (#[trigger] sorted[j]).1 < t1.len() && t1[sorted[j].1 as int] is Some by {
                        assert(sorted[j] == (sorted[j].0, sorted[j].1));
                        assert(has_edge(sorted, sorted[j].0, sorted[j].1));
                        let m = choose|m: int| 0 <= m < l.len() && #[trigger] l[m] == (sorted[j].0, sorted[j].1);
                    }
                }
            }
            match self.find_state(&state.transitions) {
                Some(k) => {
                    key = k;
                },
                None => {
                    key = self.states.len();
                    proof {
                        lemma_push_keeps_closed(self.states@, Some(state));
                    }
                    let ghost before = self.states@;
                    self.states.push(Some(state));
                    proof {
                        assert forall|k: int| 0 <= k < before.len() implies #[trigger] entry_edges(self.states@, k) == entry_edges(before, k) by {}
                        assert(entry_edges(self.states@, key as int) == sorted);
                        assert forall|k1: int, k2: int| 0 <= k1 < self.states@.len() && 0 <= k2 < self.states@.len() && k1 != k2
                            implies #[trigger] entry_edges(self.states@, k1) != #[trigger] entry_edges(self.states@, k2) by {
                            if k1 == key as int {
                                assert(before[k2] is Some);
                            } else if k2 == key as int {
                                assert(before[k1] is Some);
                            }
                        }
                        assert forall|k: int| 0 <= k < self.states@.len() implies strictly_sorted_edges(#[trigger] entry_edges(self.states@, k)) by {
                            if k < before.len() {
                                assert(entry_edges(self.states@, k) == entry_edges(before, k));
                            }
                        }
                    }
                },
            }
            proof {
                assert(table_grows(t1, self.states@));
                lemma_children_grow(t1, self.states@, l, *current, l.len() as int);
                assert(entry_edges(self.states@, key as int) == sorted);
                lemma_node_represents(self.states@, key, l, *current);
                lemma_keyed_grows(t1, self.states@, l, *current, child_count(*current));
                lemma_node_has_key(self.states@, key as int, l, *current);
                if l.len() == 0 {
                    assert(sorted.len() == 0) by {
                        if sorted.len() > 0 {
                            assert(has_edge(sorted, sorted[0].0, sorted[0].1));
                        }
                    }
                    assert(entry_edges(self.states@, 0).len() == 0);
                    assert(entry_edges(self.states@, 0) =~= entry_edges(self.states@, key as int));
                }
                lemma_key_reaches(t1, self.states@, l, sorted, key, old(self).states@.len() as int);
            }
        } else {
            key = self.json_node_count;
            proof {
                lemma_set_keeps_closed(self.states@, key as int, state);
            }
            self.states.set(key, Some(state));
            proof {
                let t2 = self.states@;
                assert(entry_edges(t2, key as int) == l);
                assert forall|j: int| #[trigger] child_index(*current, j) implies {
                    &&& entry_edges(t2, key as int)[j].0 == child_label(*current, j)
                    &&& j + 1 == child_count(*current) ==> entry_edges(t2, key as int)[j].1 == key
                    &&& j + 1 < child_count(*current) ==> entry_edges(t2, key as int)[j].1 < key
                        && plain_key(t2, child_value(*current, j), entry_edges(t2, key as int)[j].1 as int)
                } by {
                    if j + 1 < child_count(*current) {
                        assert(agree_upto(t1, t2, l[j].1 as int));
                        lemma_plain_key_stays(t1, t2, child_value(*current, j), l[j].1 as int);
                    }
                }
                assert(plain_key(t2, *current, key as int));
                assert(agree_upto(old(self).states@, t2, old(self).json_node_count as int)) by {
                    assert forall|m: int| 0 <= m <= old(self).json_node_count implies #[trigger] old(self).states@[m] == t2[m] by {
                        assert(old(self).states@[m] == t1[m]);
                    }
                }
            }
        }
        key
    }
}


/// `x` is a target of `st` for the document symbol `s`.
pub open spec fn table_succ(st: StateTable, s: DocSym, x: usize) -> bool {
    lists_succ(st.member_transitions@, st.array_transitions@, s, x)
}

/// `x` is a target, for the document symbol `s`, of these member and array transitions.
pub open spec fn lists_succ(members: Seq<MemberTransition>, arrays: Seq<ArrayTransition>, s: DocSym, x: usize) -> bool {
    match s {
        DocSym::List => exists|k: int| 0 <= k < arrays.len() && (#[trigger] arrays[k]).target == x,
        DocSym::Member(l) => exists|k: int| 0 <= k < members.len() && (#[trigger] members[k]).0@ == l && members[k].1 == x,
    }
}

/// `x` is the state, under `ids`, of the target of an edge of `es` that reads `s`.
spec fn edge_succ(es: Seq<(Seq<char>, usize)>, ids: Seq<usize>, s: DocSym, x: usize) -> bool {
    exists|i: int| 0 <= i < es.len() && edge_sym((#[trigger] es[i]).0) == s && x == ids[es[i].1 as int]
}

/// The automaton state of a tree state: accepting, falling back to state 0,
/// a member transition for each labelled edge and an array transition `[*]`
/// for each edge with the empty label, to the states that `ids` gives.
fn emit_tree_state(st: &TreeState, ids: &Vec<usize>, bound: usize) -> (r: StateTable)
    requires
        forall|i: int| 0 <= i < st.transitions@.len() ==> (#[trigger] st.transitions@[i]).1 < ids@.len()
            && 1 <= ids@[st.transitions@[i].1 as int] <= bound,
    ensures
        r.accepting,
        r.fallback_state == 0,
        forall|s: DocSym, x: usize| #[trigger] table_succ(r, s, x) == edge_succ(edges_view(st.transitions@), ids@, s, x),
        forall|k: int| 0 <= k < r.array_transitions@.len() ==> (#[trigger] r.array_transitions@[k]).label
            == (crate::automaton::ArrayLabel::Slice { start: 0, end: None, step: 1 }),
        forall|k: int| 0 <= k < r.array_transitions@.len() ==> 1 <= (#[trigger] r.array_transitions@[k]).target <= bound,
        forall|k: int| 0 <= k < r.member_transitions@.len() ==> 1 <= (#[trigger] r.member_transitions@[k]).1 <= bound,
{
    let ghost es = edges_view(st.transitions@);
    let mut members: Vec<MemberTransition> = Vec::new();
    let mut arrays: Vec<ArrayTransition> = Vec::new();
    let mut j: usize = 0;
    while j < st.transitions.len()
        invariant
            es == edges_view(st.transitions@),
            j <= st.transitions@.len(),
            forall|i: int| 0 <= i < st.transitions@.len() ==> (#[trigger] st.transitions@[i]).1 < ids@.len()
                && 1 <= ids@[st.transitions@[i].1 as int] <= bound,
            forall|s: DocSym, x: usize| #[trigger] lists_succ(members@, arrays@, s, x) == edge_succ(es.take(j as int), ids@, s, x),
            forall|k: int| 0 <= k < arrays@.len() ==> (#[trigger] arrays@[k]).label
                == (crate::automaton::ArrayLabel::Slice { start: 0, end: None, step: 1 }),
            forall|k: int| 0 <= k < arrays@.len() ==> 1 <= (#[trigger] arrays@[k]).target <= bound,
            forall|k: int| 0 <= k < members@.len() ==> 1 <= (#[trigger] members@[k]).1 <= bound,
        decreases st.transitions@.len() - j,
    {
        let ghost old_members = members@;
        let ghost old_arrays = arrays@;
        let label = &st.transitions[j].0;
        let target = ids[st.transitions[j].1];
        if label.as_str().is_empty() {
            arrays.push(new_array_transition(target));
        } else {
            members.push(new_member_transition(label.as_str(), target));
        }
        proof {
            let e = es[j as int];
            assert(e == edge_view(st.transitions@[j as int]));
            assert(e.0 == label@ && e.1 == st.transitions@[j as int].1);
            assert(target == ids@[e.1 as int]);
            if e.0.len() == 0 {
                assert(members@ == old_members);
                assert(arrays@.len() == old_arrays.len() + 1);
                assert(arrays@[arrays@.len() - 1].target == target);
                assert(forall|k: int| 0 <= k < old_arrays.len() ==> arrays@[k] == old_arrays[k]);
            } else {
                assert(arrays@ == old_arrays);
                assert(members@.len() == old_members.len() + 1);
                assert(members@[members@.len() - 1].0@ == e.0 && members@[members@.len() - 1].1 == target);
                assert(forall|k: int| 0 <= k < old_members.len() ==> members@[k] == old_members[k]);
            }
            let pre = es.take(j as int);
            let post = es.take(j + 1);
            assert(post =~= pre.push(e));
            assert forall|s: DocSym, x: usize| #[trigger] lists_succ(members@, arrays@, s, x) == edge_succ(post, ids@, s, x) by {
                assert(lists_succ(old_members, old_arrays, s, x) == edge_succ(pre, ids@, s, x));
                let fresh = edge_sym(e.0) == s && x == ids@[e.1 as int];
                assert(edge_succ(post, ids@, s, x) == (edge_succ(pre, ids@, s, x) || fresh)) by {
                    if edge_succ(post, ids@, s, x) {
                        let i = choose|i: int| 0 <= i < post.len() && edge_sym((#[trigger] post[i]).0) == s && x == ids@[post[i].1 as int];
                        if i < pre.len() {
                            assert(pre[i] == post[i]);
                        }
                    }
                    if edge_succ(pre, ids@, s, x) {
                        let i = choose|i: int| 0 <= i < pre.len() && edge_sym((#[trigger] pre[i]).0) == s && x == ids@[pre[i].1 as int];
                        assert(post[i] == pre[i]);
                    }
                    if fresh {
                        assert(post[j as int] == e);
                    }
                }
                assert(lists_succ(members@, arrays@, s, x) == (lists_succ(old_members, old_arrays, s, x) || fresh)) by {
                    match s {
                        DocSym::List => {
                            if lists_succ(members@, arrays@, s, x) {
                                let k = choose|k: int| 0 <= k < arrays@.len() && (#[trigger] arrays@[k]).target == x;
                                if k < old_arrays.len() {
                                    assert(old_arrays[k] == arrays@[k]);
                                }
                            }
                            if lists_succ(old_members, old_arrays, s, x) {
                                let k = choose|k: int| 0 <= k < old_arrays.len() && (#[trigger] old_arrays[k]).target == x;
                                assert(arrays@[k] == old_arrays[k]);
                            }
                            if fresh {
                                assert(e.0.len() == 0);
                                assert(arrays@[arrays@.len() - 1].target == x);
                            }
                        },
                        DocSym::Member(l) => {
                            if lists_succ(members@, arrays@, s, x) {
                                let k = choose|k: int| 0 <= k < members@.len() && (#[trigger] members@[k]).0@ == l && members@[k].1 == x;
                                if k < old_members.len() {
                                    assert(old_members[k] == members@[k]);
                                }
                            }
                            if lists_succ(old_members, old_arrays, s, x) {
                                let k = choose|k: int| 0 <= k < old_members.len() && (#[trigger] old_members[k]).0@ == l && old_members[k].1 == x;
                                assert(members@[k] == old_members[k]);
                            }
                            if fresh {
                                assert(e.0.len() > 0);
                                assert(e.0 == l);
                                let last = members@.len() - 1;
                                assert(members@[last].0@ == l);
                                assert(members@[last].1 == x);
                            }
                        },
                    }
                }
            }
        }
        j += 1;
    }
    proof {
        assert(es.take(st.transitions@.len() as int) =~= es);
    }
    StateTable::new(true, members, arrays, 0)
}


/// The automaton `a` was emitted from the table `t`: state `ids[k]` is the
/// state of key `k`, and `keys` lists the keys in the order of their states.
spec fn emitted_from(a: &Automaton, t: Seq<Option<TreeState>>, keys: Seq<usize>, ids: Seq<usize>) -> bool {
    &&& a.states@.len() == keys.len() + 1
    &&& ids.len() == t.len()
    &&& table_closed(t)
    &&& forall|i: int| 0 <= i < keys.len() ==> (#[trigger] keys[i]) < t.len() && t[keys[i] as int] is Some
        && ids[keys[i] as int] == i + 1
    &&& forall|k: int| 0 <= k < t.len() && #[trigger] t[k] is Some ==> exists|i: int| 0 <= i < keys.len() && keys[i] == k
    &&& forall|q: int, s: DocSym, x: usize| 1 <= q < a.states@.len() ==>
        #[trigger] table_succ(a.states@[q], s, x) == edge_succ(entry_edges(t, keys[q - 1] as int), ids, s, x)
}

/// The state of a key that holds a state.
proof fn lemma_emitted_key(a: &Automaton, t: Seq<Option<TreeState>>, keys: Seq<usize>, ids: Seq<usize>, k: int)
    requires
        emitted_from(a, t, keys, ids),
        0 <= k < t.len(),
        t[k] is Some,
    ensures
        1 <= ids[k] < a.states@.len(),
        keys[ids[k] - 1] == k,
{
    let i = choose|i: int| 0 <= i < keys.len() && keys[i] == k;
    assert(ids[keys[i] as int] == i + 1);
}

/// The state emitted for the key of `v` is the state of `v`.
proof fn lemma_has_key_state_of(a: &Automaton, t: Seq<Option<TreeState>>, keys: Seq<usize>, ids: Seq<usize>, v: JsonValue, k: int)
    requires
        emitted_from(a, t, keys, ids),
        has_key(t, v, k),
    ensures
        state_of(a, v, ids[k] as int),
    decreases v,
{
    lemma_emitted_key(a, t, keys, ids, k);
    let q = ids[k] as int;
    let es = entry_edges(t, k);
    let st = a.states@[q];
    assert(entry_edges(t, keys[q - 1] as int) == es);
    assert forall|s: DocSym, x: usize| #[trigger] table_succ(st, s, x) == edge_succ(es, ids, s, x) by {}
    assert forall|j: int| #[trigger] child_index(v, j) implies exists|x: usize| #![trigger table_succ(st, child_sym(v, j), x)]
        table_succ(st, child_sym(v, j), x) && state_of(a, child_value(v, j), x as int) by {
        let i = choose|i: int| 0 <= i < es.len() && es[i].0 == child_label(v, j) && has_key(t, child_value(v, j), es[i].1 as int);
        lemma_child_smaller(v, j);
        lemma_has_key_state_of(a, t, keys, ids, child_value(v, j), es[i].1 as int);
        let x = ids[es[i].1 as int];
        assert(edge_succ(es, ids, child_sym(v, j), x));
        assert(table_succ(st, child_sym(v, j), x) && state_of(a, child_value(v, j), x as int));
    }
    assert forall|s: DocSym, x: usize| #[trigger] table_succ(st, s, x) implies exists|j: int|
        0 <= j < child_count(v) && s == child_sym(v, j) && state_of(a, child_value(v, j), x as int) by {
        assert(edge_succ(es, ids, s, x));
        let i = choose|i: int| 0 <= i < es.len() && edge_sym((#[trigger] es[i]).0) == s && x == ids[es[i].1 as int];
        assert(es[i] == entry_edges(t, k)[i]);
        assert(edge_index(t, k, i));
        let j = choose|j: int| 0 <= j < child_count(v) && es[i].0 == child_label(v, j) && has_key(t, child_value(v, j), es[i].1 as int);
        lemma_child_smaller(v, j);
        lemma_has_key_state_of(a, t, keys, ids, child_value(v, j), es[i].1 as int);
        assert(0 <= j < child_count(v) && s == child_sym(v, j) && state_of(a, child_value(v, j), x as int));
    }
}

/// Without hash-consing, the state emitted for the key of `v` is the state
/// of `v`.
proof fn lemma_plain_key_state_of(a: &Automaton, t: Seq<Option<TreeState>>, keys: Seq<usize>, ids: Seq<usize>, v: JsonValue, k: int)
    requires
        emitted_from(a, t, keys, ids),
        plain_key(t, v, k),
    ensures
        unshared_state_of(a, v, ids[k] as int),
    decreases v,
{
    lemma_emitted_key(a, t, keys, ids, k);
    let q = ids[k] as int;
    let es = entry_edges(t, k);
    let st = a.states@[q];
    assert(entry_edges(t, keys[q - 1] as int) == es);
    assert forall|s: DocSym, x: usize| #[trigger] table_succ(st, s, x) == edge_succ(es, ids, s, x) by {}
    assert forall|j: int| #[trigger] child_index(v, j) implies if j + 1 == child_count(v) {
        table_succ(st, child_sym(v, j), q as usize)
    } else {
        exists|x: usize| #![trigger table_succ(st, child_sym(v, j), x)]
            table_succ(st, child_sym(v, j), x) && unshared_state_of(a, child_value(v, j), x as int)
    } by {
        if j + 1 == child_count(v) {
            assert(edge_succ(es, ids, child_sym(v, j), ids[es[j].1 as int]));
        } else {
            let c = es[j].1 as int;
            lemma_child_smaller(v, j);
            lemma_plain_key_state_of(a, t, keys, ids, child_value(v, j), c);
            assert(edge_succ(es, ids, child_sym(v, j), ids[c]));
            assert(table_succ(st, child_sym(v, j), ids[c]) && unshared_state_of(a, child_value(v, j), ids[c] as int));
        }
    }
    assert forall|s: DocSym, x: usize| #[trigger] table_succ(st, s, x) implies exists|j: int| #![trigger child_value(v, j)]
        0 <= j < child_count(v) && s == child_sym(v, j)
        && (if j + 1 == child_count(v) { x == q } else { unshared_state_of(a, child_value(v, j), x as int) }) by {
        assert(edge_succ(es, ids, s, x));
        let i = choose|i: int| 0 <= i < es.len() && edge_sym((#[trigger] es[i]).0) == s && x == ids[es[i].1 as int];
        assert(child_index(v, i));
        if i + 1 < child_count(v) {
            lemma_child_smaller(v, i);
            lemma_plain_key_state_of(a, t, keys, ids, child_value(v, i), es[i].1 as int);
        }
        assert(0 <= i < child_count(v) && s == child_sym(v, i)
            && (if i + 1 == child_count(v) { x == q } else { unshared_state_of(a, child_value(v, i), x as int) }));
    }
}

/// Some path leads the nondeterministic automaton from state 1 to `q`.
pub open spec fn tree_state_reached(a: &Automaton, q: usize) -> bool {
    exists|d: Seq<DocSym>| #[trigger] nfa_reaches(a, 1, d, q)
}

/// Every tree state is reached from state 1: each is the state of some node.
pub open spec fn all_tree_states_reached(a: &Automaton) -> bool {
    forall|q: usize| 1 <= q < a.states@.len() ==> #[trigger] tree_state_reached(a, q)
}

/// A path of the table is a run of the emitted automaton.
proof fn lemma_path_emitted(a: &Automaton, t: Seq<Option<TreeState>>, keys: Seq<usize>, ids: Seq<usize>, k: int, d: Seq<DocSym>, k2: int)
    requires
        emitted_from(a, t, keys, ids),
        0 <= k < t.len(),
        t[k] is Some,
        table_path(t, k, d, k2),
    ensures
        nfa_reaches(a, ids[k] as usize, d, ids[k2] as usize),
    decreases d.len(),
{
    if d.len() > 0 {
        lemma_emitted_key(a, t, keys, ids, k);
        let q = ids[k] as usize;
        let es = entry_edges(t, k);
        assert(entry_edges(t, keys[q - 1] as int) == es);
        let i = choose|i: int| 0 <= i < entry_edges(t, k).len() && edge_sym((#[trigger] entry_edges(t, k)[i]).0) == d[0]
            && table_path(t, entry_edges(t, k)[i].1 as int, d.drop_first(), k2);
        let c = es[i].1 as int;
        assert(c < t.len() && t[c] is Some);
        lemma_path_emitted(a, t, keys, ids, c, d.drop_first(), k2);
        assert(edge_succ(es, ids, d[0], ids[c] as usize));
        assert(table_succ(a.states@[q as int], d[0], ids[c] as usize));
        assert(nfa_successors(a, q, d[0]).contains(ids[c] as usize));
    }
}

/// From the state of key `k`, the emitted automaton can read exactly the
/// paths that the table can follow from `k`, and only into states of keys.
proof fn lemma_emitted_reaches(a: &Automaton, t: Seq<Option<TreeState>>, keys: Seq<usize>, ids: Seq<usize>, k: int, d: Seq<DocSym>)
    requires
        emitted_from(a, t, keys, ids),
        0 <= k < t.len(),
        t[k] is Some,
    ensures
        (exists|x: usize| #[trigger] nfa_reaches(a, ids[k] as usize, d, x)) == table_accepts(t, k, d),
        forall|x: usize| #[trigger] nfa_reaches(a, ids[k] as usize, d, x) ==> 1 <= x < a.states@.len(),
    decreases d.len(),
{
    lemma_emitted_key(a, t, keys, ids, k);
    let q = ids[k] as usize;
    let es = entry_edges(t, k);
    assert(entry_edges(t, keys[q - 1] as int) == es);
    if d.len() == 0 {
        assert(nfa_reaches(a, q, d, q));
    } else {
        let rest = d.drop_first();
        assert forall|q2: usize| #[trigger] nfa_successors(a, q, d[0]).contains(q2) <==> edge_succ(es, ids, d[0], q2) by {
            assert(nfa_successors(a, q, d[0]).contains(q2) == table_succ(a.states@[q as int], d[0], q2));
        }
        if exists|x: usize| nfa_reaches(a, q, d, x) {
            let x = choose|x: usize| nfa_reaches(a, q, d, x);
            let q2 = choose|q2: usize| #[trigger] nfa_successors(a, q, d[0]).contains(q2) && nfa_reaches(a, q2, d.drop_first(), x);
            let i = choose|i: int| 0 <= i < es.len() && edge_sym((#[trigger] es[i]).0) == d[0] && q2 == ids[es[i].1 as int];
            assert(es[i] == entry_edges(t, k)[i]);
            lemma_emitted_reaches(a, t, keys, ids, es[i].1 as int, rest);
            assert(nfa_reaches(a, ids[es[i].1 as int] as usize, rest, x));
            assert(table_accepts(t, es[i].1 as int, rest));
            assert(table_accepts(t, k, d));
        }
        if table_accepts(t, k, d) {
            let i = choose|i: int| 0 <= i < entry_edges(t, k).len() && edge_sym((#[trigger] entry_edges(t, k)[i]).0) == d[0]
                && table_accepts(t, entry_edges(t, k)[i].1 as int, d.drop_first());
            assert(es[i] == entry_edges(t, k)[i]);
            lemma_emitted_reaches(a, t, keys, ids, es[i].1 as int, rest);
            let q2 = ids[es[i].1 as int] as usize;
            assert(edge_succ(es, ids, d[0], q2));
            let x = choose|x: usize| #[trigger] nfa_reaches(a, q2, rest, x);
            assert(nfa_successors(a, q, d[0]).contains(q2));
            assert(nfa_reaches(a, q, d, x));
        }
        assert forall|x: usize| nfa_reaches(a, q, d, x) implies 1 <= x < a.states@.len() by {
            let q2 = choose|q2: usize| #[trigger] nfa_successors(a, q, d[0]).contains(q2) && nfa_reaches(a, q2, d.drop_first(), x);
            let i = choose|i: int| 0 <= i < es.len() && edge_sym((#[trigger] es[i]).0) == d[0] && q2 == ids[es[i].1 as int];
            assert(es[i] == entry_edges(t, k)[i]);
            lemma_emitted_reaches(a, t, keys, ids, es[i].1 as int, rest);
        }
    }
}


/// The number of keys that hold a state.
spec fn present_count(t: Seq<Option<TreeState>>) -> nat
    decreases t.len(),
{
    if t.len() == 0 {
        0
    } else {
        present_count(t.drop_last()) + if t.last() is Some { 1nat } else { 0nat }
    }
}

/// Every state of a tree automaton: accepting, falling back to state 0, with array transitions `[*]`.
pub open spec fn tree_state_shape(st: StateTable) -> bool {
    &&& st.accepting
    &&& st.fallback_state == 0
    &&& forall|k: int| 0 <= k < st.array_transitions@.len() ==> (#[trigger] st.array_transitions@[k]).label
        == (crate::automaton::ArrayLabel::Slice { start: 0, end: None, step: 1 })
        && st.array_transitions@[k].target >= 1
    &&& forall|k: int| 0 <= k < st.member_transitions@.len() ==> (#[trigger] st.member_transitions@[k]).1 >= 1
}

/// Two strictly sorted edge lists with the same edges are equal.
proof fn lemma_sorted_edges_determined(a: Seq<(Seq<char>, usize)>, b: Seq<(Seq<char>, usize)>)
    requires
        strictly_sorted_edges(a),
        strictly_sorted_edges(b),
        forall|l: Seq<char>, k: usize| has_edge(a, l, k) <==> has_edge(b, l, k),
    ensures
        a == b,
    decreases a.len() + b.len(),
{
    if a.len() == 0 {
        if b.len() > 0 {
            assert(has_edge(b, b[0].0, b[0].1));
        }
        assert(a =~= b);
    } else if b.len() == 0 {
        assert(has_edge(a, a[0].0, a[0].1));
    } else {
        assert(has_edge(a, a[0].0, a[0].1));
        assert(has_edge(b, b[0].0, b[0].1));
        let i = choose|i: int| 0 <= i < b.len() && #[trigger] b[i] == (a[0].0, a[0].1);
        let j = choose|j: int| 0 <= j < a.len() && #[trigger] a[j] == (b[0].0, b[0].1);
        if a[0] != b[0] {
            assert(i > 0 && j > 0);
            assert(edge_less(b[0], b[i]));
            assert(edge_less(a[0], a[j]));
            lemma_edge_less_total(a[0], b[0]);
        }
        let a1 = a.drop_first();
        let b1 = b.drop_first();
        assert forall|l: Seq<char>, k: usize| has_edge(a1, l, k) <==> has_edge(b1, l, k) by {
            if has_edge(a1, l, k) {
                let m = choose|m: int| 0 <= m < a1.len() && #[trigger] a1[m] == (l, k);
                assert(a[m + 1] == (l, k));
                assert(edge_less(a[0], a[m + 1]));
                lemma_edge_less_total(a[0], a[0]);
                assert(has_edge(a, l, k));
                let n = choose|n: int| 0 <= n < b.len() && #[trigger] b[n] == (l, k);
                assert(n != 0);
                assert(b1[n - 1] == (l, k));
            }
            if has_edge(b1, l, k) {
                let m = choose|m: int| 0 <= m < b1.len() && #[trigger] b1[m] == (l, k);
                assert(b[m + 1] == (l, k));
                assert(edge_less(b[0], b[m + 1]));
                lemma_edge_less_total(b[0], b[0]);
                assert(has_edge(b, l, k));
                let n = choose|n: int| 0 <= n < a.len() && #[trigger] a[n] == (l, k);
                assert(n != 0);
                assert(a1[n - 1] == (l, k));
            }
        }
        lemma_sorted_edges_determined(a1, b1);
        assert(a =~= seq![a[0]] + a1);
        assert(b =~= seq![b[0]] + b1);
    }
}

/// No two tree states have the same transitions: equal subtrees share one
/// state.
pub open spec fn no_twin_states(a: &Automaton) -> bool {
    forall|q1: int, q2: int| 1 <= q1 < a.states@.len() && 1 <= q2 < a.states@.len() && q1 != q2
        ==> !#[trigger] same_successors(a.states@[q1], a.states@[q2])
}

/// Two states have the same successors for every symbol.
pub open spec fn same_successors(st1: StateTable, st2: StateTable) -> bool {
    forall|s: DocSym, x: usize| table_succ(st1, s, x) == table_succ(st2, s, x)
}

/// Different sorted edge lists, under ids that tell targets apart, give
/// different successors.
proof fn lemma_different_edges(es1: Seq<(Seq<char>, usize)>, es2: Seq<(Seq<char>, usize)>, ids: Seq<usize>, t: Seq<Option<TreeState>>)
    requires
        strictly_sorted_edges(es1),
        strictly_sorted_edges(es2),
        es1 != es2,
        edges_to_states(t, es1),
        edges_to_states(t, es2),
        ids.len() == t.len(),
        forall|k1: int, k2: int| 0 <= k1 < t.len() && 0 <= k2 < t.len() && t[k1] is Some && t[k2] is Some && k1 != k2
            ==> #[trigger] ids[k1] != #[trigger] ids[k2],
    ensures
        exists|s: DocSym, x: usize| edge_succ(es1, ids, s, x) != edge_succ(es2, ids, s, x),
{
    if forall|l: Seq<char>, k: usize| has_edge(es1, l, k) <==> has_edge(es2, l, k) {
        lemma_sorted_edges_determined(es1, es2);
    }
    let (l, k) = choose|l: Seq<char>, k: usize| !(has_edge(es1, l, k) <==> has_edge(es2, l, k));
    let s = edge_sym(l);
    let x = ids[k as int];
    if has_edge(es1, l, k) {
        let i = choose|i: int| 0 <= i < es1.len() && #[trigger] es1[i] == (l, k);
        assert(es1[i].1 < t.len());
        assert(edge_succ(es1, ids, s, x));
        if edge_succ(es2, ids, s, x) {
            let j = choose|j: int| 0 <= j < es2.len() && edge_sym((#[trigger] es2[j]).0) == s && x == ids[es2[j].1 as int];
            assert(es2[j].1 < t.len());
            assert(es2[j].1 == k);
            assert(es2[j].0 == l) by {
                if es2[j].0.len() == 0 || l.len() == 0 {
                    assert(es2[j].0.len() == 0 && l.len() == 0);
                    assert(es2[j].0 =~= l);
                }
            }
            assert(has_edge(es2, l, k));
        }
        assert(edge_succ(es1, ids, s, x) != edge_succ(es2, ids, s, x));
    } else {
        let i = choose|i: int| 0 <= i < es2.len() && #[trigger] es2[i] == (l, k);
        assert(es2[i].1 < t.len());
        assert(edge_succ(es2, ids, s, x));
        if edge_succ(es1, ids, s, x) {
            let j = choose|j: int| 0 <= j < es1.len() && edge_sym((#[trigger] es1[j]).0) == s && x == ids[es1[j].1 as int];
            assert(es1[j].1 < t.len());
            assert(es1[j].1 == k);
            assert(es1[j].0 == l) by {
                if es1[j].0.len() == 0 || l.len() == 0 {
                    assert(es1[j].0.len() == 0 && l.len() == 0);
                    assert(es1[j].0 =~= l);
                }
            }
            assert(has_edge(es1, l, k));
        }
        assert(edge_succ(es1, ids, s, x) != edge_succ(es2, ids, s, x));
    }
}

impl JsonTreeBuilder {
    /// The automaton: the dumpster state 0, then the states of the keys,
    /// the root's first.
    fn build_automaton(&self, root: usize) -> (a: Automaton)
        requires
            self.inv(),
            root < self.states@.len(),
            self.states@[root as int] is Some,
        ensures
            a.wf(),
            is_dumpster(a.states@[0]),
            forall|q: int| 1 <= q < a.states@.len() ==> tree_state_shape(#[trigger] a.states@[q]),
            a.states@.len() == present_count(self.states@) + 1,
            forall|d: Seq<DocSym>| (exists|x: usize| #[trigger] nfa_reaches(&a, 1, d, x)) == #[trigger] table_accepts(self.states@, root as int, d),
            forall|d: Seq<DocSym>, x: usize| #[trigger] nfa_reaches(&a, 1, d, x) ==> 1 <= x < a.states@.len(),
            self.config.hash_cons ==> no_twin_states(&a),
            self.config.hash_cons && (forall|k: int| 0 <= k < self.states@.len() ==> #[trigger] table_reaches(self.states@, root as int, k))
                ==> all_tree_states_reached(&a),
            forall|v: JsonValue| #[trigger] has_key(self.states@, v, root as int) ==> state_of(&a, v, 1),
            forall|v: JsonValue| #[trigger] plain_key(self.states@, v, root as int) ==> unshared_state_of(&a, v, 1),
    {
        let n = self.states.len();
        let ghost t = self.states@;
        let mut keys: Vec<usize> = Vec::new();
        let mut k: usize = 0;
        while k < n
            invariant
                n == t.len(),
                t == self.states@,
                k <= n,
                keys@.len() == present_count(t.take(k as int)),
                keys@.len() <= k,
                forall|i: int| 0 <= i < keys@.len() ==> (#[trigger] keys@[i]) < k && t[keys@[i] as int] is Some,
                forall|i: int, j: int| 0 <= i < j < keys@.len() ==> (#[trigger] keys@[i]) < (#[trigger] keys@[j]),
                forall|j: int| 0 <= j < k && #[trigger] t[j] is Some ==> exists|i: int| 0 <= i < keys@.len() && keys@[i] == j,
            decreases n - k,
        {
            proof {
                assert(t.take(k + 1).drop_last() =~= t.take(k as int));
            }
            let ghost old_keys = keys@;
            if self.states[k].is_some() {
                keys.push(k);
            }
            k += 1;
            proof {
                assert forall|j: int| 0 <= j < k && #[trigger] t[j] is Some implies exists|i: int| 0 <= i < keys@.len() && keys@[i] == j by {
                    if j == k - 1 {
                        assert(keys@[keys@.len() - 1] == j);
                    } else {
                        let i = choose|i: int| 0 <= i < old_keys.len() && old_keys[i] == j;
                        assert(keys@[i] == old_keys[i]);
                    }
                }
            }
        }
        proof {
            assert(t.take(n as int) =~= t);
            let i = choose|i: int| 0 <= i < keys@.len() && keys@[i] == root;
        }
        let mut root_pos: usize = 0;
        while root_pos < keys.len() && keys[root_pos] != root
            invariant
                root_pos <= keys@.len(),
                exists|i: int| root_pos <= i < keys@.len() && keys@[i] == root,
            decreases keys@.len() - root_pos,
        {
            root_pos += 1;
        }
        let first = keys[0];
        let ghost before = keys@;
        keys.set(0, root);
        keys.set(root_pos, first);
        proof {
            assert forall|i: int, j: int| 0 <= i < keys@.len() && 0 <= j < keys@.len() && i != j implies keys@[i] != keys@[j] by {
                let pi = if i == 0 { root_pos as int } else if i == root_pos { 0int } else { i };
                let pj = if j == 0 { root_pos as int } else if j == root_pos { 0int } else { j };
                assert(keys@[i] == before[pi] && keys@[j] == before[pj]);
                if pi < pj {
                    assert(before[pi] < before[pj]);
                } else {
                    assert(before[pj] < before[pi]);
                }
            }
            assert forall|j: int| 0 <= j < n && #[trigger] t[j] is Some implies exists|i: int| 0 <= i < keys@.len() && keys@[i] == j by {
                let i = choose|i: int| 0 <= i < before.len() && before[i] == j;
                let pi = if i == 0 { root_pos as int } else if i == root_pos { 0int } else { i };
                assert(keys@[pi] == j);
            }
            assert forall|i: int| 0 <= i < keys@.len() implies (#[trigger] keys@[i]) < n && t[keys@[i] as int] is Some by {
                let pi = if i == 0 { root_pos as int } else if i == root_pos { 0int } else { i };
                assert(keys@[i] == before[pi]);
            }
        }
        let mut ids: Vec<usize> = Vec::new();
        let mut j: usize = 0;
        while j < n
            invariant
                j <= n,
                ids@.len() == j,
            decreases n - j,
        {
            ids.push(0);
            j += 1;
        }
        let mut i: usize = 0;
        while i < keys.len()
            invariant
                n == t.len(),
                ids@.len() == n,
                i <= keys@.len(),
                keys@.len() <= n,
                forall|a: int| 0 <= a < keys@.len() ==> (#[trigger] keys@[a]) < n,
                forall|a: int, b: int| 0 <= a < keys@.len() && 0 <= b < keys@.len() && a != b ==> #[trigger] keys@[a] != #[trigger] keys@[b],
                forall|a: int| 0 <= a < i ==> ids@[#[trigger] keys@[a] as int] == a + 1,
            decreases keys@.len() - i,
        {
            ids.set(keys[i], i + 1);
            i += 1;
        }
        let m = keys.len();
        let mut table: Vec<StateTable> = Vec::new();
        table.push(new_dumpster_state());
        let mut i: usize = 0;
        while i < m
            invariant
                self.inv(),
                t == self.states@,
                n == t.len(),
                m == keys@.len(),
                ids@.len() == n,
                i <= m,
                table@.len() == i + 1,
                is_dumpster(table@[0]),
                forall|a: int| 0 <= a < m ==> (#[trigger] keys@[a]) < n && t[keys@[a] as int] is Some && ids@[keys@[a] as int] == a + 1,
                forall|j: int| 0 <= j < n && #[trigger] t[j] is Some ==> exists|a: int| 0 <= a < m && keys@[a] == j,
                forall|q: int| 1 <= q < table@.len() ==> tree_state_shape(#[trigger] table@[q])
                    && table_targets_below_pub(table@[q], m as nat + 1),
                forall|q: int, s: DocSym, x: usize| 1 <= q < table@.len() ==>
                    #[trigger] table_succ(table@[q], s, x) == edge_succ(entry_edges(t, keys@[q - 1] as int), ids@, s, x),
            decreases m - i,
        {
            let key = keys[i];
            match &self.states[key] {
                Some(st) => {
                    proof {
                        assert(entry_edges(t, key as int) == edges_view(st.transitions@));
                        assert forall|e: int| 0 <= e < st.transitions@.len() implies (#[trigger] st.transitions@[e]).1 < ids@.len()
                            && 1 <= ids@[st.transitions@[e].1 as int] <= m by {
                            assert(entry_edges(t, key as int)[e] == edge_view(st.transitions@[e]));
                            let dest = st.transitions@[e].1 as int;
                            let a = choose|a: int| 0 <= a < m && keys@[a] == dest;
                        }
                    }
                    let emitted = emit_tree_state(st, &ids, m);
                    table.push(emitted);
                },
                None => {},
            }
            i += 1;
        }
        let a = Automaton::from_states(table);
        proof {
            assert(emitted_from(&a, t, keys@, ids@));
            let ghost root_i = choose|r: int| 0 <= r < m && keys@[r] == root;
            assert(ids@[root as int] == 1);
            assert forall|v: JsonValue| #[trigger] has_key(t, v, root as int) implies state_of(&a, v, 1) by {
                lemma_has_key_state_of(&a, t, keys@, ids@, v, root as int);
            }
            assert forall|v: JsonValue| #[trigger] plain_key(t, v, root as int) implies unshared_state_of(&a, v, 1) by {
                lemma_plain_key_state_of(&a, t, keys@, ids@, v, root as int);
            }
            assert forall|d: Seq<DocSym>| (exists|x: usize| #[trigger] nfa_reaches(&a, 1, d, x)) == #[trigger] table_accepts(t, root as int, d) by {
                lemma_emitted_reaches(&a, t, keys@, ids@, root as int, d);
                if exists|x: usize| #[trigger] nfa_reaches(&a, 1, d, x) {
                    let x = choose|x: usize| #[trigger] nfa_reaches(&a, 1, d, x);
                    assert(nfa_reaches(&a, ids@[root as int] as usize, d, x));
                }
                if table_accepts(t, root as int, d) {
                    let x = choose|x: usize| #[trigger] nfa_reaches(&a, ids@[root as int] as usize, d, x);
                    assert(nfa_reaches(&a, 1, d, x));
                }
            }
            assert forall|d: Seq<DocSym>, x: usize| #[trigger] nfa_reaches(&a, 1, d, x) implies 1 <= x < a.states@.len() by {
                lemma_emitted_reaches(&a, t, keys@, ids@, root as int, d);
            }
            assert forall|q: int| 0 <= q < a.states@.len() implies crate::automaton::table_targets_below(#[trigger] a.states@[q], a.states@.len()) by {}
            if self.config.hash_cons && (forall|k: int| 0 <= k < self.states@.len() ==> #[trigger] table_reaches(self.states@, root as int, k)) {
                assert forall|q: usize| 1 <= q < a.states@.len() implies #[trigger] tree_state_reached(&a, q) by {
                    let k = keys@[q - 1] as int;
                    assert(table_reaches(t, root as int, k));
                    let d = choose|d: Seq<DocSym>| #[trigger] table_path(t, root as int, d, k);
                    lemma_path_emitted(&a, t, keys@, ids@, root as int, d, k);
                    assert(ids@[k] == q);
                }
            }
            if self.config.hash_cons {
                assert forall|q1: int, q2: int| 1 <= q1 < a.states@.len() && 1 <= q2 < a.states@.len() && q1 != q2
                    implies !#[trigger] same_successors(a.states@[q1], a.states@[q2]) by {
                    let k1 = keys@[q1 - 1] as int;
                    let k2 = keys@[q2 - 1] as int;
                    assert(k1 != k2);
                    let es1 = entry_edges(t, k1);
                    let es2 = entry_edges(t, k2);
                    assert(es1 != es2);
                    assert forall|kk1: int, kk2: int| 0 <= kk1 < t.len() && 0 <= kk2 < t.len() && t[kk1] is Some && t[kk2] is Some && kk1 != kk2
                        implies #[trigger] ids@[kk1] != #[trigger] ids@[kk2] by {
                        let a1 = choose|a1: int| 0 <= a1 < m && keys@[a1] == kk1;
                        let a2 = choose|a2: int| 0 <= a2 < m && keys@[a2] == kk2;
                    }
                    assert(edges_to_states(t, es1)) by {
                        assert forall|j: int| 0 <= j < es1.len() implies (#[trigger] es1[j]).1 < t.len() && t[es1[j].1 as int] is Some by {}
                    }
                    assert(edges_to_states(t, es2)) by {
                        assert forall|j: int| 0 <= j < es2.len() implies (#[trigger] es2[j]).1 < t.len() && t[es2[j].1 as int] is Some by {}
                    }
                    lemma_different_edges(es1, es2, ids@, t);
                    let (s, x) = choose|s: DocSym, x: usize| edge_succ(es1, ids@, s, x) != edge_succ(es2, ids@, s, x);
                    assert(table_succ(a.states@[q1], s, x) == edge_succ(es1, ids@, s, x));
                    assert(table_succ(a.states@[q2], s, x) == edge_succ(es2, ids@, s, x));
                }
            }
        }
        a
    }
}

/// All targets of a state lie below `n`.
pub open spec fn table_targets_below_pub(st: StateTable, n: nat) -> bool {
    crate::automaton::table_targets_below(st, n)
}


/// The shape of a document automaton built from a tree: state 0 is a
/// dumpster and every other state is a tree state.
pub open spec fn is_tree_automaton(a: &Automaton) -> bool {
    &&& a.wf()
    &&& is_dumpster(a.states@[0])
    &&& forall|q: int| 1 <= q < a.states@.len() ==> tree_state_shape(#[trigger] a.states@[q])
}

/// Builds the nondeterministic document automaton of a JSON document.
#[derive(Debug, Clone)]
pub struct JsonNfaBuilder {
    config: JsonNfaBuilderConfig,
}

impl View for JsonNfaBuilder {
    type V = JsonNfaBuilderConfig;

    /// The configuration.
    closed spec fn view(&self) -> JsonNfaBuilderConfig {
        self.config
    }
}

impl Default for JsonNfaBuilder {
    fn default() -> (r: Self)
        ensures
            r@.hash_cons,
    {
        Self::new(JsonNfaBuilderConfig { hash_cons: true })
    }
}

/// The number of nodes of `v`, if it fits in a `usize`.
pub(crate) fn count_nodes(v: &JsonValue) -> (r: Option<usize>)
    ensures
        match r {
            Some(c) => c == node_count(*v),
            None => node_count(*v) > usize::MAX,
        },
    decreases v,
{
    let mut total: usize = 1;
    match v {
        JsonValue::Array(items) => {
            let mut i: usize = 0;
            while i < items.len()
                invariant
                    *v == JsonValue::Array(*items),
                    i <= items@.len(),
                    total == 1 + items_node_count(items@.take(i as int)),
                decreases items@.len() - i,
            {
                proof {
                    assert(items@.take(i + 1).drop_last() =~= items@.take(i as int));
                    lemma_items_node_count_prefix(items@, i + 1);
                }
                proof {
                    assert(decreases_to!(*v => (*v)->Array_0));
                    assert(decreases_to!(*items => items@));
                    assert(decreases_to!(items@ => items@[i as int]));
                }
                let sub = count_nodes(&items[i]);
                match sub {
                    Some(c) => {
                        match total.checked_add(c) {
                            Some(sum) => {
                                total = sum;
                            },
                            None => {
                                return None;
                            },
                        }
                    },
                    None => {
                        return None;
                    },
                }
                i += 1;
            }
            proof {
                assert(items@.take(items@.len() as int) =~= items@);
            }
        },
        JsonValue::Object(members) => {
            let mut i: usize = 0;
            while i < members.len()
                invariant
                    *v == JsonValue::Object(*members),
                    i <= members@.len(),
                    total == 1 + members_node_count(members@.take(i as int)),
                decreases members@.len() - i,
            {
                proof {
                    assert(members@.take(i + 1).drop_last() =~= members@.take(i as int));
                    lemma_members_node_count_prefix(members@, i + 1);
                }
                proof {
                    assert(decreases_to!(*v => (*v)->Object_0));
                    assert(decreases_to!(*members => members@));
                    assert(decreases_to!(members@ => members@[i as int]));
                    assert(decreases_to!(members@[i as int] => members@[i as int].1));
                }
                let sub = count_nodes(&members[i].1);
                match sub {
                    Some(c) => {
                        match total.checked_add(c) {
                            Some(sum) => {
                                total = sum;
                            },
                            None => {
                                return None;
                            },
                        }
                    },
                    None => {
                        return None;
                    },
                }
                i += 1;
            }
            proof {
                assert(members@.take(members@.len() as int) =~= members@);
            }
        },
        _ => {},
    }
    Some(total)
}

impl JsonNfaBuilder {
    /// A builder with the given configuration.
    pub fn new(config: JsonNfaBuilderConfig) -> (r: Self)
        ensures
            r@ == config,
    {
        Self { config }
    }

    /// The configuration.
    pub fn config(&self) -> (r: JsonNfaBuilderConfig)
        ensures
            r == self@,
    {
        self.config
    }

    /// The document automaton of `value`, and the counts of the build. With
    /// hash-consing, it reads (nondeterministically) exactly the paths of the
    /// document; state 1 is the state of the document; every tree state is
    /// the state of some value in the document and every value has one; two
    /// values have the same state exactly when they have the same shape, so
    /// that the tree states are as many as the shapes of the document's
    /// values; and no two tree states have the same transitions. Without
    /// hash-consing, a node's key is the number of nodes counted when it is
    /// finished, so a node's state replaces that of its last child, and
    /// state 1 is the state of the document in that sense
    /// ([`unshared_state_of`]).
    pub fn build(&self, value: &JsonValue) -> (res: (Automaton, JsonNfaBuildMetrics))
        requires
            node_count(*value) < usize::MAX,
        ensures
            is_tree_automaton(&res.0),
            res.1.json_node_count == node_count(*value),
            res.1.nfa_state_count + 1 == res.0.states@.len(),
            self@.hash_cons ==> forall|w: Seq<Symbol>| #[trigger] nfa_accepts(&res.0, w) == has_path(*value, doc_word(w)),
            self@.hash_cons ==> no_twin_states(&res.0),
            self@.hash_cons ==> all_tree_states_reached(&res.0),
            self@.hash_cons ==> state_of(&res.0, *value, 1),
            self@.hash_cons ==> forall|q: usize| 1 <= q < res.0.states@.len() ==> #[trigger] state_of_some_value(&res.0, *value, q as int),
            self@.hash_cons ==> forall|s: JsonValue| #[trigger] is_subtree(*value, s) ==> exists|q: int| #[trigger] state_of(&res.0, s, q),
            self@.hash_cons ==> forall|s1: JsonValue, s2: JsonValue, q1: int, q2: int|
                #[trigger] state_of(&res.0, s1, q1) && #[trigger] state_of(&res.0, s2, q2) ==> (q1 == q2 <==> same_shape(s1, s2)),
            !self@.hash_cons ==> unshared_state_of(&res.0, *value, 1),
    {
        let mut inner = JsonTreeBuilder::new(self.config);
        let ghost start = inner.states@;
        let root = inner.build_state(value);
        proof {
            if self@.hash_cons {
                assert forall|k: int| 0 <= k < inner.states@.len() implies #[trigger] table_reaches(inner.states@, root as int, k) by {
                    if k >= start.len() {
                        assert(table_reaches(inner.states@, root as int, k));
                    }
                }
            }
        }
        let automaton = inner.build_automaton(root);
        proof {
            if self@.hash_cons {
                let a = automaton;
                assert(state_of(&a, *value, 1));
                assert forall|q: usize| 1 <= q < a.states@.len() implies #[trigger] state_of_some_value(&a, *value, q as int) by {
                    assert(tree_state_reached(&a, q));
                    let d = choose|d: Seq<DocSym>| #[trigger] nfa_reaches(&a, 1, d, q);
                    lemma_reached_state_of(&a, *value, 1, d, q);
                }
                assert forall|s: JsonValue| #[trigger] is_subtree(*value, s) implies exists|q: int| #[trigger] state_of(&a, s, q) by {
                    lemma_subtree_has_state(&a, *value, 1, s);
                }
                assert forall|s1: JsonValue, s2: JsonValue, q1: int, q2: int|
                    #[trigger] state_of(&a, s1, q1) && #[trigger] state_of(&a, s2, q2) implies (q1 == q2 <==> same_shape(s1, s2)) by {
                    if q1 == q2 {
                        lemma_one_state_one_shape(&a, s1, s2, q1);
                    }
                    if same_shape(s1, s2) {
                        lemma_one_shape_one_state(&a, s1, s2, q1, q2);
                    }
                }
            }
        }
        let metrics = JsonNfaBuildMetrics {
            json_node_count: inner.json_node_count,
            nfa_state_count: automaton.states.len() - 1,
        };
        proof {
            let a = automaton;
            let t = inner.states@;
            assert forall|w: Seq<Symbol>| self@.hash_cons implies #[trigger] nfa_accepts(&a, w) == has_path(*value, doc_word(w)) by {
                let dw = doc_word(w);
                lemma_subset_run_from_initial(&a, dw);
                assert(table_accepts(t, root as int, dw) == has_path(*value, dw));
                if nfa_accepts(&a, w) {
                    let q = choose|q: usize| subset_run(&a, dw).contains(q) && q < a.states@.len() && (#[trigger] a.states@[q as int]).accepting;
                    lemma_subset_run_reaches(&a, 1, dw, q);
                    assert(nfa_reaches(&a, 1, dw, q));
                    assert(table_accepts(t, root as int, dw));
                }
                if has_path(*value, dw) {
                    assert(table_accepts(t, root as int, dw));
                    let x = choose|x: usize| #[trigger] nfa_reaches(&a, 1, dw, x);
                    lemma_subset_run_reaches(&a, 1, dw, x);
                    assert(tree_state_shape(a.states@[x as int]));
                    assert(subset_run(&a, dw).contains(x));
                }
            }
        }
        (automaton, metrics)
    }

    /// The document automaton of `value`, as [`JsonNfaBuilder::build`] gives it.
    pub fn from_value(&self, value: &JsonValue) -> (a: Automaton)
        requires
            node_count(*value) < usize::MAX,
        ensures
            is_tree_automaton(&a),
            self@.hash_cons ==> forall|w: Seq<Symbol>| #[trigger] nfa_accepts(&a, w) == has_path(*value, doc_word(w)),
            self@.hash_cons ==> no_twin_states(&a),
            self@.hash_cons ==> all_tree_states_reached(&a),
            self@.hash_cons ==> state_of(&a, *value, 1),
            self@.hash_cons ==> forall|q: usize| 1 <= q < a.states@.len() ==> #[trigger] state_of_some_value(&a, *value, q as int),
            self@.hash_cons ==> forall|s: JsonValue| #[trigger] is_subtree(*value, s) ==> exists|q: int| #[trigger] state_of(&a, s, q),
            self@.hash_cons ==> forall|s1: JsonValue, s2: JsonValue, q1: int, q2: int|
                #[trigger] state_of(&a, s1, q1) && #[trigger] state_of(&a, s2, q2) ==> (q1 == q2 <==> same_shape(s1, s2)),
            !self@.hash_cons ==> unshared_state_of(&a, *value, 1),
    {
        let (automaton, _metrics) = self.build(value);
        automaton
    }

    /// The document automaton of the JSON document `json`.
    pub fn from_json(&self, json: &str) -> (a: Automaton)
        requires
            parsed_json(json@) is Some,
            node_count(parsed_json(json@)->Some_0) < usize::MAX,
        ensures
            is_tree_automaton(&a),
            self@.hash_cons ==> forall|w: Seq<Symbol>| #[trigger] nfa_accepts(&a, w) == has_path(parsed_json(json@)->Some_0, doc_word(w)),
            self@.hash_cons ==> no_twin_states(&a),
            self@.hash_cons ==> all_tree_states_reached(&a),
            self@.hash_cons ==> state_of(&a, parsed_json(json@)->Some_0, 1),
            !self@.hash_cons ==> unshared_state_of(&a, parsed_json(json@)->Some_0, 1),
    {
        match parse_json(json) {
            Ok(value) => self.from_value(&value),
            Err(_) => {
                proof {
                    assert(false);
                }
                Automaton::from_states(Vec::new())
            },
        }
    }

    /// The document automaton of `json`, or `None` when `json` is not a JSON
    /// document (or has more nodes than a `usize` counts).
    pub fn try_from_json(&self, json: &str) -> (r: Option<Automaton>)
        ensures
            r is Some <==> (parsed_json(json@) is Some && node_count(parsed_json(json@)->Some_0) < usize::MAX),
            r matches Some(a) ==> is_tree_automaton(&a),
            r matches Some(a) ==> (self@.hash_cons ==> no_twin_states(&a) && all_tree_states_reached(&a)),
            r matches Some(a) ==> (self@.hash_cons ==> state_of(&a, parsed_json(json@)->Some_0, 1)),
            r matches Some(a) ==> (!self@.hash_cons ==> unshared_state_of(&a, parsed_json(json@)->Some_0, 1)),
            r matches Some(a) ==> (self@.hash_cons ==> forall|w: Seq<Symbol>| #[trigger] nfa_accepts(&a, w)
                == has_path(parsed_json(json@)->Some_0, doc_word(w))),
    {
        match parse_json(json) {
            Ok(value) => {
                match count_nodes(&value) {
                    Some(c) => {
                        if c < usize::MAX {
                            Some(self.from_json(json))
                        } else {
                            None
                        }
                    },
                    None => None,
                }
            },
            Err(_) => None,
        }
    }
}

} // verus!
