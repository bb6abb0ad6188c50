//! Document automaton extraction: JSON → document NFA → minimal document DFA.

use vstd::prelude::*;

use crate::automaton::{is_minimal, Automaton, Symbol};
use crate::json::{depth, has_path, lemma_path_within_depth, node_count, parse_json, parsed_json, JsonValue};
use crate::nfa_minimizer::{
    doc_sym, doc_word, in_alphabet, is_document_dfa, lemma_subset_run_from_initial, lemma_subset_run_reaches, nfa_accepts,
    nfa_reaches, nfa_successors, reaches_empty_subset, is_scalar_root, live_transitions, subset_run, subset_run_from, symbol_of, DocSym, NfaMinimizer,
};
use crate::preprocessor::{is_tree_automaton, tree_state_shape, JsonNfaBuilder};

verus! {

/// From state 1 a tree automaton reaches states other than the dumpster only.
proof fn lemma_tree_reaches_valid(a: &Automaton, d: Seq<DocSym>, x: usize)
    requires
        is_tree_automaton(a),
        nfa_reaches(a, 1, d, x),
    ensures
        1 <= x < a.states@.len(),
    decreases d.len(),
{
    if d.len() > 0 {
        crate::nfa_minimizer::lemma_reaches_last(a, 1, d, x);
        let y = choose|y: usize| nfa_reaches(a, 1, d.drop_last(), y) && #[trigger] nfa_successors(a, y, d.last()).contains(x);
        lemma_tree_reaches_valid(a, d.drop_last(), y);
        let st = a.states@[y as int];
        assert(tree_state_shape(st));
        assert(crate::automaton::table_targets_below(st, a.states@.len()));
        match d.last() {
            DocSym::List => {
                let k = choose|k: int| 0 <= k < st.array_transitions@.len() && (#[trigger] st.array_transitions@[k]).target == x;
            },
            DocSym::Member(l) => {
                let k = choose|k: int| 0 <= k < st.member_transitions@.len() && (#[trigger] st.member_transitions@[k]).0@ == l
                    && st.member_transitions@[k].1 == x;
            },
        }
    }
}

/// A tree automaton accepts a path exactly when some run reads it.
proof fn lemma_tree_accepts(a: &Automaton, d: Seq<DocSym>)
    requires
        is_tree_automaton(a),
    ensures
        crate::nfa_minimizer::set_accepting(a, subset_run(a, d)) == (exists|x: usize| #[trigger] nfa_reaches(a, 1, d, x)),
{
    lemma_subset_run_from_initial(a, d);
    if crate::nfa_minimizer::set_accepting(a, subset_run(a, d)) {
        let q = choose|q: usize| subset_run(a, d).contains(q) && q < a.states@.len() && (#[trigger] a.states@[q as int]).accepting;
        lemma_subset_run_reaches(a, 1, d, q);
    }
    if exists|x: usize| #[trigger] nfa_reaches(a, 1, d, x) {
        let x = choose|x: usize| #[trigger] nfa_reaches(a, 1, d, x);
        lemma_tree_reaches_valid(a, d, x);
        lemma_subset_run_reaches(a, 1, d, x);
        assert(tree_state_shape(a.states@[x as int]));
    }
}

/// The automaton of a document reaches the empty set of states along a
/// word over its alphabet: one symbol repeated past the document's depth.
proof fn lemma_document_reaches_empty(a: &Automaton, v: JsonValue)
    requires
        is_tree_automaton(a),
        forall|w: Seq<Symbol>| #[trigger] nfa_accepts(a, w) == has_path(v, doc_word(w)),
        exists|s: DocSym| in_alphabet(a, s),
    ensures
        reaches_empty_subset(a, 1),
{
    let s0 = choose|s: DocSym| in_alphabet(a, s);
    let n = depth(v) + 1;
    let dw = Seq::new(n, |i: int| s0);
    let sw = Seq::new(n, |i: int| symbol_of(s0));
    assert(doc_word(sw) =~= dw) by {
        assert forall|i: int| 0 <= i < n implies doc_sym(#[trigger] sw[i]) == dw[i] by {}
    }
    if has_path(v, dw) {
        lemma_path_within_depth(v, dw);
    }
    assert(!nfa_accepts(a, sw));
    lemma_tree_accepts(a, dw);
    assert(subset_run_from(a, 1, dw) =~= Set::<usize>::empty()) by {
        assert forall|x: usize| !subset_run_from(a, 1, dw).contains(x) by {
            lemma_subset_run_reaches(a, 1, dw, x);
        }
    }
    assert forall|i: int| 0 <= i < dw.len() implies in_alphabet(a, #[trigger] dw[i]) by {}
}

/// Without any transition a tree automaton accepts the empty path only.
proof fn lemma_scalar_document(a: &Automaton, w: Seq<Symbol>)
    requires
        is_tree_automaton(a),
        !(exists|s: DocSym| in_alphabet(a, s)),
    ensures
        nfa_accepts(a, w) == (w.len() == 0),
{
    let d = doc_word(w);
    lemma_tree_accepts(a, d);
    if w.len() == 0 {
        assert(d.len() == 0);
        assert(nfa_reaches(a, 1, d, 1));
    } else {
        assert forall|x: usize| !#[trigger] nfa_reaches(a, 1, d, x) by {
            if nfa_reaches(a, 1, d, x) {
                let q2 = choose|q2: usize| #[trigger] nfa_successors(a, 1, d[0]).contains(q2) && nfa_reaches(a, q2, d.drop_first(), x);
                let st = a.states@[1];
                match d[0] {
                    DocSym::List => {
                        let k = choose|k: int| 0 <= k < st.array_transitions@.len() && (#[trigger] st.array_transitions@[k]).target == q2;
                        assert(in_alphabet(a, DocSym::List));
                    },
                    DocSym::Member(l) => {
                        let k = choose|k: int| 0 <= k < st.member_transitions@.len() && (#[trigger] st.member_transitions@[k]).0@ == l
                            && st.member_transitions@[k].1 == q2;
                        assert(in_alphabet(a, DocSym::Member(l)));
                    },
                }
            }
        }
    }
}

/// Builds the document automaton of a JSON document and minimises it.
struct DocumentExtractor {
    builder: JsonNfaBuilder,
    minimizer: NfaMinimizer,
}

impl DocumentExtractor {
    /// An extractor with hash-consing.
    fn new() -> (r: Self)
        ensures
            r.builder@.hash_cons,
    {
        Self { builder: JsonNfaBuilder::new(crate::preprocessor::JsonNfaBuilderConfig { hash_cons: true }), minimizer: NfaMinimizer }
    }

    /// The minimal document automaton of `value`.
    fn from_value(&self, value: &JsonValue) -> (r: Automaton)
        requires
            self.builder@.hash_cons,
            node_count(*value) < usize::MAX,
        ensures
            r.wf(),
            is_document_dfa(&r),
            forall|w: Seq<Symbol>| #[trigger] r.accepts(w) == has_path(*value, doc_word(w)),
            is_minimal(&r),
            live_transitions(&r),
            (forall|w: Seq<Symbol>| #[trigger] r.accepts(w) == (w.len() == 0)) ==> is_scalar_root(&r),
    {
        let nfa = self.builder.from_value(value);
        proof {
            if exists|s: DocSym| in_alphabet(&nfa, s) {
                lemma_document_reaches_empty(&nfa, *value);
            }
        }
        let result = self.minimizer.minimize(&nfa);
        proof {
            assert forall|w: Seq<Symbol>| #[trigger] result.accepts(w) == has_path(*value, doc_word(w)) by {
                if !(exists|s: DocSym| in_alphabet(&nfa, s)) {
                    lemma_scalar_document(&nfa, w);
                    assert(nfa_accepts(&nfa, w) == has_path(*value, doc_word(w)));
                }
            }
            let e = Seq::<Symbol>::empty();
            assert(doc_word(e) =~= Seq::<DocSym>::empty());
            assert(result.accepts(e));
        }
        result
    }
}

/// Minimising the document automaton that a hash-consing builder makes of a
/// document gives the automaton that extraction gives, up to the numbering
/// of the states (so with as many states): both are minimal automata of the
/// document's paths.
pub proof fn lemma_extraction_matches_minimizer(json: Seq<char>, extracted: &Automaton, nfa: &Automaton, minimized: &Automaton)
    requires
        parsed_json(json) is Some,
        extracted.wf(),
        is_minimal(extracted),
        forall|w: Seq<Symbol>| #[trigger] extracted.accepts(w) == has_path(parsed_json(json)->Some_0, doc_word(w)),
        is_tree_automaton(nfa),
        forall|w: Seq<Symbol>| #[trigger] nfa_accepts(nfa, w) == has_path(parsed_json(json)->Some_0, doc_word(w)),
        minimized.wf(),
        (exists|s: DocSym| in_alphabet(nfa, s)) ==> forall|w: Seq<Symbol>| #[trigger] minimized.accepts(w) == nfa_accepts(nfa, w),
        !(exists|s: DocSym| in_alphabet(nfa, s)) ==> forall|w: Seq<Symbol>| #[trigger] minimized.accepts(w) == (w.len() == 0),
        (exists|w: Seq<Symbol>| #[trigger] minimized.accepts(w)) ==> is_minimal(minimized),
    ensures
        extracted.states@.len() == minimized.states@.len(),
        crate::automaton::isomorphic(extracted, minimized),
{
    let v = parsed_json(json)->Some_0;
    assert forall|w: Seq<Symbol>| #[trigger] minimized.accepts(w) == extracted.accepts(w) by {
        if !(exists|s: DocSym| in_alphabet(nfa, s)) {
            lemma_scalar_document(nfa, w);
            assert(nfa_accepts(nfa, w) == has_path(v, doc_word(w)));
        }
    }
    let e = Seq::<Symbol>::empty();
    assert(doc_word(e) =~= Seq::<DocSym>::empty());
    assert(minimized.accepts(e) == extracted.accepts(e));
    assert(minimized.accepts(e));
    crate::automaton::lemma_minimal_same_size(extracted, minimized);
    crate::automaton::lemma_minimal_isomorphic(extracted, minimized);
}

/// The minimal document automaton of the JSON document `json`: it accepts
/// exactly the paths of the document, reading every array element alike.
pub fn extract_automaton_from_json(json: &str) -> (r: Automaton)
    requires
        parsed_json(json@) is Some,
        node_count(parsed_json(json@)->Some_0) < usize::MAX,
    ensures
        r.wf(),
        is_document_dfa(&r),
        forall|w: Seq<Symbol>| #[trigger] r.accepts(w) == has_path(parsed_json(json@)->Some_0, doc_word(w)),
        is_minimal(&r),
        live_transitions(&r),
        (forall|w: Seq<Symbol>| #[trigger] r.accepts(w) == (w.len() == 0)) ==> is_scalar_root(&r),
{
    let extractor = DocumentExtractor::new();
    match parse_json(json) {
        Ok(value) => extractor.from_value(&value),
        Err(_) => {
            proof {
                assert(false);
            }
            Automaton::from_states(Vec::new())
        },
    }
}

/// The minimal document automaton of `json`, or `None` when `json` is not a
/// JSON document (or has more nodes than a `usize` counts).
pub fn try_extract_automaton_from_json(json: &str) -> (r: Option<Automaton>)
    ensures
        r is Some <==> (parsed_json(json@) is Some && node_count(parsed_json(json@)->Some_0) < usize::MAX),
        r matches Some(a) ==> a.wf() && is_document_dfa(&a) && is_minimal(&a) && live_transitions(&a)
            && ((forall|w: Seq<Symbol>| #[trigger] a.accepts(w) == (w.len() == 0)) ==> is_scalar_root(&a))
            && forall|w: Seq<Symbol>| #[trigger] a.accepts(w) == has_path(parsed_json(json@)->Some_0, doc_word(w)),
{
    match parse_json(json) {
        Ok(value) => {
            match crate::preprocessor::count_nodes(&value) {
                Some(c) => {
                    if c < usize::MAX {
                        Some(extract_automaton_from_json(json))
                    } else {
                        None
                    }
                },
                None => None,
            }
        },
        Err(_) => None,
    }
}

} // verus!
