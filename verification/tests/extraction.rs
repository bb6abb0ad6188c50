use rsonpath_rewrite::extraction::{extract_automaton_from_json, try_extract_automaton_from_json};
use rsonpath_rewrite::nfa_minimizer::{alphabet_from_automaton, determinize, NfaMinimizer};
use rsonpath_rewrite::preprocessor::JsonNfaBuilder;

#[test]
fn trivial_null() {
    let a = extract_automaton_from_json("null");
    assert!(a.is_select_root_query());
    assert!(a.is_accepting(1));
}

#[test]
fn lista_paths_example() {
    let json = r#"{"lista":[{"a":1,"b":2},{"a":2,"c":3}]}"#;
    let a = extract_automaton_from_json(json);
    assert!(a.is_accepting(a.initial_state()));
    assert_eq!(a.states[a.initial_state()].member_transitions.len(), 1);
}

#[test]
fn regression_state_counts_match_extraction() {
    let json = r#"{"lista":[{"a":1,"b":2},{"a":2,"c":3}]}"#;
    let legacy = extract_automaton_from_json(json);
    let nfa = JsonNfaBuilder::default().from_json(json);
    let via_minimizer = NfaMinimizer::default().minimize(&nfa);
    assert_eq!(legacy.num_states(), via_minimizer.num_states());
}

#[test]
fn hopcroft_reduces_or_preserves() {
    let json = r#"{"lista":[{"a":1,"b":2},{"a":2,"c":3}]}"#;
    let nfa = JsonNfaBuilder::default().from_json(json);
    let dfa_only = determinize(&nfa, &alphabet_from_automaton(&nfa));
    let minimized = NfaMinimizer::default().minimize(&nfa);
    assert!(minimized.num_states() <= dfa_only.num_states());
}

#[test]
fn scalar_empty_alphabet() {
    let nfa = JsonNfaBuilder::default().from_json("null");
    let min = NfaMinimizer::default().minimize(&nfa);
    assert!(min.is_select_root_query());
    assert!(min.is_accepting(1));
}

/// Follows member names from the initial state; array elements are read by index 0.
fn run(a: &rsonpath_rewrite::automaton::Automaton, path: &[&str]) -> usize {
    let mut state = a.initial_state();
    for step in path {
        let table = &a.states[state];
        let next = if *step == "[]" {
            table
                .array_transitions
                .iter()
                .find(|t| t.matches(0))
                .map_or(table.fallback_state, |t| t.target)
        } else {
            table
                .member_transitions
                .iter()
                .find(|(label, _)| label == step)
                .map_or(table.fallback_state, |(_, target)| *target)
        };
        state = next;
    }
    state
}

#[test]
fn extracted_automaton_accepts_the_document_paths() {
    let json = r#"{"lista":[{"a":1,"b":2},{"a":2,"c":3}]}"#;
    let a = extract_automaton_from_json(json);
    for path in [
        vec![],
        vec!["lista"],
        vec!["lista", "[]"],
        vec!["lista", "[]", "a"],
        vec!["lista", "[]", "b"],
        vec!["lista", "[]", "c"],
    ] {
        assert!(a.is_accepting(run(&a, &path)), "{path:?}");
    }
    for path in [
        vec!["a"],
        vec!["lista", "a"],
        vec!["lista", "[]", "d"],
        vec!["lista", "[]", "a", "a"],
        vec!["[]"],
    ] {
        assert!(!a.is_accepting(run(&a, &path)), "{path:?}");
    }
}

#[test]
fn extraction_merges_equal_subtrees() {
    // Both members lead to equal subtrees, so the minimal automaton has a
    // dumpster, the root, one state for the objects and one for the leaves.
    let a = extract_automaton_from_json(r#"{"x":{"k":1},"y":{"k":2}}"#);
    assert_eq!(a.num_states(), 4);
    assert_eq!(run(&a, &["x"]), run(&a, &["y"]));
}

#[test]
fn extraction_of_invalid_json_is_refused() {
    assert!(try_extract_automaton_from_json("{not json").is_none());
    assert!(try_extract_automaton_from_json("[1, 2]").is_some());
}

#[test]
fn empty_containers_select_the_root_only() {
    assert!(extract_automaton_from_json("[]").is_select_root_query());
    assert!(extract_automaton_from_json("{}").is_select_root_query());
}

#[test]
fn minimal_automaton_of_a_chain_has_one_state_per_depth() {
    let a = extract_automaton_from_json(r#"{"a":{"a":{"a":1}}}"#);
    assert_eq!(a.num_states(), 5);
    assert!(a.is_accepting(run(&a, &["a", "a", "a"])));
    assert!(!a.is_accepting(run(&a, &["a", "a", "a", "a"])));
}

#[test]
fn minimal_automaton_merges_array_elements() {
    let a = extract_automaton_from_json("[[1],[2,3]]");
    assert_eq!(a.num_states(), 4);
    assert!(a.is_accepting(run(&a, &["[]", "[]"])));
    assert!(!a.is_accepting(run(&a, &["[]", "[]", "[]"])));
}
