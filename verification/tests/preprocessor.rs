use rsonpath_rewrite::json::JsonValue;
use rsonpath_rewrite::preprocessor::{JsonNfaBuilder, JsonNfaBuilderConfig};

#[test]
fn default_builder_uses_hash_consing() {
    assert!(JsonNfaBuilder::default().config().hash_cons);
    assert!(JsonNfaBuilderConfig::default().hash_cons);
    let b = JsonNfaBuilder::new(JsonNfaBuilderConfig { hash_cons: false });
    assert!(!b.config().hash_cons);
}

#[test]
fn build_counts_nodes_and_shares_equal_subtrees() {
    let value = JsonValue::Array(vec![JsonValue::Null, JsonValue::Bool(true), JsonValue::Number("1".to_string())]);
    let (automaton, metrics) = JsonNfaBuilder::default().build(&value);
    assert_eq!(metrics.json_node_count, 4);
    // the three leaves share the leaf state; the array has its own state
    assert_eq!(metrics.nfa_state_count, 2);
    assert_eq!(automaton.num_states(), 3);
    let root = &automaton.states[1];
    assert_eq!(root.array_transitions.len(), 1);
    assert!(root.member_transitions.is_empty());
}

#[test]
fn build_without_hash_consing_keeps_nodes_apart() {
    let value = JsonValue::Array(vec![JsonValue::Null, JsonValue::Null]);
    let (automaton, metrics) = JsonNfaBuilder::new(JsonNfaBuilderConfig { hash_cons: false }).build(&value);
    assert_eq!(metrics.json_node_count, 3);
    assert_eq!(metrics.nfa_state_count + 1, automaton.num_states());
}

#[test]
fn object_members_become_member_transitions() {
    let nfa = JsonNfaBuilder::default().from_json(r#"{"b":1,"a":[2]}"#);
    let root = &nfa.states[1];
    assert!(root.accepting);
    assert_eq!(root.fallback_state, 0);
    let labels: Vec<&str> = root.member_transitions.iter().map(|(l, _)| l.as_str()).collect();
    assert_eq!(labels, vec!["a", "b"]);
    assert!(!nfa.states[0].accepting);
}

#[test]
fn invalid_json_gives_no_automaton() {
    assert!(JsonNfaBuilder::default().try_from_json("[1,").is_none());
    assert!(JsonNfaBuilder::default().try_from_json("[1]").is_some());
}

#[test]
fn without_hash_consing_a_parent_replaces_its_last_child() {
    // The key of a node is the number of nodes seen when it is finished, so
    // the root of `{"a":1}` and its only child share a key and the root's
    // state replaces the child's: the member `a` loops on the root.
    let nfa = JsonNfaBuilder::new(JsonNfaBuilderConfig { hash_cons: false }).try_from_json(r#"{"a":1}"#).unwrap();
    let root = &nfa.states[1];
    assert_eq!(root.member_transitions, vec![("a".to_string(), 1)]);
}

#[test]
fn build_of_lista_document_shares_the_leaves() {
    let nfa_builder = JsonNfaBuilder::default();
    let value = JsonValue::Object(vec![(
        "lista".to_string(),
        JsonValue::Array(vec![
            JsonValue::Object(vec![
                ("a".to_string(), JsonValue::Number("1".to_string())),
                ("b".to_string(), JsonValue::Number("2".to_string())),
            ]),
            JsonValue::Object(vec![
                ("a".to_string(), JsonValue::Number("2".to_string())),
                ("c".to_string(), JsonValue::Number("3".to_string())),
            ]),
        ]),
    )]);
    let (automaton, metrics) = nfa_builder.build(&value);
    assert_eq!(metrics.json_node_count, 8);
    assert_eq!(metrics.nfa_state_count, 5);
    assert_eq!(automaton.num_states(), 6);
    assert_eq!(automaton.states[1].member_transitions.len(), 1);
}

#[test]
fn values_of_one_shape_share_a_state() {
    // the two inner objects list their members in another order, and the two
    // inner arrays differ only in how many elements they repeat
    let objects = JsonNfaBuilder::default().try_from_json(r#"{"x":{"a":1,"b":2},"y":{"b":true,"a":null}}"#).unwrap();
    assert_eq!(objects.num_states(), 4);
    let arrays = JsonNfaBuilder::default().try_from_json(r#"[[1],[1,2]]"#).unwrap();
    assert_eq!(arrays.num_states(), 4);
    let differing = JsonNfaBuilder::default().try_from_json(r#"[{"a":1},{"b":1}]"#).unwrap();
    assert_eq!(differing.num_states(), 5);
}

#[test]
fn without_hash_consing_each_parent_loops_on_its_last_child() {
    let nfa = JsonNfaBuilder::new(JsonNfaBuilderConfig { hash_cons: false }).try_from_json(r#"[{"a":1},{"b":2}]"#).unwrap();
    let root = &nfa.states[1];
    assert!(root.member_transitions.is_empty());
    let targets: Vec<usize> = root.array_transitions.iter().map(|t| t.target).collect();
    assert_eq!(targets.len(), 2);
    assert_eq!(targets[1], 1);
    let first = targets[0];
    assert_ne!(first, 1);
    assert_eq!(nfa.states[first].member_transitions, vec![("a".to_string(), first)]);
}
