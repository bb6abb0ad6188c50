use rsonpath_rewrite::automaton::{ArrayLabel, ArrayTransition, Automaton, StateTable};
use rsonpath_rewrite::optimizer::{repeated_queries, select_equivalent_candidates, CompiledCandidate};

fn state(accepting: bool, members: Vec<(&str, usize)>, arrays: Vec<ArrayTransition>, fallback: usize) -> StateTable {
    StateTable::new(
        accepting,
        members.into_iter().map(|(l, t)| (l.to_string(), t)).collect(),
        arrays,
        fallback,
    )
}

fn dead() -> StateTable {
    state(false, vec![], vec![], 0)
}

/// The automaton of `$.label`.
fn child(label: &str) -> Automaton {
    Automaton::from_states(vec![dead(), state(false, vec![(label, 2)], vec![], 0), state(true, vec![], vec![], 0)])
}

/// The automaton of `$..label`.
fn descendant(label: &str) -> Automaton {
    Automaton::from_states(vec![
        dead(),
        state(false, vec![(label, 2)], vec![], 1),
        state(true, vec![(label, 2)], vec![], 1),
    ])
}

/// The automaton of `$..*.title`.
fn descendant_any_title() -> Automaton {
    Automaton::from_states(vec![
        dead(),
        state(false, vec![], vec![], 2),
        state(false, vec![("title", 3)], vec![], 2),
        state(true, vec![("title", 3)], vec![], 2),
    ])
}

/// The automaton of `$.content.*.title`.
fn content_any_title() -> Automaton {
    Automaton::from_states(vec![
        dead(),
        state(false, vec![("content", 2)], vec![], 0),
        state(false, vec![], vec![], 3),
        state(false, vec![("title", 4)], vec![], 0),
        state(true, vec![], vec![], 0),
    ])
}

fn all_elements(target: usize) -> ArrayTransition {
    ArrayTransition::new(ArrayLabel::Slice { start: 0, end: None, step: 1 }, target)
}

fn document_schema_automaton() -> Automaton {
    Automaton::from_states(vec![
        state(false, vec![], vec![], 0),
        state(true, vec![("content", 2)], vec![], 0),
        state(true, vec![], vec![all_elements(3)], 0),
        state(true, vec![("title", 4), ("author", 5), ("length", 4), ("cast", 6)], vec![], 0),
        state(true, vec![], vec![], 0),
        state(true, vec![("name", 4), ("age", 4)], vec![], 0),
        state(true, vec![], vec![all_elements(5)], 0),
    ])
}

/// The candidates: each query parsed, printed, and marked when it is the
/// same query as an earlier one.
fn candidates(queries: Vec<(&str, Option<Automaton>)>) -> Vec<CompiledCandidate> {
    let parsed: Vec<_> = queries.iter().map(|(q, _)| rsonpath_syntax::parse(q).unwrap()).collect();
    let repeats = repeated_queries(&parsed);
    queries
        .into_iter()
        .zip(parsed)
        .zip(repeats)
        .map(|(((_, automaton), query), repeats)| CompiledCandidate { query: query.to_string(), automaton, repeats })
        .collect()
}

/// The texts of the selected candidates, in the order selected.
fn select(query: &Automaton, d: &Automaton, candidates: &[CompiledCandidate]) -> Vec<String> {
    select_equivalent_candidates(query, d, candidates)
        .into_iter()
        .map(|i| candidates[i].query.clone())
        .collect()
}

#[test]
fn optimizer_keeps_original_when_descendant_candidate_is_not_equivalent() {
    let d = child("a");
    let candidates = candidates(vec![("$.a", Some(child("a"))), ("$.b", Some(child("b")))]);
    assert_eq!(select(&child("a"), &d, &candidates), vec!["$['a']"]);
}

#[test]
fn optimizer_is_generator_agnostic() {
    let d = document_schema_automaton();
    let candidates = candidates(vec![
        ("$.content[*].title", Some(content_any_title())),
        ("$..title", Some(descendant("title"))),
        ("$.content[*].title", Some(content_any_title())),
    ]);
    assert_eq!(select(&content_any_title(), &d, &candidates), vec!["$..['title']", "$['content'][*]['title']"]);
}

#[test]
fn optimizer_finds_descendant_title_rewrites_sorted_by_text() {
    let d = document_schema_automaton();
    let candidates = candidates(vec![
        ("$.content[*].title", Some(content_any_title())),
        ("$..*.title", Some(descendant_any_title())),
        ("$..title", Some(descendant("title"))),
    ]);
    assert_eq!(
        select(&content_any_title(), &d, &candidates),
        vec!["$..['title']", "$..[*]['title']", "$['content'][*]['title']"]
    );
}

#[test]
fn candidates_that_did_not_compile_are_skipped() {
    let d = child("a");
    let candidates = candidates(vec![("$.a", Some(child("a"))), ("$..a", None)]);
    assert_eq!(select(&child("a"), &d, &candidates), vec!["$['a']"]);
}

#[test]
fn only_the_first_of_equal_queries_counts() {
    let d = child("a");
    let candidates = candidates(vec![("$.a", Some(child("a"))), ("$.x", None), ("$['x']", Some(child("a")))]);
    assert_eq!(select(&child("a"), &d, &candidates), vec!["$['a']"]);
}

#[test]
fn equal_queries_written_differently_repeat() {
    let parsed: Vec<_> = ["$.a", "$['a']", "$.b", "$[\"b\"]", "$.a"]
        .iter()
        .map(|q| rsonpath_syntax::parse(q).unwrap())
        .collect();
    assert_eq!(repeated_queries(&parsed), vec![false, true, false, true, true]);
    assert!(repeated_queries(&[]).is_empty());
}

#[test]
fn candidates_with_one_text_are_kept_in_their_order() {
    let d = child("a");
    let candidates = vec![
        CompiledCandidate { query: "$['b']".to_string(), automaton: Some(child("a")), repeats: false },
        CompiledCandidate { query: "$['a']".to_string(), automaton: Some(child("a")), repeats: false },
        CompiledCandidate { query: "$['a']".to_string(), automaton: Some(child("a")), repeats: false },
        CompiledCandidate { query: "$['a']".to_string(), automaton: Some(child("a")), repeats: true },
    ];
    assert_eq!(select_equivalent_candidates(&child("a"), &d, &candidates), vec![1, 2, 0]);
}

#[test]
fn no_candidates_give_no_rewrites() {
    assert!(select_equivalent_candidates(&child("a"), &child("a"), &[]).is_empty());
}
