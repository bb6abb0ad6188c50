use rsonpath_rewrite::arith::{gcd, lcm};
use rsonpath_rewrite::automaton::{ArrayLabel, ArrayTransition, Automaton, StateTable};
use rsonpath_rewrite::product::{has_nonempty_intersection_of_symmetric_difference, try_has_nonempty_intersection_of_symmetric_difference};

fn state(accepting: bool, members: Vec<(&str, usize)>, arrays: Vec<ArrayTransition>, fallback: usize) -> StateTable {
    StateTable::new(
        accepting,
        members.into_iter().map(|(l, t)| (l.to_string(), t)).collect(),
        arrays,
        fallback,
    )
}

fn dead() -> StateTable {
    state(false, vec![], vec![], 0)
}

/// The automaton of `$.label`.
fn child(label: &str) -> Automaton {
    Automaton::from_states(vec![dead(), state(false, vec![(label, 2)], vec![], 0), state(true, vec![], vec![], 0)])
}

/// The automaton of `$[i]`.
fn index(i: u64) -> Automaton {
    Automaton::from_states(vec![
        dead(),
        state(false, vec![], vec![ArrayTransition::new(ArrayLabel::Index(i), 2)], 0),
        state(true, vec![], vec![], 0),
    ])
}

/// The automaton of `$[start:end:step]`.
fn slice(start: u64, end: u64, step: u64) -> Automaton {
    Automaton::from_states(vec![
        dead(),
        state(
            false,
            vec![],
            vec![ArrayTransition::new(ArrayLabel::Slice { start, end: Some(end), step }, 2)],
            0,
        ),
        state(true, vec![], vec![], 0),
    ])
}

/// The automaton of `$..label`.
fn descendant(label: &str) -> Automaton {
    Automaton::from_states(vec![
        dead(),
        state(false, vec![(label, 2)], vec![], 1),
        state(true, vec![(label, 2)], vec![], 1),
    ])
}

/// The automaton of `$.*.*.*.*.name`.
fn four_wildcards_then_name() -> Automaton {
    Automaton::from_states(vec![
        dead(),
        state(false, vec![], vec![], 2),
        state(false, vec![], vec![], 3),
        state(false, vec![], vec![], 4),
        state(false, vec![], vec![], 5),
        state(false, vec![("name", 6)], vec![], 0),
        state(true, vec![], vec![], 0),
    ])
}

/// The automaton of `$.content.*.title`.
fn content_any_title() -> Automaton {
    Automaton::from_states(vec![
        dead(),
        state(false, vec![("content", 2)], vec![], 0),
        state(false, vec![], vec![], 3),
        state(false, vec![("title", 4)], vec![], 0),
        state(true, vec![], vec![], 0),
    ])
}

fn all_elements(target: usize) -> ArrayTransition {
    ArrayTransition::new(ArrayLabel::Slice { start: 0, end: None, step: 1 }, target)
}

fn document_schema_automaton() -> Automaton {
    Automaton::from_states(vec![
        state(false, vec![], vec![], 0),
        state(true, vec![("content", 2)], vec![], 0),
        state(true, vec![], vec![all_elements(3)], 0),
        state(true, vec![("title", 4), ("author", 5), ("length", 4), ("cast", 6)], vec![], 0),
        state(true, vec![], vec![], 0),
        state(true, vec![("name", 4), ("age", 4)], vec![], 0),
        state(true, vec![], vec![all_elements(5)], 0),
    ])
}

#[test]
fn product_detects_nonempty_member_language() {
    let q1 = child("a");
    let q2 = child("b");
    let d = child("a");

    assert!(has_nonempty_intersection_of_symmetric_difference(&q1, &q2, &d));
}

#[test]
fn product_detects_empty_member_language() {
    let q1 = child("a");
    let q2 = child("a");
    let d = child("a");

    assert!(!has_nonempty_intersection_of_symmetric_difference(&q1, &q2, &d));
}

#[test]
fn product_detects_nonempty_array_language() {
    let q1 = index(2);
    let q2 = slice(1, 5, 2);
    let d = index(3);

    assert!(has_nonempty_intersection_of_symmetric_difference(&q1, &q2, &d));
}

#[test]
fn product_detects_empty_array_language() {
    let q1 = index(2);
    let q2 = index(2);
    let d = index(2);

    assert!(!has_nonempty_intersection_of_symmetric_difference(&q1, &q2, &d));
}

#[test]
fn schema_document_distinguishes_four_step_name_and_descendant_name() {
    let q1 = four_wildcards_then_name();
    let q2 = descendant("name");
    let d = document_schema_automaton();

    assert!(has_nonempty_intersection_of_symmetric_difference(&q1, &q2, &d));
}

#[test]
fn schema_document_equates_content_title_and_descendant_title() {
    let q1 = content_any_title();
    let q2 = descendant("title");
    let d = document_schema_automaton();

    assert!(!has_nonempty_intersection_of_symmetric_difference(&q1, &q2, &d));
}

#[test]
fn a_query_agrees_with_itself_on_any_document() {
    let q = descendant("name");
    let d = document_schema_automaton();
    assert!(!has_nonempty_intersection_of_symmetric_difference(&q, &q, &d));
}

#[test]
fn slices_that_select_the_same_indices_agree() {
    // $[1:5:2] selects 1 and 3; on documents whose only array path is index 3 it agrees with $[3]
    let d = index(3);
    assert!(!has_nonempty_intersection_of_symmetric_difference(&slice(1, 5, 2), &index(3), &d));
}

#[test]
fn gcd_and_lcm_values() {
    assert_eq!(gcd(12, 18), 6);
    assert_eq!(gcd(7, 0), 7);
    assert_eq!(gcd(0, 0), 0);
    assert_eq!(lcm(4, 6), 12);
    assert_eq!(lcm(0, 5), 0);
    assert_eq!(lcm(5, 0), 0);
}

#[test]
fn the_search_reports_a_scan_beyond_json_indices() {
    let largest = 9007199254740991u64;
    assert_eq!(try_has_nonempty_intersection_of_symmetric_difference(&child("a"), &child("a"), &child("a")), Some(false));
    assert_eq!(try_has_nonempty_intersection_of_symmetric_difference(&child("a"), &child("b"), &child("a")), Some(true));
    // expanding the initial product state would scan past the largest index
    assert_eq!(try_has_nonempty_intersection_of_symmetric_difference(&index(largest), &index(0), &index(0)), None);
    // a disagreement at the initial state is found before any scan
    let root_and_huge_index = Automaton::from_states(vec![
        dead(),
        state(true, vec![], vec![ArrayTransition::new(ArrayLabel::Index(largest), 2)], 0),
        state(true, vec![], vec![], 0),
    ]);
    let everything = Automaton::from_states(vec![dead(), state(true, vec![], vec![], 1)]);
    assert_eq!(
        try_has_nonempty_intersection_of_symmetric_difference(&root_and_huge_index, &index(0), &everything),
        Some(true)
    );
}
