//! Shapes of JSON values and the states of a document automaton that stand
//! for them: two values have the same shape when their children, entered by
//! the same symbols, pairwise have the same shape.

use vstd::prelude::*;
use crate::automaton::Automaton;
use crate::json::{edge_sym, JsonValue};
use crate::nfa_minimizer::{nfa_reaches, nfa_successors, DocSym};
use crate::preprocessor::{no_twin_states, same_successors, table_succ};

verus! {

/// The number of children of `v`.
pub open spec fn child_count(v: JsonValue) -> int {
    match v {
        JsonValue::Object(members) => members@.len() as int,
        JsonValue::Array(items) => items@.len() as int,
        _ => 0,
    }
}

/// The `j`-th child of `v`.
pub open spec fn child_value(v: JsonValue, j: int) -> JsonValue {
    match v {
        JsonValue::Object(members) => members@[j].1,
        JsonValue::Array(items) => items@[j],
        _ => v,
    }
}

/// The `j`-th child of `v`, as named where a statement is about each child.
pub open spec fn child_of(v: JsonValue, j: int) -> JsonValue {
    child_value(v, j)
}

/// `j` is the index of a child of `v`.
pub open spec fn child_index(v: JsonValue, j: int) -> bool {
    0 <= j < child_count(v)
}

/// The label of the edge to the `j`-th child of `v`: the member name, or
/// the empty label for an array element.
pub open spec fn child_label(v: JsonValue, j: int) -> Seq<char> {
    match v {
        JsonValue::Object(members) => members@[j].0@,
        _ => Seq::empty(),
    }
}

/// The document symbol that enters the `j`-th child of `v`.
pub open spec fn child_sym(v: JsonValue, j: int) -> DocSym {
    edge_sym(child_label(v, j))
}

/// A child is smaller than its parent.
pub proof fn lemma_child_smaller(v: JsonValue, j: int)
    requires
        0 <= j < child_count(v),
    ensures
        decreases_to!(v => child_value(v, j)),
{
    match v {
        JsonValue::Object(members) => {
            assert(decreases_to!(v => v->Object_0));
            assert(decreases_to!(v->Object_0 => members@));
            assert(decreases_to!(members@ => members@[j]));
            assert(decreases_to!(members@[j] => members@[j].1));
        },
        JsonValue::Array(items) => {
            assert(decreases_to!(v => v->Array_0));
            assert(decreases_to!(v->Array_0 => items@));
            assert(decreases_to!(items@ => items@[j]));
        },
        _ => {},
    }
}

/// `s` is `v` or a value inside it.
pub open spec fn is_subtree(v: JsonValue, s: JsonValue) -> bool
    decreases v,
{
    v == s || exists|j: int| 0 <= j < child_count(v) && is_subtree(#[trigger] child_value(v, j), s)
}

/// `a` and `b` have the same shape: each child of one is entered by the same
/// symbol as a child of the other of the same shape. Member order, repeated
/// children and scalar values do not count.
pub open spec fn same_shape(a: JsonValue, b: JsonValue) -> bool
    decreases a,
{
    &&& forall|j: int| 0 <= j < child_count(a) ==> exists|m: int| #![trigger child_value(b, m)]
        0 <= m < child_count(b) && child_sym(b, m) == child_sym(a, j)
        && same_shape(#[trigger] child_of(a, j), child_value(b, m))
    &&& forall|m: int| 0 <= m < child_count(b) ==> exists|j: int| #![trigger child_value(a, j)]
        0 <= j < child_count(a) && child_sym(b, m) == child_sym(a, j)
        && same_shape(child_value(a, j), #[trigger] child_of(b, m))
}

/// State `q` of `a` is the state of `v`: reading the symbol of a child of
/// `v` it can move to a state of that child, and every move it can make is
/// to the state of a child entered by that symbol.
pub open spec fn state_of(a: &Automaton, v: JsonValue, q: int) -> bool
    decreases v,
{
    &&& 1 <= q < a.states@.len()
    &&& forall|j: int| #[trigger] child_index(v, j) ==> exists|x: usize| #![trigger table_succ(a.states@[q], child_sym(v, j), x)]
        table_succ(a.states@[q], child_sym(v, j), x) && state_of(a, child_value(v, j), x as int)
    &&& forall|s: DocSym, x: usize| #[trigger] table_succ(a.states@[q], s, x) ==> exists|j: int| #![trigger child_value(v, j)]
        0 <= j < child_count(v) && s == child_sym(v, j) && state_of(a, child_value(v, j), x as int)
}

/// Two values with the same state have the same shape.
pub proof fn lemma_one_state_one_shape(a: &Automaton, s1: JsonValue, s2: JsonValue, q: int)
    requires
        state_of(a, s1, q),
        state_of(a, s2, q),
    ensures
        same_shape(s1, s2),
    decreases s1,
{
    let st = a.states@[q];
    assert forall|j: int| 0 <= j < child_count(s1) implies exists|m: int|
        0 <= m < child_count(s2) && child_sym(s2, m) == child_sym(s1, j)
        && same_shape(#[trigger] child_of(s1, j), child_value(s2, m)) by {
        assert(child_of(s1, j) == child_value(s1, j));
        assert(child_index(s1, j));
        let x = choose|x: usize| table_succ(st, child_sym(s1, j), x) && state_of(a, child_value(s1, j), x as int);
        let m = choose|m: int| 0 <= m < child_count(s2) && child_sym(s1, j) == child_sym(s2, m)
            && state_of(a, child_value(s2, m), x as int);
        lemma_child_smaller(s1, j);
        lemma_one_state_one_shape(a, child_value(s1, j), child_value(s2, m), x as int);
        assert(0 <= m < child_count(s2) && child_sym(s2, m) == child_sym(s1, j)
            && same_shape(child_of(s1, j), child_value(s2, m)));
    }
    assert forall|m: int| 0 <= m < child_count(s2) implies exists|j: int|
        0 <= j < child_count(s1) && child_sym(s2, m) == child_sym(s1, j)
        && same_shape(child_value(s1, j), #[trigger] child_of(s2, m)) by {
        assert(child_of(s2, m) == child_value(s2, m));
        assert(child_index(s2, m));
        let x = choose|x: usize| table_succ(st, child_sym(s2, m), x) && state_of(a, child_value(s2, m), x as int);
        let j = choose|j: int| 0 <= j < child_count(s1) && child_sym(s2, m) == child_sym(s1, j)
            && state_of(a, child_value(s1, j), x as int);
        lemma_child_smaller(s1, j);
        lemma_one_state_one_shape(a, child_value(s1, j), child_value(s2, m), x as int);
        assert(0 <= j < child_count(s1) && child_sym(s2, m) == child_sym(s1, j)
            && same_shape(child_value(s1, j), child_of(s2, m)));
    }
}

/// In an automaton where no two states have the same transitions, values of
/// the same shape have the same state.
pub proof fn lemma_one_shape_one_state(a: &Automaton, s1: JsonValue, s2: JsonValue, q1: int, q2: int)
    requires
        no_twin_states(a),
        state_of(a, s1, q1),
        state_of(a, s2, q2),
        same_shape(s1, s2),
    ensures
        q1 == q2,
    decreases s1,
{
    let st1 = a.states@[q1];
    let st2 = a.states@[q2];
    assert forall|s: DocSym, x: usize| table_succ(st1, s, x) == table_succ(st2, s, x) by {
        if table_succ(st1, s, x) {
            let j = choose|j: int| 0 <= j < child_count(s1) && s == child_sym(s1, j) && state_of(a, child_value(s1, j), x as int);
            assert(child_of(s1, j) == child_value(s1, j));
            let m = choose|m: int| 0 <= m < child_count(s2) && child_sym(s2, m) == child_sym(s1, j)
                && same_shape(child_of(s1, j), child_value(s2, m));
            assert(child_of(s2, m) == child_value(s2, m));
            assert(child_index(s2, m));
            let y = choose|y: usize| table_succ(st2, child_sym(s2, m), y) && state_of(a, child_value(s2, m), y as int);
            lemma_child_smaller(s1, j);
            lemma_one_shape_one_state(a, child_value(s1, j), child_value(s2, m), x as int, y as int);
            assert(table_succ(st2, s, x));
        }
        if table_succ(st2, s, x) {
            let m = choose|m: int| 0 <= m < child_count(s2) && s == child_sym(s2, m) && state_of(a, child_value(s2, m), x as int);
            assert(child_of(s2, m) == child_value(s2, m));
            let j = choose|j: int| 0 <= j < child_count(s1) && child_sym(s2, m) == child_sym(s1, j)
                && same_shape(child_value(s1, j), child_of(s2, m));
            assert(child_of(s1, j) == child_value(s1, j));
            assert(child_index(s1, j));
            let y = choose|y: usize| table_succ(st1, child_sym(s1, j), y) && state_of(a, child_value(s1, j), y as int);
            lemma_child_smaller(s1, j);
            lemma_one_shape_one_state(a, child_value(s1, j), child_value(s2, m), y as int, x as int);
            assert(table_succ(st1, s, x));
        }
    }
    assert(same_successors(st1, st2));
}

/// Every state that a path leads to from the state of `v` is the state of a
/// value inside `v`.
pub proof fn lemma_reached_state_of(a: &Automaton, v: JsonValue, q: usize, d: Seq<DocSym>, x: usize)
    requires
        state_of(a, v, q as int),
        nfa_reaches(a, q, d, x),
    ensures
        exists|s: JsonValue| is_subtree(v, s) && #[trigger] state_of(a, s, x as int),
    decreases d.len(),
{
    if d.len() == 0 {
        assert(is_subtree(v, v));
    } else {
        let q2 = choose|q2: usize| #[trigger] nfa_successors(a, q, d[0]).contains(q2) && nfa_reaches(a, q2, d.drop_first(), x);
        assert(nfa_successors(a, q, d[0]).contains(q2) == table_succ(a.states@[q as int], d[0], q2));
        let j = choose|j: int| 0 <= j < child_count(v) && d[0] == child_sym(v, j) && state_of(a, child_value(v, j), q2 as int);
        lemma_reached_state_of(a, child_value(v, j), q2, d.drop_first(), x);
        let s = choose|s: JsonValue| is_subtree(child_value(v, j), s) && #[trigger] state_of(a, s, x as int);
        assert(is_subtree(v, s));
    }
}

/// State `q` of `a` is the state of some value inside `v`.
pub open spec fn state_of_some_value(a: &Automaton, v: JsonValue, q: int) -> bool {
    exists|s: JsonValue| is_subtree(v, s) && #[trigger] state_of(a, s, q)
}

/// When `a` has a state for `v`, it has one for every value inside `v`.
pub proof fn lemma_subtree_has_state(a: &Automaton, v: JsonValue, q: int, s: JsonValue)
    requires
        state_of(a, v, q),
        is_subtree(v, s),
    ensures
        exists|x: int| #[trigger] state_of(a, s, x),
    decreases v,
{
    if v == s {
        assert(state_of(a, s, q));
    } else {
        let j = choose|j: int| 0 <= j < child_count(v) && is_subtree(#[trigger] child_value(v, j), s);
        assert(child_index(v, j));
        assert(1 <= q < a.states@.len());
        assert(forall|jj: int| #[trigger] child_index(v, jj) ==> exists|x: usize| #![trigger table_succ(a.states@[q], child_sym(v, jj), x)]
            table_succ(a.states@[q], child_sym(v, jj), x) && state_of(a, child_value(v, jj), x as int));
        assert(exists|x: usize| table_succ(a.states@[q], child_sym(v, j), x) && state_of(a, child_value(v, j), x as int));
        let x = choose|x: usize| table_succ(a.states@[q], child_sym(v, j), x) && state_of(a, child_value(v, j), x as int);
        lemma_child_smaller(v, j);
        lemma_subtree_has_state(a, child_value(v, j), x as int, s);
        let y = choose|y: int| #[trigger] state_of(a, s, y);
        assert(state_of(a, s, y));
    }
}

/// Without sharing of equal subtrees: state `q` of `a` is the state of `v`
/// as the builder leaves it when each node's key is the number of nodes
/// counted when the node is finished. The last child of `v` finishes with the
/// same count, so `v`'s state replaced it: reading the last child's symbol
/// `q` moves back to itself. Reading the symbol of any other child it can
/// move to that child's state, and every move it can make is one of these.
pub open spec fn unshared_state_of(a: &Automaton, v: JsonValue, q: int) -> bool
    decreases v,
{
    &&& 1 <= q < a.states@.len()
    &&& forall|j: int| #[trigger] child_index(v, j) ==> if j + 1 == child_count(v) {
        table_succ(a.states@[q], child_sym(v, j), q as usize)
    } else {
        exists|x: usize| #![trigger table_succ(a.states@[q], child_sym(v, j), x)]
            table_succ(a.states@[q], child_sym(v, j), x) && unshared_state_of(a, child_value(v, j), x as int)
    }
    &&& forall|s: DocSym, x: usize| #[trigger] table_succ(a.states@[q], s, x) ==> exists|j: int| #![trigger child_value(v, j)]
        0 <= j < child_count(v) && s == child_sym(v, j)
        && (if j + 1 == child_count(v) { x == q } else { unshared_state_of(a, child_value(v, j), x as int) })
}

} // verus!
