//! The automaton model shared by query automata and document automata.
//!
//! An automaton is a table of states. State `0` is, by convention, a state
//! that documents fall into when nothing else applies, and state `1` is the
//! initial state. Each state holds member transitions (by exact label, the
//! first matching one wins), array transitions (by index or slice, the first
//! matching one wins) and a fallback target for everything else.

use vstd::prelude::*;

verus! {

/// Largest index that a JSON array index can hold: `2^53 - 1`.
pub const JSON_UINT_MAX: u64 = 9007199254740991u64;

/// Label of an array transition.
#[derive(Debug, Clone, Copy, PartialEq, Eq)]
pub enum ArrayLabel {
    /// A single index.
    Index(u64),
    /// The indices `start, start + step, ...` below `end` (unbounded when `end` is `None`).
    Slice { start: u64, end: Option<u64>, step: u64 },
}

/// An array transition: a label and the state it leads to.
#[derive(Debug, Clone, Copy, PartialEq, Eq)]
pub struct ArrayTransition {
    pub label: ArrayLabel,
    pub target: usize,
}

/// A member transition: a member name and the state it leads to.
pub type MemberTransition = (String, usize);

/// One state of an automaton.
#[derive(Debug, Clone, PartialEq, Eq)]
pub struct StateTable {
    pub accepting: bool,
    pub member_transitions: Vec<MemberTransition>,
    pub array_transitions: Vec<ArrayTransition>,
    pub fallback_state: usize,
}

/// An automaton over member names and array indices.
#[derive(Debug, Clone, PartialEq, Eq)]
pub struct Automaton {
    pub states: Vec<StateTable>,
}

/// A step along a path in a document: a member name or an array index.
pub enum Symbol {
    Member(Seq<char>),
    Index(nat),
}

/// Whether an array label selects the index `i`. A slice with step zero selects nothing.
pub open spec fn label_matches(label: ArrayLabel, i: nat) -> bool {
    match label {
        ArrayLabel::Index(n) => i == n,
        ArrayLabel::Slice { start, end, step } => {
            &&& start <= i
            &&& (match end {
                Some(e) => i < e,
                None => true,
            })
            &&& step > 0
            &&& (i - start) % (step as int) == 0
        },
    }
}

/// Target of the first member transition labelled `label`, or `fallback` if there is none.
pub open spec fn member_target(ts: Seq<MemberTransition>, label: Seq<char>, fallback: usize) -> usize
    decreases ts.len(),
{
    if ts.len() == 0 {
        fallback
    } else if ts[0].0@ == label {
        ts[0].1
    } else {
        member_target(ts.drop_first(), label, fallback)
    }
}

/// Target of the first array transition whose label selects `i`, or `fallback` if there is none.
pub open spec fn array_target(ts: Seq<ArrayTransition>, i: nat, fallback: usize) -> usize
    decreases ts.len(),
{
    if ts.len() == 0 {
        fallback
    } else if label_matches(ts[0].label, i) {
        ts[0].target
    } else {
        array_target(ts.drop_first(), i, fallback)
    }
}

/// Whether some member transition carries the label `label`.
pub open spec fn has_member_label(ts: Seq<MemberTransition>, label: Seq<char>) -> bool {
    exists|k: int| 0 <= k < ts.len() && (#[trigger] ts[k]).0@ == label
}

/// All targets of a state lie below `n`.
pub open spec fn table_targets_below(t: StateTable, n: nat) -> bool {
    &&& t.fallback_state < n
    &&& forall|k: int| 0 <= k < t.member_transitions@.len() ==> (#[trigger] t.member_transitions@[k]).1 < n
    &&& forall|k: int| 0 <= k < t.array_transitions@.len() ==> (#[trigger] t.array_transitions@[k]).target < n
}

impl StateTable {
    /// The state reached from this one by `sym`.
    pub open spec fn step(&self, sym: Symbol) -> usize {
        match sym {
            Symbol::Member(label) => member_target(self.member_transitions@, label, self.fallback_state),
            Symbol::Index(i) => array_target(self.array_transitions@, i, self.fallback_state),
        }
    }

    /// Creates a state.
    pub fn new(
        accepting: bool,
        member_transitions: Vec<MemberTransition>,
        array_transitions: Vec<ArrayTransition>,
        fallback_state: usize,
    ) -> (r: StateTable)
        ensures
            r.accepting == accepting,
            r.member_transitions == member_transitions,
            r.array_transitions == array_transitions,
            r.fallback_state == fallback_state,
    {
        StateTable { accepting, member_transitions, array_transitions, fallback_state }
    }

    /// The fallback target.
    pub fn fallback_state(&self) -> (r: usize)
        ensures
            r == self.fallback_state,
    {
        self.fallback_state
    }
}

impl ArrayTransition {
    /// Creates an array transition.
    pub fn new(label: ArrayLabel, target: usize) -> (r: ArrayTransition)
        ensures
            r.label == label,
            r.target == target,
    {
        ArrayTransition { label, target }
    }

    /// Whether this transition's label selects `index`.
    pub fn matches(&self, index: u64) -> (r: bool)
        ensures
            r == label_matches(self.label, index as nat),
    {
        match self.label {
            ArrayLabel::Index(n) => index == n,
            ArrayLabel::Slice { start, end, step } => {
                if index < start {
                    return false;
                }
                match end {
                    Some(e) => {
                        if index >= e {
                            return false;
                        }
                    },
                    None => {},
                }
                if step == 0 {
                    return false;
                }
                (index - start) % step == 0
            },
        }
    }
}

impl Automaton {
    /// Every state has a table, the initial state exists and every target is a state.
    pub open spec fn wf(&self) -> bool {
        &&& self.states@.len() >= 2
        &&& forall|s: int| 0 <= s < self.states@.len() ==> table_targets_below(#[trigger] self.states@[s], self.states@.len())
    }

    /// The state reached from `s` along `w`.
    pub open spec fn run_from(&self, s: usize, w: Seq<Symbol>) -> usize
        decreases w.len(),
    {
        if w.len() == 0 {
            s
        } else {
            self.states@[self.run_from(s, w.drop_last()) as int].step(w.last())
        }
    }

    /// The state reached from the initial state along `w`.
    pub open spec fn run(&self, w: Seq<Symbol>) -> usize {
        self.run_from(1, w)
    }

    /// Whether the path `w` ends in an accepting state.
    pub open spec fn accepts(&self, w: Seq<Symbol>) -> bool {
        self.states@[self.run(w) as int].accepting
    }

    /// Builds an automaton from its state tables.
    pub fn from_states(states: Vec<StateTable>) -> (r: Automaton)
        ensures
            r.states == states,
    {
        Automaton { states }
    }

    /// The initial state.
    pub fn initial_state(&self) -> (r: usize)
        ensures
            r == 1,
    {
        1
    }

    /// Number of states.
    pub fn num_states(&self) -> (r: usize)
        ensures
            r == self.states@.len(),
    {
        self.states.len()
    }

    /// Whether `state` is accepting.
    pub fn is_accepting(&self, state: usize) -> (r: bool)
        requires
            state < self.states@.len(),
        ensures
            r == self.states@[state as int].accepting,
    {
        self.states[state].accepting
    }

    /// Whether this automaton selects exactly the root: two states, the
    /// initial one accepting with no transitions and falling back to state 0.
    pub fn is_select_root_query(&self) -> (r: bool)
        ensures
            r == (self.states@.len() == 2 && self.states@[1].member_transitions@.len() == 0
                && self.states@[1].array_transitions@.len() == 0 && self.states@[1].fallback_state == 0
                && self.states@[1].accepting),
    {
        self.states.len() == 2 && self.states[1].member_transitions.len() == 0
            && self.states[1].array_transitions.len() == 0 && self.states[1].fallback_state == 0
            && self.states[1].accepting
    }
}

/// A state of a well-formed automaton steps to a state.
pub proof fn lemma_step_in_range(a: &Automaton, s: int, sym: Symbol)
    requires
        a.wf(),
        0 <= s < a.states@.len(),
    ensures
        a.states@[s].step(sym) < a.states@.len(),
{
    let t = a.states@[s];
    assert(table_targets_below(t, a.states@.len()));
    match sym {
        Symbol::Member(l) => lemma_member_target_in(t.member_transitions@, l, t.fallback_state, a.states@.len()),
        Symbol::Index(i) => lemma_array_target_in(t.array_transitions@, i, t.fallback_state, a.states@.len()),
    }
}

/// Some path leads from `p` and from `q` to states of which exactly one accepts.
pub open spec fn states_distinguishable(a: &Automaton, p: usize, q: usize) -> bool {
    exists|w: Seq<Symbol>| a.states@[a.run_from(p, w) as int].accepting != a.states@[a.run_from(q, w) as int].accepting
}

/// Any two states of `a` are told apart by some path: no state could be
/// merged into another without changing what the automaton accepts.
pub open spec fn is_reduced(a: &Automaton) -> bool {
    forall|p: usize, q: usize|
        p < a.states@.len() && q < a.states@.len() && p != q ==> #[trigger] states_distinguishable(a, p, q)
}

/// Some path leads from the initial state to `s`.
pub open spec fn reachable(a: &Automaton, s: usize) -> bool {
    exists|w: Seq<Symbol>| a.run(w) == s
}

/// Every state is reached from the initial state along some path.
pub open spec fn all_reachable(a: &Automaton) -> bool {
    forall|s: usize| s < a.states@.len() ==> #[trigger] reachable(a, s)
}

/// Every state is reachable and no two states accept the same paths: the
/// two conditions that characterise a minimal deterministic automaton.
pub open spec fn is_minimal(a: &Automaton) -> bool {
    all_reachable(a) && is_reduced(a)
}

/// A run along `w` followed by `v` goes on from where `w` ends.
pub proof fn lemma_run_from_concat(a: &Automaton, s: usize, w: Seq<Symbol>, v: Seq<Symbol>)
    ensures
        a.run_from(s, w + v) == a.run_from(a.run_from(s, w), v),
    decreases v.len(),
{
    if v.len() == 0 {
        assert(w + v =~= w);
    } else {
        lemma_run_from_concat(a, s, w, v.drop_last());
        assert((w + v).drop_last() =~= w + v.drop_last());
        assert((w + v).last() == v.last());
    }
}

/// A path that reaches `s`, when there is one.
pub open spec fn path_to(a: &Automaton, s: usize) -> Seq<Symbol> {
    choose|w: Seq<Symbol>| a.run(w) == s
}

/// A minimal automaton has no more states than any automaton that accepts
/// the same paths.
pub proof fn lemma_minimal_is_smallest(a: &Automaton, b: &Automaton)
    requires
        a.wf(),
        b.wf(),
        is_minimal(a),
        forall|w: Seq<Symbol>| #[trigger] a.accepts(w) == b.accepts(w),
    ensures
        a.states@.len() <= b.states@.len(),
{
    let na = a.states@.len() as int;
    let nb = b.states@.len() as int;
    let f = |s: int| b.run(path_to(a, s as usize)) as int;
    let x = vstd::set_lib::set_int_range(0, na);
    let range_b = vstd::set_lib::set_int_range(0, nb);
    assert(a.states.len() == a.states@.len());
    vstd::set_lib::lemma_int_range(0, na);
    vstd::set_lib::lemma_int_range(0, nb);
    assert forall|s1: int, s2: int| x.contains(s1) && x.contains(s2) && #[trigger] f(s1) == #[trigger] f(s2) implies s1 == s2 by {
        if s1 != s2 {
            let p = s1 as usize;
            let q = s2 as usize;
            assert(p as int == s1 && q as int == s2);
            assert(reachable(a, p));
            assert(reachable(a, q));
            let w1 = path_to(a, p);
            let w2 = path_to(a, q);
            assert(states_distinguishable(a, p, q));
            let v = choose|v: Seq<Symbol>|
                a.states@[a.run_from(p, v) as int].accepting != a.states@[a.run_from(q, v) as int].accepting;
            lemma_run_from_concat(a, 1, w1, v);
            lemma_run_from_concat(a, 1, w2, v);
            lemma_run_from_concat(b, 1, w1, v);
            lemma_run_from_concat(b, 1, w2, v);
            assert(a.accepts(w1 + v) != a.accepts(w2 + v));
            assert(b.accepts(w1 + v) == b.accepts(w2 + v));
        }
    }
    let y = x.map(f);
    vstd::set_lib::lemma_map_size(x, y, f);
    assert forall|t: int| y.contains(t) implies range_b.contains(t) by {
        let s = choose|s: int| x.contains(s) && f(s) == t;
        lemma_run_in_range(b, 1, path_to(a, s as usize));
    }
    vstd::set_lib::lemma_len_subset(y, range_b);
}

/// Two minimal automata that accept the same paths have the same number of
/// states.
pub proof fn lemma_minimal_same_size(a: &Automaton, b: &Automaton)
    requires
        a.wf(),
        b.wf(),
        is_minimal(a),
        is_minimal(b),
        forall|w: Seq<Symbol>| #[trigger] a.accepts(w) == b.accepts(w),
    ensures
        a.states@.len() == b.states@.len(),
{
    lemma_minimal_is_smallest(a, b);
    lemma_minimal_is_smallest(b, a);
}

/// `f` renames the states of `a` into those of `b`: one to one, the
/// initial state to the initial state, keeping acceptance and every step.
pub open spec fn renames(a: &Automaton, b: &Automaton, f: spec_fn(usize) -> usize) -> bool {
    &&& a.states@.len() == b.states@.len()
    &&& f(1) == 1
    &&& forall|s: usize| s < a.states@.len() ==> #[trigger] f(s) < b.states@.len()
    &&& forall|s1: usize, s2: usize| s1 < a.states@.len() && s2 < a.states@.len() && #[trigger] f(s1) == #[trigger] f(s2) ==> s1 == s2
    &&& forall|s: usize| s < a.states@.len() ==> a.states@[s as int].accepting == b.states@[#[trigger] f(s) as int].accepting
    &&& forall|s: usize, sym: Symbol| s < a.states@.len() ==> #[trigger] f(a.states@[s as int].step(sym)) == b.states@[f(s) as int].step(sym)
}

/// `a` and `b` are the same automaton up to the numbering of their states.
pub open spec fn isomorphic(a: &Automaton, b: &Automaton) -> bool {
    exists|f: spec_fn(usize) -> usize| renames(a, b, f)
}

/// Into a reduced automaton `b` that accepts what `a` accepts, every path to
/// a state of `a` leads to the same state of `b`.
proof fn lemma_paths_agree(a: &Automaton, b: &Automaton, w1: Seq<Symbol>, w2: Seq<Symbol>)
    requires
        b.wf(),
        is_reduced(b),
        forall|w: Seq<Symbol>| #[trigger] a.accepts(w) == b.accepts(w),
        a.run(w1) == a.run(w2),
    ensures
        b.run(w1) == b.run(w2),
{
    let p = b.run(w1);
    let q = b.run(w2);
    if p != q {
        lemma_run_in_range(b, 1, w1);
        lemma_run_in_range(b, 1, w2);
        assert(states_distinguishable(b, p, q));
        let v = choose|v: Seq<Symbol>|
            b.states@[b.run_from(p, v) as int].accepting != b.states@[b.run_from(q, v) as int].accepting;
        lemma_run_from_concat(a, 1, w1, v);
        lemma_run_from_concat(a, 1, w2, v);
        lemma_run_from_concat(b, 1, w1, v);
        lemma_run_from_concat(b, 1, w2, v);
        assert(a.accepts(w1 + v) == a.accepts(w2 + v));
        assert(b.accepts(w1 + v) != b.accepts(w2 + v));
    }
}

/// Two minimal automata that accept the same paths are the same automaton
/// up to the numbering of their states.
pub proof fn lemma_minimal_isomorphic(a: &Automaton, b: &Automaton)
    requires
        a.wf(),
        b.wf(),
        is_minimal(a),
        is_minimal(b),
        forall|w: Seq<Symbol>| #[trigger] a.accepts(w) == b.accepts(w),
    ensures
        isomorphic(a, b),
{
    lemma_minimal_same_size(a, b);
    let na = a.states@.len();
    let f = |s: usize| b.run(path_to(a, s));
    assert forall|s: usize| s < na implies a.run(#[trigger] path_to(a, s)) == s by {
        assert(reachable(a, s));
    }
    // the initial state
    let e = Seq::<Symbol>::empty();
    assert(a.run(e) == 1);
    assert(1 < na);
    lemma_paths_agree(a, b, path_to(a, 1), e);
    assert(f(1) == 1);
    assert forall|s: usize| s < na implies #[trigger] f(s) < b.states@.len() by {
        lemma_run_in_range(b, 1, path_to(a, s));
    }
    assert forall|s1: usize, s2: usize| s1 < na && s2 < na && #[trigger] f(s1) == #[trigger] f(s2) implies s1 == s2 by {
        if s1 != s2 {
            let w1 = path_to(a, s1);
            let w2 = path_to(a, s2);
            assert(states_distinguishable(a, s1, s2));
            let v = choose|v: Seq<Symbol>|
                a.states@[a.run_from(s1, v) as int].accepting != a.states@[a.run_from(s2, v) as int].accepting;
            lemma_run_from_concat(a, 1, w1, v);
            lemma_run_from_concat(a, 1, w2, v);
            lemma_run_from_concat(b, 1, w1, v);
            lemma_run_from_concat(b, 1, w2, v);
            assert(a.accepts(w1 + v) != a.accepts(w2 + v));
            assert(b.accepts(w1 + v) == b.accepts(w2 + v));
        }
    }
    assert forall|s: usize| s < na implies a.states@[s as int].accepting == b.states@[#[trigger] f(s) as int].accepting by {
        let w = path_to(a, s);
        assert(a.accepts(w) == b.accepts(w));
    }
    assert forall|s: usize, sym: Symbol| s < na implies #[trigger] f(a.states@[s as int].step(sym)) == b.states@[f(s) as int].step(sym) by {
        let w = path_to(a, s);
        let w2 = w.push(sym);
        assert(w2.drop_last() =~= w);
        assert(w2.last() == sym);
        let t = a.states@[s as int].step(sym);
        assert(a.run(w2) == t);
        lemma_step_in_range(a, s as int, sym);
        lemma_paths_agree(a, b, path_to(a, t), w2);
        assert(b.run(w2) == b.states@[b.run(w) as int].step(sym));
    }
    assert(renames(a, b, f));
}

/// A run reads its first step, then the rest.
pub proof fn lemma_run_from_first(a: &Automaton, s: usize, w: Seq<Symbol>)
    requires
        w.len() > 0,
    ensures
        a.run_from(s, w) == a.run_from(a.states@[s as int].step(w[0]), w.drop_first()),
    decreases w.len(),
{
    let x = a.states@[s as int].step(w[0]);
    if w.len() == 1 {
        assert(w.drop_last() =~= Seq::<Symbol>::empty());
        assert(w.drop_first() =~= Seq::<Symbol>::empty());
        assert(w.last() == w[0]);
        assert(a.run_from(s, w.drop_last()) == s);
        assert(a.run_from(x, w.drop_first()) == x);
    } else {
        lemma_run_from_first(a, s, w.drop_last());
        assert(w.drop_last().drop_first() =~= w.drop_first().drop_last());
        assert(w.drop_last()[0] == w[0]);
        assert(w.drop_first().last() == w.last());
        assert(a.run_from(x, w.drop_first()) == a.states@[a.run_from(x, w.drop_first().drop_last()) as int].step(w.drop_first().last()));
        assert(a.run_from(s, w) == a.states@[a.run_from(s, w.drop_last()) as int].step(w.last()));
    }
}

/// A run of a well-formed automaton stays among its states.
pub proof fn lemma_run_in_range(a: &Automaton, s: usize, w: Seq<Symbol>)
    requires
        a.wf(),
        s < a.states@.len(),
    ensures
        a.run_from(s, w) < a.states@.len(),
    decreases w.len(),
{
    if w.len() > 0 {
        lemma_run_in_range(a, s, w.drop_last());
        lemma_step_in_range(a, a.run_from(s, w.drop_last()) as int, w.last());
    }
}

pub proof fn lemma_member_target_in(ts: Seq<MemberTransition>, l: Seq<char>, f: usize, n: nat)
    requires
        f < n,
        forall|k: int| 0 <= k < ts.len() ==> (#[trigger] ts[k]).1 < n,
    ensures
        member_target(ts, l, f) < n,
    decreases ts.len(),
{
    if ts.len() > 0 && ts[0].0@ != l {
        assert forall|k: int| 0 <= k < ts.drop_first().len() implies (#[trigger] ts.drop_first()[k]).1 < n by {
            assert(ts.drop_first()[k] == ts[k + 1]);
        }
        lemma_member_target_in(ts.drop_first(), l, f, n);
    }
}

pub proof fn lemma_array_target_in(ts: Seq<ArrayTransition>, i: nat, f: usize, n: nat)
    requires
        f < n,
        forall|k: int| 0 <= k < ts.len() ==> (#[trigger] ts[k]).target < n,
    ensures
        array_target(ts, i, f) < n,
    decreases ts.len(),
{
    if ts.len() > 0 && !label_matches(ts[0].label, i) {
        assert forall|k: int| 0 <= k < ts.drop_first().len() implies (#[trigger] ts.drop_first()[k]).target < n by {
            assert(ts.drop_first()[k] == ts[k + 1]);
        }
        lemma_array_target_in(ts.drop_first(), i, f, n);
    }
}

/// Without a transition carrying `label`, a member step takes the fallback.
pub proof fn lemma_member_target_absent(ts: Seq<MemberTransition>, l: Seq<char>, f: usize)
    requires
        !has_member_label(ts, l),
    ensures
        member_target(ts, l, f) == f,
    decreases ts.len(),
{
    if ts.len() > 0 {
        assert(ts[0].0@ != l);
        assert forall|k: int| 0 <= k < ts.drop_first().len() implies (#[trigger] ts.drop_first()[k]).0@ != l by {
            assert(ts.drop_first()[k] == ts[k + 1]);
        }
        lemma_member_target_absent(ts.drop_first(), l, f);
    }
}

/// The dead state: rejecting, without transitions, falling back to state 0.
pub fn new_dumpster_state() -> (r: StateTable)
    ensures
        !r.accepting,
        r.member_transitions@.len() == 0,
        r.array_transitions@.len() == 0,
        r.fallback_state == 0,
{
    StateTable::new(false, Vec::new(), Vec::new(), 0)
}

/// The array transition `[*]` to `target`: the slice from 0 with step 1.
pub fn new_array_transition(target: usize) -> (r: ArrayTransition)
    ensures
        r.label == (ArrayLabel::Slice { start: 0, end: None, step: 1 }),
        r.target == target,
{
    ArrayTransition::new(ArrayLabel::Slice { start: 0, end: None, step: 1 }, target)
}

/// The member transition labelled `label` to `target`. Labels are kept as
/// the member names' raw text; they are not escaped as JSON strings.
pub fn new_member_transition(label: &str, target: usize) -> (r: MemberTransition)
    ensures
        r.0@ == label@,
        r.1 == target,
{
    (label.to_owned(), target)
}

} // verus!
