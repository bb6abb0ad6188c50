//! Subset determinisation and Hopcroft minimisation of document automata.
//!
//! A document automaton is read as a nondeterministic automaton over the
//! document alphabet: member names, and one symbol for "some array element"
//! that every array transition reads regardless of its label.

use vstd::prelude::*;
use std::collections::HashMap;

use crate::automaton::{
    has_member_label, is_minimal, is_reduced, lemma_member_target_absent, states_distinguishable, member_target, new_array_transition, new_dumpster_state, new_member_transition, table_targets_below, Automaton,
    MemberTransition, StateTable, Symbol,
};
use crate::order::{chars_less, lemma_chars_less_irreflexive, lemma_chars_less_total, lemma_chars_less_transitive, str_less};
use crate::product::list_has_label;
use crate::subsets::{
    all_below, insert_sorted, lemma_distinct_subsets_bounded, lemma_increasing_unique, same_elements,
    strictly_increasing, two_to,
};

verus! {

/// A symbol of the document alphabet.
#[derive(Debug, Clone, PartialEq, Eq)]
pub enum DocumentSymbol {
    /// A step into an array, whatever the index.
    List,
    /// A step into the member with this name.
    Member(String),
}

/// The mathematical value of a [`DocumentSymbol`].
pub enum DocSym {
    List,
    Member(Seq<char>),
}

impl View for DocumentSymbol {
    type V = DocSym;

    open spec fn view(&self) -> DocSym {
        match self {
            DocumentSymbol::List => DocSym::List,
            DocumentSymbol::Member(l) => DocSym::Member(l@),
        }
    }
}

/// The document symbol that a path step reads.
pub open spec fn doc_sym(sym: Symbol) -> DocSym {
    match sym {
        Symbol::Member(l) => DocSym::Member(l),
        Symbol::Index(_) => DocSym::List,
    }
}

/// A path step that reads the document symbol `s`.
pub open spec fn symbol_of(s: DocSym) -> Symbol {
    match s {
        DocSym::List => Symbol::Index(0),
        DocSym::Member(l) => Symbol::Member(l),
    }
}

/// The order of the alphabet: the array symbol first, then member names in order.
pub open spec fn doc_sym_less(a: DocSym, b: DocSym) -> bool {
    match (a, b) {
        (DocSym::List, DocSym::Member(_)) => true,
        (DocSym::Member(x), DocSym::Member(y)) => chars_less(x, y),
        _ => false,
    }
}

/// The symbols of `v`, in order.
pub open spec fn syms_view(v: Seq<DocumentSymbol>) -> Seq<DocSym> {
    v.map_values(|s: DocumentSymbol| s@)
}

/// Every symbol comes strictly before every later one.
pub open spec fn strictly_sorted_syms(v: Seq<DocSym>) -> bool {
    forall|i: int, j: int| 0 <= i < j < v.len() ==> doc_sym_less(#[trigger] v[i], #[trigger] v[j])
}

/// Every name comes strictly before every later one.
pub open spec fn strictly_sorted_labels(v: Seq<String>) -> bool {
    forall|i: int, j: int| 0 <= i < j < v.len() ==> chars_less((#[trigger] v[i])@, (#[trigger] v[j])@)
}

/// Whether `s` belongs to the alphabet of `a`: some state has an array
/// transition, or some member transition carries the name.
pub open spec fn in_alphabet(a: &Automaton, s: DocSym) -> bool {
    match s {
        DocSym::List => exists|q: int| 0 <= q < a.states@.len() && (#[trigger] a.states@[q]).array_transitions@.len() > 0,
        DocSym::Member(l) => exists|q: int, k: int|
            0 <= q < a.states@.len() && 0 <= k < a.states@[q].member_transitions@.len()
                && (#[trigger] a.states@[q].member_transitions@[k]).0@ == l,
    }
}

/// The states that `q` can move to reading `s`.
pub open spec fn nfa_successors(a: &Automaton, q: usize, s: DocSym) -> Set<usize> {
    let t = a.states@[q as int];
    match s {
        DocSym::List => Set::new(|x: usize| exists|k: int| 0 <= k < t.array_transitions@.len() && (#[trigger] t.array_transitions@[k]).target == x),
        DocSym::Member(l) => Set::new(|x: usize| exists|k: int| 0 <= k < t.member_transitions@.len()
            && (#[trigger] t.member_transitions@[k]).0@ == l && t.member_transitions@[k].1 == x),
    }
}

/// The states that some state of `set` can move to reading `s`.
pub open spec fn subset_step(a: &Automaton, set: Set<usize>, s: DocSym) -> Set<usize> {
    Set::new(|x: usize| exists|q: usize| set.contains(q) && #[trigger] nfa_successors(a, q, s).contains(x))
}

/// The states that the automaton, read nondeterministically, can be in after `w`.
pub open spec fn subset_run(a: &Automaton, w: Seq<DocSym>) -> Set<usize>
    decreases w.len(),
{
    if w.len() == 0 {
        set![1usize]
    } else {
        subset_step(a, subset_run(a, w.drop_last()), w.last())
    }
}

/// Some state of `set` is accepting.
pub open spec fn set_accepting(a: &Automaton, set: Set<usize>) -> bool {
    exists|q: usize| set.contains(q) && q < a.states@.len() && (#[trigger] a.states@[q as int]).accepting
}

/// The document symbols that a path reads.
pub open spec fn doc_word(w: Seq<Symbol>) -> Seq<DocSym> {
    w.map_values(|s: Symbol| doc_sym(s))
}

/// Whether the automaton, read nondeterministically over the document alphabet, accepts the path `w`.
pub open spec fn nfa_accepts(a: &Automaton, w: Seq<Symbol>) -> bool {
    set_accepting(a, subset_run(a, doc_word(w)))
}

/// Inserts `label` into the strictly sorted list `labels` unless it is there.
fn insert_label_sorted(labels: &mut Vec<String>, label: &String)
    requires
        strictly_sorted_labels(old(labels)@),
    ensures
        strictly_sorted_labels(final(labels)@),
        forall|l: Seq<char>| list_has_label(final(labels)@, l) <==> (list_has_label(old(labels)@, l) || l == label@),
{
    let mut k: usize = 0;
    while k < labels.len() && str_less(labels[k].as_str(), label.as_str())
        invariant
            k <= labels@.len(),
            labels@ == old(labels)@,
            forall|m: int| 0 <= m < k ==> chars_less((#[trigger] labels@[m])@, label@),
        decreases labels@.len() - k,
    {
        k += 1;
    }
    if k < labels.len() && labels[k] == *label {
        return;
    }
    let ghost before = labels@;
    proof {
        if k < before.len() {
            lemma_chars_less_total(before[k as int]@, label@);
        }
    }
    labels.insert(k, label.clone());
    proof {
        let after = labels@;
        assert forall|i: int, j: int| 0 <= i < j < after.len() implies chars_less((#[trigger] after[i])@, (#[trigger] after[j])@) by {
            if j < k {
                assert(after[i] == before[i] && after[j] == before[j]);
            } else if j == k {
                assert(after[i] == before[i]);
            } else if i < k {
                assert(after[i] == before[i] && after[j] == before[j - 1]);
                lemma_chars_less_transitive(before[i]@, label@, before[k as int]@);
                if j - 1 > k {
                    lemma_chars_less_transitive(before[i]@, before[k as int]@, before[j - 1]@);
                }
            } else if i == k {
                assert(after[j] == before[j - 1]);
                if j - 1 > k {
                    lemma_chars_less_transitive(label@, before[k as int]@, before[j - 1]@);
                }
            } else {
                assert(after[i] == before[i - 1] && after[j] == before[j - 1]);
            }
        }
        assert forall|l: Seq<char>| list_has_label(after, l) <==> (list_has_label(before, l) || l == label@) by {
            if list_has_label(before, l) {
                let m = choose|m: int| 0 <= m < before.len() && (#[trigger] before[m])@ == l;
                if m < k {
                    assert(after[m] == before[m]);
                } else {
                    assert(after[m + 1] == before[m]);
                }
            }
            if l == label@ {
                assert(after[k as int]@ == l);
            }
            if list_has_label(after, l) {
                let m = choose|m: int| 0 <= m < after.len() && (#[trigger] after[m])@ == l;
                if m < k {
                    assert(after[m] == before[m]);
                } else if m > k {
                    assert(after[m] == before[m - 1]);
                }
            }
        }
    }
}

/// The document alphabet of `automaton`, strictly sorted: the array symbol
/// if some state has an array transition, then every member name that a
/// member transition carries, as the raw text of the label.
pub fn alphabet_from_automaton(automaton: &Automaton) -> (r: Vec<DocumentSymbol>)
    ensures
        strictly_sorted_syms(syms_view(r@)),
        forall|s: DocSym| syms_view(r@).contains(s) <==> in_alphabet(automaton, s),
{
    let mut labels: Vec<String> = Vec::new();
    let mut has_list = false;
    let mut i: usize = 0;
    while i < automaton.states.len()
        invariant
            i <= automaton.states@.len(),
            strictly_sorted_labels(labels@),
            has_list == exists|q: int| 0 <= q < i && (#[trigger] automaton.states@[q]).array_transitions@.len() > 0,
            forall|l: Seq<char>| list_has_label(labels@, l) <==> exists|q: int, k: int|
                0 <= q < i && 0 <= k < automaton.states@[q].member_transitions@.len()
                    && (#[trigger] automaton.states@[q].member_transitions@[k]).0@ == l,
        decreases automaton.states@.len() - i,
    {
        let table = &automaton.states[i];
        let mut k: usize = 0;
        while k < table.member_transitions.len()
            invariant
                i < automaton.states@.len(),
                *table == automaton.states@[i as int],
                k <= table.member_transitions@.len(),
                strictly_sorted_labels(labels@),
                forall|l: Seq<char>| list_has_label(labels@, l) <==> (exists|q: int, kk: int|
                    0 <= q < i && 0 <= kk < automaton.states@[q].member_transitions@.len()
                        && (#[trigger] automaton.states@[q].member_transitions@[kk]).0@ == l)
                    || (exists|kk: int| 0 <= kk < k && (#[trigger] table.member_transitions@[kk]).0@ == l),
            decreases table.member_transitions@.len() - k,
        {
            insert_label_sorted(&mut labels, &table.member_transitions[k].0);
            k += 1;
        }
        if table.array_transitions.len() > 0 {
            has_list = true;
        }
        proof {
            assert forall|l: Seq<char>| list_has_label(labels@, l) <==> exists|q: int, kk: int|
                0 <= q < i + 1 && 0 <= kk < automaton.states@[q].member_transitions@.len()
                    && (#[trigger] automaton.states@[q].member_transitions@[kk]).0@ == l by {
                if exists|kk: int| 0 <= kk < table.member_transitions@.len() && (#[trigger] table.member_transitions@[kk]).0@ == l {
                    let kk = choose|kk: int| 0 <= kk < table.member_transitions@.len() && (#[trigger] table.member_transitions@[kk]).0@ == l;
                    assert(automaton.states@[i as int].member_transitions@[kk].0@ == l);
                }
                if exists|q: int, kk: int| 0 <= q < i + 1 && 0 <= kk < automaton.states@[q].member_transitions@.len()
                    && (#[trigger] automaton.states@[q].member_transitions@[kk]).0@ == l {
                    let (q, kk) = choose|q: int, kk: int| 0 <= q < i + 1 && 0 <= kk < automaton.states@[q].member_transitions@.len()
                        && (#[trigger] automaton.states@[q].member_transitions@[kk]).0@ == l;
                    if q == i {
                        assert(table.member_transitions@[kk].0@ == l);
                    }
                }
            }
            if table.array_transitions@.len() > 0 {
                assert(automaton.states@[i as int].array_transitions@.len() > 0);
            }
        }
        i += 1;
    }
    let mut result: Vec<DocumentSymbol> = Vec::new();
    if has_list {
        result.push(DocumentSymbol::List);
    }
    let ghost base = result@;
    let mut j: usize = 0;
    while j < labels.len()
        invariant
            j <= labels@.len(),
            base.len() == (if has_list { 1int } else { 0 }),
            has_list ==> base[0] == DocumentSymbol::List,
            result@.len() == base.len() + j,
            forall|m: int| 0 <= m < base.len() ==> result@[m] == base[m],
            forall|m: int| 0 <= m < j ==> (#[trigger] result@[base.len() + m])@ == DocSym::Member(labels@[m]@),
        decreases labels@.len() - j,
    {
        result.push(DocumentSymbol::Member(labels[j].clone()));
        j += 1;
    }
    proof {
        let v = syms_view(result@);
        let b = base.len() as int;
        assert forall|x: int, y: int| 0 <= x < y < v.len() implies doc_sym_less(#[trigger] v[x], #[trigger] v[y]) by {
            assert((result@[base.len() + (y - b)])@ == DocSym::Member(labels@[y - b]@));
            if x >= b {
                assert((result@[base.len() + (x - b)])@ == DocSym::Member(labels@[x - b]@));
            } else {
                assert(v[x] == DocSym::List);
            }
        }
        assert(v.contains(DocSym::List) <==> in_alphabet(automaton, DocSym::List)) by {
            assert(has_list == in_alphabet(automaton, DocSym::List));
            if has_list {
                assert(v[0] == DocSym::List);
            }
            if v.contains(DocSym::List) {
                let x = choose|x: int| 0 <= x < v.len() && v[x] == DocSym::List;
                if x >= b {
                    assert((result@[base.len() + (x - b)])@ == DocSym::Member(labels@[x - b]@));
                }
            }
        }
        assert forall|l: Seq<char>| v.contains(DocSym::Member(l)) <==> in_alphabet(automaton, DocSym::Member(l)) by {
            assert(list_has_label(labels@, l) == in_alphabet(automaton, DocSym::Member(l)));
            if list_has_label(labels@, l) {
                let m = choose|m: int| 0 <= m < labels@.len() && (#[trigger] labels@[m])@ == l;
                assert((result@[base.len() + m])@ == DocSym::Member(labels@[m]@));
                assert(v[b + m] == DocSym::Member(l));
            }
            if v.contains(DocSym::Member(l)) {
                let x = choose|x: int| 0 <= x < v.len() && v[x] == DocSym::Member(l);
                if x >= b {
                    assert((result@[base.len() + (x - b)])@ == DocSym::Member(labels@[x - b]@));
                    assert(labels@[x - b]@ == l);
                    assert(list_has_label(labels@, l));
                } else {
                    assert(v[x] == DocSym::List);
                }
            }
        }
        assert forall|s: DocSym| v.contains(s) <==> in_alphabet(automaton, s) by {
            match s {
                DocSym::List => {},
                DocSym::Member(l) => {
                    assert(v.contains(DocSym::Member(l)) <==> in_alphabet(automaton, DocSym::Member(l)));
                },
            }
        }
    }
    result
}


/// The states that the automaton can be in after `w`, starting from `init` alone.
pub open spec fn subset_run_from(a: &Automaton, init: usize, w: Seq<DocSym>) -> Set<usize>
    decreases w.len(),
{
    if w.len() == 0 {
        set![init]
    } else {
        subset_step(a, subset_run_from(a, init, w.drop_last()), w.last())
    }
}

/// Every symbol of `w` belongs to `alphabet`.
pub open spec fn word_over(w: Seq<DocSym>, alphabet: Seq<DocSym>) -> bool {
    forall|i: int| 0 <= i < w.len() ==> alphabet.contains(#[trigger] w[i])
}

/// The largest entry of `s`, 0 for none.
pub open spec fn seq_max(s: Seq<usize>) -> int
    decreases s.len(),
{
    if s.len() == 0 {
        0
    } else if seq_max(s.drop_last()) >= s.last() {
        seq_max(s.drop_last())
    } else {
        s.last() as int
    }
}

/// The rows one after another.
pub open spec fn flat_rows(rows: Seq<Vec<usize>>) -> Seq<usize>
    decreases rows.len(),
{
    if rows.len() == 0 {
        Seq::empty()
    } else {
        flat_rows(rows.drop_last()) + rows.last()@
    }
}

/// Ids are numbered in the order they are first met: read entry by entry,
/// each is an id met before (id 0 counts as met) or the next unused one.
pub open spec fn numbered_in_order(s: Seq<usize>) -> bool {
    forall|p: int| 0 <= p < s.len() ==> #[trigger] s[p] <= seq_max(s.take(p)) + 1
}

/// One more entry that is an id met before or the next unused one.
proof fn lemma_numbered_push(s: Seq<usize>, x: usize)
    requires
        numbered_in_order(s),
        x <= seq_max(s) + 1,
    ensures
        numbered_in_order(s.push(x)),
        seq_max(s.push(x)) == (if seq_max(s) >= x { seq_max(s) } else { x as int }),
{
    assert(s.push(x).drop_last() =~= s);
    assert forall|p: int| 0 <= p < s.push(x).len() implies #[trigger] s.push(x)[p] <= seq_max(s.push(x).take(p)) + 1 by {
        if p < s.len() {
            assert(s.push(x).take(p) =~= s.take(p));
            assert(s.push(x)[p] == s[p]);
        } else {
            assert(s.push(x).take(p) =~= s);
        }
    }
}

/// Some word over `alph` leaves no state to be in, starting from `init`.
pub open spec fn reaches_empty_over(a: &Automaton, init: usize, alph: Seq<DocSym>) -> bool {
    exists|w: Seq<DocSym>| word_over(w, alph) && subset_run_from(a, init, w) == Set::<usize>::empty()
}

/// The tables of the subset construction from `init`: id `k` stands for the
/// set of states `sets[k]`, the initial id for `{init}`, the dead id for the
/// empty set, different ids for different sets; the entry for a symbol is
/// the id of the successor set, and an id accepts when its set holds an
/// accepting state.
pub open spec fn subset_tables(nfa: &Automaton, init: usize, t: &DfaTables, sets: Seq<Set<usize>>) -> bool {
    &&& sets.len() == t.trans@.len()
    &&& sets[t.initial_id as int] == set![init]
    &&& sets[t.dead_id as int] == Set::<usize>::empty()
    &&& forall|k1: int, k2: int| 0 <= k1 < sets.len() && 0 <= k2 < sets.len() && k1 != k2 ==> #[trigger] sets[k1] != #[trigger] sets[k2]
    &&& forall|k: int, j: int| 0 <= k < sets.len() && 0 <= j < t.alphabet@.len()
        ==> sets[(#[trigger] t.trans@[k]@[j]) as int] == subset_step(nfa, sets[k], syms_view(t.alphabet@)[j])
    &&& forall|k: int| 0 <= k < sets.len() ==> t.accepting@[k] == set_accepting(nfa, #[trigger] sets[k])
}

/// Some word over the alphabet of `a` leaves no state to be in, starting from `init`.
pub open spec fn reaches_empty_subset(a: &Automaton, init: usize) -> bool {
    exists|w: Seq<DocSym>| (forall|i: int| 0 <= i < w.len() ==> in_alphabet(a, #[trigger] w[i]))
        && subset_run_from(a, init, w) == Set::<usize>::empty()
}

/// Index of `s` in `v`.
pub open spec fn position_of(v: Seq<DocSym>, s: DocSym) -> int {
    choose|j: int| 0 <= j < v.len() && v[j] == s
}

/// Dense transition tables of a deterministic automaton over a sorted alphabet.
pub struct DfaTables {
    pub alphabet: Vec<DocumentSymbol>,
    pub trans: Vec<Vec<usize>>,
    pub accepting: Vec<bool>,
    pub initial_id: usize,
    pub dead_id: usize,
}

impl DfaTables {
    /// Rows and columns have the right sizes and every entry is a state.
    pub open spec fn wf(&self) -> bool {
        let n = self.trans@.len();
        &&& self.accepting@.len() == n
        &&& self.initial_id < n
        &&& self.dead_id < n
        &&& strictly_sorted_syms(syms_view(self.alphabet@))
        &&& forall|i: int| 0 <= i < n ==> (#[trigger] self.trans@[i])@.len() == self.alphabet@.len()
        &&& forall|i: int, j: int| 0 <= i < n && 0 <= j < self.alphabet@.len() ==> #[trigger] self.trans@[i]@[j] < n
    }

    /// The state reached from `i` by `s`; symbols outside the alphabet lead to the dead state.
    pub open spec fn step(&self, i: int, s: DocSym) -> int {
        let v = syms_view(self.alphabet@);
        if v.contains(s) {
            self.trans@[i]@[position_of(v, s)] as int
        } else {
            self.dead_id as int
        }
    }

    /// The state reached from the initial state along `w`.
    pub open spec fn run(&self, w: Seq<DocSym>) -> int
        decreases w.len(),
    {
        if w.len() == 0 {
            self.initial_id as int
        } else {
            self.step(self.run(w.drop_last()), w.last())
        }
    }

    /// Whether the tables accept `w`.
    pub open spec fn accepts(&self, w: Seq<DocSym>) -> bool {
        self.accepting@[self.run(w)]
    }
}

/// In a strictly sorted alphabet a symbol's position is where it stands.
pub proof fn lemma_position_of(v: Seq<DocSym>, j: int)
    requires
        strictly_sorted_syms(v),
        0 <= j < v.len(),
    ensures
        position_of(v, v[j]) == j,
        v.contains(v[j]),
{
    assert(v.contains(v[j]));
    let p = position_of(v, v[j]);
    if p != j {
        if p < j {
            assert(doc_sym_less(v[p], v[j]));
        } else {
            assert(doc_sym_less(v[j], v[p]));
        }
        match v[j] {
            DocSym::Member(x) => lemma_chars_less_irreflexive(x),
            DocSym::List => {},
        }
    }
}

/// A run of well-formed tables stays among their states.
pub proof fn lemma_tables_run_in_range(t: &DfaTables, w: Seq<DocSym>)
    requires
        t.wf(),
    ensures
        0 <= t.run(w) < t.trans@.len(),
    decreases w.len(),
{
    if w.len() > 0 {
        lemma_tables_run_in_range(t, w.drop_last());
        let v = syms_view(t.alphabet@);
        if v.contains(w.last()) {
            let j = position_of(v, w.last());
            assert(t.trans@[t.run(w.drop_last())]@[j] < t.trans@.len());
        }
    }
}

/// Some word leads the tables from the initial state to `k`.
pub open spec fn tables_reach(t: &DfaTables, k: int) -> bool {
    exists|dw: Seq<DocSym>| t.run(dw) == k
}

/// Every state of the tables is reached from the initial state.
pub open spec fn all_tables_reach(t: &DfaTables) -> bool {
    forall|k: int| 0 <= k < t.trans@.len() ==> #[trigger] tables_reach(t, k)
}

/// First matching member transition determines the member step.
proof fn lemma_member_target_first(ts: Seq<MemberTransition>, l: Seq<char>, f: usize, k0: int)
    requires
        0 <= k0 < ts.len(),
        ts[k0].0@ == l,
        forall|k: int| 0 <= k < k0 ==> (#[trigger] ts[k]).0@ != l,
    ensures
        member_target(ts, l, f) == ts[k0].1,
    decreases k0,
{
    if k0 > 0 {
        assert forall|k: int| 0 <= k < k0 - 1 implies (#[trigger] ts.drop_first()[k]).0@ != l by {
            assert(ts.drop_first()[k] == ts[k + 1]);
        }
        lemma_member_target_first(ts.drop_first(), l, f, k0 - 1);
    }
}

/// A copy of a symbol.
fn copy_symbol(sym: &DocumentSymbol) -> (r: DocumentSymbol)
    ensures
        r@ == sym@,
{
    match sym {
        DocumentSymbol::List => DocumentSymbol::List,
        DocumentSymbol::Member(l) => DocumentSymbol::Member(l.clone()),
    }
}

/// A copy of an alphabet.
fn copy_alphabet(alphabet: &Vec<DocumentSymbol>) -> (r: Vec<DocumentSymbol>)
    ensures
        syms_view(r@) == syms_view(alphabet@),
        r@.len() == alphabet@.len(),
{
    let mut r: Vec<DocumentSymbol> = Vec::new();
    let mut i: usize = 0;
    while i < alphabet.len()
        invariant
            i <= alphabet@.len(),
            r@.len() == i,
            forall|k: int| 0 <= k < i ==> (#[trigger] r@[k])@ == alphabet@[k]@,
        decreases alphabet@.len() - i,
    {
        r.push(copy_symbol(&alphabet[i]));
        i += 1;
    }
    assert(syms_view(r@) =~= syms_view(alphabet@));
    r
}

/// The targets that state `from` reaches by `sym`, in transition order.
fn document_successors(automaton: &Automaton, from: usize, sym: &DocumentSymbol) -> (r: Vec<usize>)
    requires
        automaton.wf(),
        from < automaton.states@.len(),
    ensures
        r@.to_set() == nfa_successors(automaton, from, sym@),
        all_below(r@, automaton.states@.len()),
        sym@ is List ==> r@.len() == automaton.states@[from as int].array_transitions@.len()
            && forall|k: int| 0 <= k < r@.len() ==> r@[k] == (#[trigger] automaton.states@[from as int].array_transitions@[k]).target,
        sym matches DocumentSymbol::Member(l) ==> (r@.len() == 0 <==> !has_member_label(
            automaton.states@[from as int].member_transitions@,
            l@,
        )),
        sym matches DocumentSymbol::Member(l) ==> (r@.len() > 0 ==> r@[0] == member_target(
            automaton.states@[from as int].member_transitions@,
            l@,
            automaton.states@[from as int].fallback_state,
        )),
{
    let table = &automaton.states[from];
    let n = automaton.states.len();
    proof {
        assert(table_targets_below(automaton.states@[from as int], automaton.states@.len()));
    }
    let mut out: Vec<usize> = Vec::new();
    match sym {
        DocumentSymbol::List => {
            let mut k: usize = 0;
            while k < table.array_transitions.len()
                invariant
                    *table == automaton.states@[from as int],
                    n == automaton.states@.len(),
                    table_targets_below(*table, n as nat),
                    k <= table.array_transitions@.len(),
                    out@.len() == k,
                    forall|m: int| 0 <= m < k ==> out@[m] == (#[trigger] table.array_transitions@[m]).target,
                decreases table.array_transitions@.len() - k,
            {
                out.push(table.array_transitions[k].target);
                k += 1;
            }
            proof {
                assert forall|x: usize| out@.to_set().contains(x) == nfa_successors(automaton, from, sym@).contains(x) by {
                    if out@.to_set().contains(x) {
                        let m = choose|m: int| 0 <= m < out@.len() && out@[m] == x;
                        assert(table.array_transitions@[m].target == x);
                    }
                    if nfa_successors(automaton, from, sym@).contains(x) {
                        let m = choose|m: int| 0 <= m < table.array_transitions@.len() && (#[trigger] table.array_transitions@[m]).target == x;
                        assert(out@[m] == x);
                    }
                }
                assert(out@.to_set() =~= nfa_successors(automaton, from, sym@));
                assert forall|i: int| 0 <= i < out@.len() implies (#[trigger] out@[i]) < n by {
                    assert(table.array_transitions@[i].target < n);
                }
            }
        },
        DocumentSymbol::Member(label) => {
            let ts = &table.member_transitions;
            let mut k: usize = 0;
            while k < ts.len()
                invariant
                    *table == automaton.states@[from as int],
                    ts@ == table.member_transitions@,
                    n == automaton.states@.len(),
                    table_targets_below(*table, n as nat),
                    k <= ts@.len(),
                    all_below(out@, n as nat),
                    forall|x: usize| out@.to_set().contains(x) <==> exists|m: int| 0 <= m < k
                        && (#[trigger] ts@[m]).0@ == label@ && ts@[m].1 == x,
                    out@.len() == 0 <==> forall|m: int| 0 <= m < k ==> (#[trigger] ts@[m]).0@ != label@,
                    out@.len() > 0 ==> exists|k0: int| 0 <= k0 < k && ts@[k0].0@ == label@ && ts@[k0].1 == out@[0]
                        && forall|m: int| 0 <= m < k0 ==> (#[trigger] ts@[m]).0@ != label@,
                decreases ts@.len() - k,
            {
                let ghost before = out@;
                if ts[k].0 == *label {
                    out.push(ts[k].1);
                    proof {
                        assert(ts@[k as int].1 < n);
                        if before.len() > 0 {
                            assert(out@[0] == before[0]);
                        } else {
                            assert(out@[0] == ts@[k as int].1);
                        }
                    }
                }
                proof {
                    assert forall|x: usize| out@.to_set().contains(x) <==> exists|m: int| 0 <= m < k + 1
                        && (#[trigger] ts@[m]).0@ == label@ && ts@[m].1 == x by {
                        if out@.to_set().contains(x) {
                            let i = choose|i: int| 0 <= i < out@.len() && out@[i] == x;
                            if i < before.len() {
                                assert(before.to_set().contains(x));
                            } else {
                                assert(ts@[k as int].0@ == label@ && ts@[k as int].1 == x);
                            }
                        }
                        if exists|m: int| 0 <= m < k + 1 && (#[trigger] ts@[m]).0@ == label@ && ts@[m].1 == x {
                            let m = choose|m: int| 0 <= m < k + 1 && (#[trigger] ts@[m]).0@ == label@ && ts@[m].1 == x;
                            if m < k {
                                assert(before.to_set().contains(x));
                                let i = choose|i: int| 0 <= i < before.len() && before[i] == x;
                                assert(out@[i] == x);
                            } else {
                                assert(out@[out@.len() - 1] == x);
                            }
                        }
                    }
                }
                k += 1;
            }
            proof {
                assert(out@.to_set() =~= nfa_successors(automaton, from, sym@));
                if out@.len() > 0 {
                    let k0 = choose|k0: int| 0 <= k0 < ts@.len() && ts@[k0].0@ == label@ && ts@[k0].1 == out@[0]
                        && forall|m: int| 0 <= m < k0 ==> (#[trigger] ts@[m]).0@ != label@;
                    lemma_member_target_first(ts@, label@, table.fallback_state, k0);
                    assert(ts@[k0].0@ == label@);
                    assert(has_member_label(ts@, label@));
                } else {
                    assert(!has_member_label(ts@, label@));
                }
            }
        },
    }
    out
}


/// The states reached by `sym` from some state of `current`, strictly increasing.
fn union_successors(nfa: &Automaton, current: &Vec<usize>, sym: &DocumentSymbol) -> (r: Vec<usize>)
    requires
        nfa.wf(),
        all_below(current@, nfa.states@.len()),
    ensures
        strictly_increasing(r@),
        all_below(r@, nfa.states@.len()),
        r@.to_set() == subset_step(nfa, current@.to_set(), sym@),
{
    let ghost n = nfa.states@.len();
    let mut next: Vec<usize> = Vec::new();
    let mut i: usize = 0;
    assert(current@.take(0).to_set() =~= Set::<usize>::empty());
    assert(subset_step(nfa, Set::<usize>::empty(), sym@) =~= Set::<usize>::empty());
    while i < current.len()
        invariant
            nfa.wf(),
            n == nfa.states@.len(),
            all_below(current@, n),
            i <= current@.len(),
            strictly_increasing(next@),
            all_below(next@, n),
            next@.to_set() == subset_step(nfa, current@.take(i as int).to_set(), sym@),
        decreases current@.len() - i,
    {
        let succ = document_successors(nfa, current[i], sym);
        let ghost base = next@.to_set();
        let mut k: usize = 0;
        assert(succ@.take(0).to_set() =~= Set::<usize>::empty());
        while k < succ.len()
            invariant
                nfa.wf(),
                n == nfa.states@.len(),
                all_below(current@, n),
                i < current@.len(),
                base == subset_step(nfa, current@.take(i as int).to_set(), sym@),
                k <= succ@.len(),
                all_below(succ@, n),
                strictly_increasing(next@),
                all_below(next@, n),
                next@.to_set() == base.union(succ@.take(k as int).to_set()),
            decreases succ@.len() - k,
        {
            insert_sorted(&mut next, succ[k]);
            proof {
                assert(succ@.take(k + 1).to_set() =~= succ@.take(k as int).to_set().insert(succ@[k as int])) by {
                    assert(succ@.take(k + 1) =~= succ@.take(k as int).push(succ@[k as int]));
                    succ@.take(k as int).lemma_push_to_set_commute(succ@[k as int]);
                }
                assert(next@.to_set() =~= base.union(succ@.take(k + 1).to_set()));
                assert forall|j: int| 0 <= j < next@.len() implies (#[trigger] next@[j]) < n by {
                    assert(next@.to_set().contains(next@[j]));
                    if !base.contains(next@[j]) {
                        let m = choose|m: int| 0 <= m < succ@.take(k + 1).len() && #[trigger] succ@.take(k + 1)[m] == next@[j];
                        assert(succ@.take(k + 1)[m] == succ@[m]);
                        assert(succ@[m] < n);
                    } else {
                        let q = choose|q: usize| current@.take(i as int).to_set().contains(q) && #[trigger] nfa_successors(nfa, q, sym@).contains(next@[j]);
                        let qi = choose|qi: int| 0 <= qi < current@.take(i as int).len() && #[trigger] current@.take(i as int)[qi] == q;
                        assert(current@.take(i as int)[qi] == current@[qi]);
                        assert(current@[qi] < n);
                        lemma_nfa_successors_below(nfa, q, sym@);
                    }
                }
            }
            k += 1;
        }
        proof {
            assert(succ@.take(succ@.len() as int) =~= succ@);
            let q = current@[i as int];
            assert(current@.take(i + 1) =~= current@.take(i as int).push(q));
            current@.take(i as int).lemma_push_to_set_commute(q);
            let before = current@.take(i as int).to_set();
            assert(subset_step(nfa, before.insert(q), sym@) =~= subset_step(nfa, before, sym@).union(nfa_successors(nfa, q, sym@))) by {
                assert forall|x: usize| subset_step(nfa, before.insert(q), sym@).contains(x) implies subset_step(nfa, before, sym@).union(nfa_successors(nfa, q, sym@)).contains(x) by {
                    let p = choose|p: usize| before.insert(q).contains(p) && #[trigger] nfa_successors(nfa, p, sym@).contains(x);
                    if p != q {
                        assert(before.contains(p));
                    }
                }
                assert forall|x: usize| subset_step(nfa, before, sym@).union(nfa_successors(nfa, q, sym@)).contains(x) implies subset_step(nfa, before.insert(q), sym@).contains(x) by {
                    if nfa_successors(nfa, q, sym@).contains(x) {
                        assert(before.insert(q).contains(q));
                    } else {
                        let p = choose|p: usize| before.contains(p) && #[trigger] nfa_successors(nfa, p, sym@).contains(x);
                        assert(before.insert(q).contains(p));
                    }
                }
            }
            assert(next@.to_set() =~= subset_step(nfa, current@.take(i + 1).to_set(), sym@));
        }
        i += 1;
    }
    assert(current@.take(current@.len() as int) =~= current@);
    next
}

/// Whether each set holds an accepting state.
fn dfa_accepting(nfa: &Automaton, sets: &Vec<Vec<usize>>) -> (r: Vec<bool>)
    requires
        forall|k: int| 0 <= k < sets@.len() ==> all_below(#[trigger] sets@[k]@, nfa.states@.len()),
    ensures
        r@.len() == sets@.len(),
        forall|k: int| 0 <= k < sets@.len() ==> r@[k] == set_accepting(nfa, (#[trigger] sets@[k])@.to_set()),
{
    let mut r: Vec<bool> = Vec::new();
    let mut k: usize = 0;
    while k < sets.len()
        invariant
            k <= sets@.len(),
            forall|kk: int| 0 <= kk < sets@.len() ==> all_below(#[trigger] sets@[kk]@, nfa.states@.len()),
            r@.len() == k,
            forall|kk: int| 0 <= kk < k ==> r@[kk] == set_accepting(nfa, (#[trigger] sets@[kk])@.to_set()),
        decreases sets@.len() - k,
    {
        let set = &sets[k];
        let mut any = false;
        if set.len() > 0 {
            let mut i: usize = 0;
            while i < set.len()
                invariant
                    *set == sets@[k as int],
                    all_below(set@, nfa.states@.len()),
                    i <= set@.len(),
                    any == exists|m: int| 0 <= m < i && nfa.states@[(#[trigger] set@[m]) as int].accepting,
                decreases set@.len() - i,
            {
                if nfa.is_accepting(set[i]) {
                    any = true;
                }
                i += 1;
            }
        }
        proof {
            if any {
                let m = choose|m: int| 0 <= m < set@.len() && nfa.states@[(#[trigger] set@[m]) as int].accepting;
                assert(set@.to_set().contains(set@[m]));
            }
            if set_accepting(nfa, set@.to_set()) {
                let q = choose|q: usize| set@.to_set().contains(q) && q < nfa.states@.len() && (#[trigger] nfa.states@[q as int]).accepting;
                let m = choose|m: int| 0 <= m < set@.len() && set@[m] == q;
                assert(nfa.states@[set@[m] as int].accepting);
            }
        }
        r.push(any);
        k += 1;
    }
    r
}

/// A copy of a vector of state ids.
fn copy_states(v: &Vec<usize>) -> (r: Vec<usize>)
    ensures
        r@ == v@,
{
    let mut r: Vec<usize> = Vec::new();
    let mut i: usize = 0;
    while i < v.len()
        invariant
            i <= v@.len(),
            r@ == v@.take(i as int),
        decreases v@.len() - i,
    {
        r.push(v[i]);
        i += 1;
        assert(r@ =~= v@.take(i as int));
    }
    assert(v@.take(v@.len() as int) =~= v@);
    r
}

/// Successors of a state are states.
proof fn lemma_nfa_successors_below(nfa: &Automaton, q: usize, s: DocSym)
    requires
        nfa.wf(),
        q < nfa.states@.len(),
    ensures
        forall|x: usize| nfa_successors(nfa, q, s).contains(x) ==> x < nfa.states@.len(),
{
    let t = nfa.states@[q as int];
    assert(table_targets_below(t, nfa.states@.len()));
    assert forall|x: usize| nfa_successors(nfa, q, s).contains(x) implies x < nfa.states@.len() by {
        match s {
            DocSym::List => {
                let k = choose|k: int| 0 <= k < t.array_transitions@.len() && (#[trigger] t.array_transitions@[k]).target == x;
            },
            DocSym::Member(l) => {
                let k = choose|k: int| 0 <= k < t.member_transitions@.len()
                    && (#[trigger] t.member_transitions@[k]).0@ == l && t.member_transitions@[k].1 == x;
            },
        }
    }
}

/// Symbols outside the alphabet lead nowhere.
proof fn lemma_step_outside_alphabet(nfa: &Automaton, set: Set<usize>, s: DocSym)
    requires
        nfa.wf(),
        !in_alphabet(nfa, s),
        forall|q: usize| set.contains(q) ==> q < nfa.states@.len(),
    ensures
        subset_step(nfa, set, s) == Set::<usize>::empty(),
{
    assert forall|x: usize| !subset_step(nfa, set, s).contains(x) by {
        if subset_step(nfa, set, s).contains(x) {
            let q = choose|q: usize| set.contains(q) && #[trigger] nfa_successors(nfa, q, s).contains(x);
            let t = nfa.states@[q as int];
            match s {
                DocSym::List => {
                    let k = choose|k: int| 0 <= k < t.array_transitions@.len() && (#[trigger] t.array_transitions@[k]).target == x;
                    assert(nfa.states@[q as int].array_transitions@.len() > 0);
                },
                DocSym::Member(l) => {
                    let k = choose|k: int| 0 <= k < t.member_transitions@.len()
                        && (#[trigger] t.member_transitions@[k]).0@ == l && t.member_transitions@[k].1 == x;
                    assert(nfa.states@[q as int].member_transitions@[k].0@ == l);
                },
            }
        }
    }
    assert(subset_step(nfa, set, s) =~= Set::<usize>::empty());
}

/// Every word over the alphabet leads to one of the discovered sets, when
/// they hold the start and are closed under the alphabet.
proof fn lemma_discovered_holds_runs(
    nfa: &Automaton,
    init: usize,
    alph: Seq<DocSym>,
    sets: Seq<Set<usize>>,
    trans: Seq<Seq<usize>>,
    w: Seq<DocSym>,
)
    requires
        sets.len() > 0,
        sets[0] == set![init],
        trans.len() == sets.len(),
        forall|k: int| 0 <= k < sets.len() ==> (#[trigger] trans[k]).len() == alph.len(),
        forall|k: int, j: int| 0 <= k < sets.len() && 0 <= j < alph.len() ==> (#[trigger] trans[k][j]) < sets.len()
            && sets[trans[k][j] as int] == subset_step(nfa, sets[k], alph[j]),
        word_over(w, alph),
    ensures
        exists|k: int| 0 <= k < sets.len() && sets[k] == subset_run_from(nfa, init, w),
    decreases w.len(),
{
    if w.len() == 0 {
        assert(sets[0] == subset_run_from(nfa, init, w));
    } else {
        let w1 = w.drop_last();
        assert(word_over(w1, alph)) by {
            assert forall|i: int| 0 <= i < w1.len() implies alph.contains(#[trigger] w1[i]) by {
                assert(w1[i] == w[i]);
            }
        }
        lemma_discovered_holds_runs(nfa, init, alph, sets, trans, w1);
        let k = choose|k: int| 0 <= k < sets.len() && sets[k] == subset_run_from(nfa, init, w1);
        assert(alph.contains(w[w.len() - 1]));
        let j = choose|j: int| 0 <= j < alph.len() && alph[j] == w.last();
        assert(sets[trans[k][j] as int] == subset_step(nfa, sets[k], alph[j]));
    }
}

/// Subset construction over `alphabet` from the state `initial`: the
/// discovered sets are numbered in the order they are found, breadth first.
fn subset_determinize(nfa: &Automaton, alphabet: &Vec<DocumentSymbol>, initial: usize) -> (r: DfaTables)
    requires
        nfa.wf(),
        initial < nfa.states@.len(),
        strictly_sorted_syms(syms_view(alphabet@)),
        reaches_empty_over(nfa, initial, syms_view(alphabet@)),
    ensures
        r.wf(),
        syms_view(r.alphabet@) == syms_view(alphabet@),
        r.initial_id == 0,
        r.dead_id != r.initial_id,
        (forall|s: DocSym| syms_view(alphabet@).contains(s) <==> in_alphabet(nfa, s)) ==>
            forall|w: Seq<DocSym>| r.accepts(w) == set_accepting(nfa, #[trigger] subset_run_from(nfa, initial, w)),
        !r.accepting@[r.dead_id as int],
        forall|j: int| 0 <= j < alphabet@.len() ==> r.trans@[r.dead_id as int]@[j] == r.dead_id,
        all_tables_reach(&r),
        exists|sets: Seq<Set<usize>>| subset_tables(nfa, initial, &r, sets),
        numbered_in_order(flat_rows(r.trans@)),
{
    let nn = nfa.states.len();
    let ghost n = nn as nat;
    let ghost alph = syms_view(alphabet@);
    let m = alphabet.len();
    let mut sets: Vec<Vec<usize>> = Vec::new();
    let mut start: Vec<usize> = Vec::new();
    start.push(initial);
    sets.push(start);
    let mut trans: Vec<Vec<usize>> = Vec::new();
    let ghost mut wits: Seq<Seq<DocSym>> = seq![Seq::<DocSym>::empty()];
    let mut head: usize = 0;
    proof {
        assert(sets@[0]@.to_set() =~= set![initial]) by {
            assert(sets@[0]@ =~= seq![initial]);
            assert(sets@[0]@[0] == initial);
            assert(sets@[0]@.to_set().contains(initial));
        }
        assert(word_over(wits[0], alph));
        vstd::arithmetic::power2::lemma_pow2_pos(0);
        lemma_two_to_positive(n);
    }
    while head < sets.len()
        invariant
            nfa.wf(),
            n == nfa.states@.len(),
            initial < n,
            m == alphabet@.len(),
            alph == syms_view(alphabet@),
            strictly_sorted_syms(alph),
            head <= sets@.len(),
            n <= usize::MAX,
            sets@.len() > 0,
            sets@.len() <= two_to(n),
            sets@[0]@.to_set() == set![initial],
            forall|k: int| 0 <= k < sets@.len() ==> strictly_increasing(#[trigger] sets@[k]@) && all_below(sets@[k]@, n),
            forall|k1: int, k2: int| 0 <= k1 < sets@.len() && 0 <= k2 < sets@.len() && k1 != k2 ==> (#[trigger] sets@[k1])@ != (#[trigger] sets@[k2])@,
            wits.len() == sets@.len(),
            forall|k: int| 0 <= k < sets@.len() ==> word_over(#[trigger] wits[k], alph)
                && subset_run_from(nfa, initial, wits[k]) == sets@[k]@.to_set(),
            trans@.len() == head,
            forall|k: int| 0 <= k < head ==> (#[trigger] trans@[k])@.len() == m,
            forall|k: int, j: int| 0 <= k < head && 0 <= j < m ==> (#[trigger] trans@[k]@[j]) < sets@.len()
                && sets@[trans@[k]@[j] as int]@.to_set() == subset_step(nfa, sets@[k]@.to_set(), alph[j]),
            numbered_in_order(flat_rows(trans@)),
            seq_max(flat_rows(trans@)) + 1 == sets@.len(),
        decreases two_to(n) - head,
    {
        let current = copy_states(&sets[head]);
        let mut row: Vec<usize> = Vec::new();
        let mut j: usize = 0;
        proof {
            assert(flat_rows(trans@) + row@ =~= flat_rows(trans@));
        }
        while j < m
            invariant
                nfa.wf(),
                n == nfa.states@.len(),
                initial < n,
                m == alphabet@.len(),
                alph == syms_view(alphabet@),
                head < sets@.len(),
                n <= usize::MAX,
                current@ == sets@[head as int]@,
                sets@.len() <= two_to(n),
                sets@[0]@.to_set() == set![initial],
                forall|k: int| 0 <= k < sets@.len() ==> strictly_increasing(#[trigger] sets@[k]@) && all_below(sets@[k]@, n),
                forall|k1: int, k2: int| 0 <= k1 < sets@.len() && 0 <= k2 < sets@.len() && k1 != k2 ==> (#[trigger] sets@[k1])@ != (#[trigger] sets@[k2])@,
                wits.len() == sets@.len(),
                forall|k: int| 0 <= k < sets@.len() ==> word_over(#[trigger] wits[k], alph)
                    && subset_run_from(nfa, initial, wits[k]) == sets@[k]@.to_set(),
                trans@.len() == head,
                forall|k: int| 0 <= k < head ==> (#[trigger] trans@[k])@.len() == m,
                forall|k: int, jj: int| 0 <= k < head && 0 <= jj < m ==> (#[trigger] trans@[k]@[jj]) < sets@.len()
                    && sets@[trans@[k]@[jj] as int]@.to_set() == subset_step(nfa, sets@[k]@.to_set(), alph[jj]),
                j <= m,
                row@.len() == j,
                forall|jj: int| 0 <= jj < j ==> (#[trigger] row@[jj]) < sets@.len()
                    && sets@[row@[jj] as int]@.to_set() == subset_step(nfa, current@.to_set(), alph[jj]),
                numbered_in_order(flat_rows(trans@) + row@),
                seq_max(flat_rows(trans@) + row@) + 1 == sets@.len(),
            decreases m - j,
        {
            let ghost len_before = sets@.len();
            let next = union_successors(nfa, &current, &alphabet[j]);
            let mut found: Option<usize> = None;
            let mut k: usize = 0;
            while found.is_none() && k < sets.len()
                invariant
                    k <= sets@.len(),
                    found is None ==> forall|kk: int| 0 <= kk < k ==> (#[trigger] sets@[kk])@ != next@,
                    found matches Some(id) ==> id < sets@.len() && sets@[id as int]@ == next@,
                decreases sets@.len() - k,
            {
                if same_elements(&sets[k], &next) {
                    found = Some(k);
                }
                k += 1;
            }
            let nid: usize;
            match found {
                Some(id) => {
                    nid = id;
                    assert(sets@[nid as int]@ == next@);
                },
                None => {
                    let ghost old_sets = sets@;
                    proof {
                        // A new set of states: distinct from all found so far.
                        assert forall|kk: int| 0 <= kk < old_sets.len() implies old_sets[kk]@.to_set() != next@.to_set() by {
                            assert(strictly_increasing(sets@[kk]@));
                            assert(old_sets[kk]@ != next@);
                            if old_sets[kk]@.to_set() == next@.to_set() {
                                lemma_increasing_unique(old_sets[kk]@, next@);
                            }
                        }
                        let distinct = old_sets.push(next).map_values(|v: Vec<usize>| v@.to_set());
                        assert(distinct.no_duplicates()) by {
                            assert forall|a: int, b: int| 0 <= a < distinct.len() && 0 <= b < distinct.len() && a != b implies distinct[a] != distinct[b] by {
                                if a < old_sets.len() && b < old_sets.len() {
                                    if distinct[a] == distinct[b] {
                                        lemma_increasing_unique(old_sets[a]@, old_sets[b]@);
                                    }
                                } else if a < old_sets.len() {
                                    assert(distinct[b] == next@.to_set());
                                } else {
                                    assert(distinct[a] == next@.to_set());
                                }
                            }
                        }
                        assert forall|kk: int, x: usize| 0 <= kk < distinct.len() && #[trigger] distinct[kk].contains(x) implies x < n by {
                            let v = if kk < old_sets.len() { old_sets[kk]@ } else { next@ };
                            assert(distinct[kk] == v.to_set());
                            let i = choose|i: int| 0 <= i < v.len() && v[i] == x;
                            assert(all_below(v, n));
                        }
                        lemma_distinct_subsets_bounded(distinct, n);
                    }
                    sets.push(next);
                    nid = sets.len() - 1;
                    proof {
                        let wnew = wits[head as int].push(alph[j as int]);
                        assert(wnew.drop_last() =~= wits[head as int]);
                        assert(word_over(wnew, alph)) by {
                            assert forall|i: int| 0 <= i < wnew.len() implies alph.contains(#[trigger] wnew[i]) by {
                                if i < wnew.len() - 1 {
                                    assert(wnew[i] == wits[head as int][i]);
                                } else {
                                    assert(alph[j as int] == wnew[i]);
                                }
                            }
                        }
                        wits = wits.push(wnew);
                        assert forall|k: int| 0 <= k < sets@.len() implies strictly_increasing(#[trigger] sets@[k]@) && all_below(sets@[k]@, n) by {
                            if k < old_sets.len() {
                                assert(sets@[k] == old_sets[k]);
                            }
                        }
                        assert forall|k1: int, k2: int| 0 <= k1 < sets@.len() && 0 <= k2 < sets@.len() && k1 != k2 implies (#[trigger] sets@[k1])@ != (#[trigger] sets@[k2])@ by {
                            if k1 < old_sets.len() && k2 < old_sets.len() {
                                assert(sets@[k1] == old_sets[k1] && sets@[k2] == old_sets[k2]);
                            } else if k1 < old_sets.len() {
                                assert(sets@[k1] == old_sets[k1]);
                            } else {
                                assert(sets@[k2] == old_sets[k2]);
                            }
                        }
                        assert forall|k: int| 0 <= k < sets@.len() implies word_over(#[trigger] wits[k], alph)
                            && subset_run_from(nfa, initial, wits[k]) == sets@[k]@.to_set() by {
                            if k < old_sets.len() {
                                assert(sets@[k] == old_sets[k]);
                            }
                        }
                        assert forall|k: int, jj: int| 0 <= k < head && 0 <= jj < m implies (#[trigger] trans@[k]@[jj]) < sets@.len()
                            && sets@[trans@[k]@[jj] as int]@.to_set() == subset_step(nfa, sets@[k]@.to_set(), alph[jj]) by {
                            assert(sets@[k] == old_sets[k]);
                            assert(sets@[trans@[k]@[jj] as int] == old_sets[trans@[k]@[jj] as int]);
                        }
                        assert forall|jj: int| 0 <= jj < j implies (#[trigger] row@[jj]) < sets@.len()
                            && sets@[row@[jj] as int]@.to_set() == subset_step(nfa, current@.to_set(), alph[jj]) by {
                            assert(sets@[row@[jj] as int] == old_sets[row@[jj] as int]);
                        }
                        assert(sets@[0] == old_sets[0]);
                        assert(sets@[head as int] == old_sets[head as int]);
                    }
                },
            }
            let ghost before = flat_rows(trans@) + row@;
            proof {
                assert(nid < len_before || (nid == len_before && sets@.len() == len_before + 1));
                assert(nid < len_before ==> sets@.len() == len_before);
                lemma_numbered_push(before, nid);
            }
            row.push(nid);
            proof {
                assert(flat_rows(trans@) + row@ =~= before.push(nid));
            }
            j += 1;
        }
        let ghost rows_before = trans@;
        trans.push(row);
        proof {
            assert(trans@.drop_last() =~= rows_before);
            assert(flat_rows(trans@) == flat_rows(rows_before) + row@);
        }
        proof {
            assert forall|k: int, jj: int| 0 <= k < head + 1 && 0 <= jj < m implies (#[trigger] trans@[k]@[jj]) < sets@.len()
                && sets@[trans@[k]@[jj] as int]@.to_set() == subset_step(nfa, sets@[k]@.to_set(), alph[jj]) by {
                if k == head {
                    assert(trans@[k] == row);
                }
            }
        }
        head += 1;
    }

    let accepting = dfa_accepting(nfa, &sets);

    // The empty set is among the discovered ones.
    let ghost set_views = sets@.map_values(|v: Vec<usize>| v@.to_set());
    let ghost trans_views = trans@.map_values(|v: Vec<usize>| v@);
    let ghost w0 = choose|w: Seq<DocSym>| word_over(w, alph) && subset_run_from(nfa, initial, w) == Set::<usize>::empty();
    proof {
        assert forall|k: int, jj: int| 0 <= k < set_views.len() && 0 <= jj < alph.len() implies (#[trigger] trans_views[k][jj]) < set_views.len()
            && set_views[trans_views[k][jj] as int] == subset_step(nfa, set_views[k], alph[jj]) by {
            assert(trans_views[k] == trans@[k]@);
            assert(trans@[k]@[jj] < sets@.len());
        }
        assert(word_over(w0, alph));
        lemma_discovered_holds_runs(nfa, initial, alph, set_views, trans_views, w0);
    }
    let ghost kk0 = choose|kk: int| 0 <= kk < set_views.len() && set_views[kk] == subset_run_from(nfa, initial, w0);
    let mut dead_id: usize = 0;
    let mut found_dead = false;
    let mut k: usize = 0;
    while !found_dead && k < sets.len()
        invariant
            k <= sets@.len(),
            !found_dead ==> forall|kk: int| 0 <= kk < k ==> (#[trigger] sets@[kk])@.len() != 0,
            found_dead ==> dead_id < sets@.len() && sets@[dead_id as int]@.len() == 0,
        decreases sets@.len() - k,
    {
        if sets[k].len() == 0 {
            dead_id = k;
            found_dead = true;
        }
        k += 1;
    }
    proof {
        if !found_dead {
            assert(set_views[kk0] == sets@[kk0]@.to_set());
            assert(sets@[kk0]@.len() != 0);
            assert(sets@[kk0]@.to_set().contains(sets@[kk0]@[0]));
        }
    }
    let tables = DfaTables { alphabet: copy_alphabet(alphabet), trans, accepting, initial_id: 0, dead_id };
    proof {
        assert(sets@[dead_id as int]@ =~= Seq::<usize>::empty());
        assert(sets@[dead_id as int]@.to_set() =~= Set::<usize>::empty());
        if dead_id == 0 {
            assert(sets@[0]@.to_set().contains(initial));
        }
        assert forall|jj: int| 0 <= jj < m implies tables.trans@[dead_id as int]@[jj] == dead_id by {
            let t = tables.trans@[dead_id as int]@[jj];
            assert(subset_step(nfa, Set::<usize>::empty(), alph[jj]) =~= Set::<usize>::empty());
            if t != dead_id {
                lemma_increasing_unique(sets@[t as int]@, sets@[dead_id as int]@);
            }
        }
        if forall|s: DocSym| syms_view(alphabet@).contains(s) <==> in_alphabet(nfa, s) {
            assert forall|w: Seq<DocSym>| tables.accepts(w) == set_accepting(nfa, #[trigger] subset_run_from(nfa, initial, w)) by {
                lemma_tables_run_sets(nfa, initial, &tables, sets@, w);
            }
        }
        assert forall|k1: int, k2: int| 0 <= k1 < set_views.len() && 0 <= k2 < set_views.len() && k1 != k2
            implies #[trigger] set_views[k1] != #[trigger] set_views[k2] by {
            if set_views[k1] == set_views[k2] {
                lemma_increasing_unique(sets@[k1]@, sets@[k2]@);
            }
        }
        assert forall|kk: int, jj: int| 0 <= kk < set_views.len() && 0 <= jj < tables.alphabet@.len()
            implies set_views[(#[trigger] tables.trans@[kk]@[jj]) as int] == subset_step(nfa, set_views[kk], syms_view(tables.alphabet@)[jj]) by {
            assert(trans_views[kk] == tables.trans@[kk]@);
        }
        assert(subset_tables(nfa, initial, &tables, set_views));
        assert forall|k: int| 0 <= k < tables.trans@.len() implies #[trigger] tables_reach(&tables, k) by {
            let w = wits[k];
            lemma_tables_run_sets(nfa, initial, &tables, sets@, w);
            lemma_tables_run_in_range(&tables, w);
            let k2 = tables.run(w);
            if k2 != k {
                lemma_increasing_unique(sets@[k2]@, sets@[k]@);
            }
            assert(tables.run(w) == k);
        }
    }
    tables
}

proof fn lemma_two_to_positive(n: nat)
    ensures
        two_to(n) >= 1,
    decreases n,
{
    if n > 0 {
        lemma_two_to_positive((n - 1) as nat);
    }
}

/// The tables built by the subset construction follow the subset run.
proof fn lemma_tables_run_sets(nfa: &Automaton, initial: usize, t: &DfaTables, sets: Seq<Vec<usize>>, w: Seq<DocSym>)
    requires
        nfa.wf(),
        t.wf(),
        t.initial_id == 0,
        sets.len() == t.trans@.len(),
        sets[0]@.to_set() == set![initial],
        sets[t.dead_id as int]@.to_set() == Set::<usize>::empty(),
        (forall|s: DocSym| syms_view(t.alphabet@).contains(s) <==> in_alphabet(nfa, s)) || word_over(w, syms_view(t.alphabet@)),
        forall|k: int| 0 <= k < sets.len() ==> all_below(#[trigger] sets[k]@, nfa.states@.len()),
        forall|k: int, j: int| 0 <= k < sets.len() && 0 <= j < t.alphabet@.len() ==>
            sets[(#[trigger] t.trans@[k]@[j]) as int]@.to_set() == subset_step(nfa, sets[k]@.to_set(), syms_view(t.alphabet@)[j]),
        forall|k: int| 0 <= k < sets.len() ==> t.accepting@[k] == set_accepting(nfa, (#[trigger] sets[k])@.to_set()),
    ensures
        sets[t.run(w)]@.to_set() == subset_run_from(nfa, initial, w),
        t.accepts(w) == set_accepting(nfa, subset_run_from(nfa, initial, w)),
    decreases w.len(),
{
    lemma_tables_run_in_range(t, w);
    if w.len() > 0 {
        let w1 = w.drop_last();
        assert forall|i: int| 0 <= i < w1.len() implies #[trigger] w1[i] == w[i] by {}
        lemma_tables_run_sets(nfa, initial, t, sets, w1);
        lemma_tables_run_in_range(t, w1);
        let i = t.run(w1);
        let v = syms_view(t.alphabet@);
        if v.contains(w.last()) {
            let j = position_of(v, w.last());
            assert(sets[t.trans@[i]@[j] as int]@.to_set() == subset_step(nfa, sets[i]@.to_set(), v[j]));
        } else {
            assert forall|q: usize| sets[i]@.to_set().contains(q) implies q < nfa.states@.len() by {
                let m = choose|m: int| 0 <= m < sets[i]@.len() && sets[i]@[m] == q;
                assert(all_below(sets[i]@, nfa.states@.len()));
            }
            lemma_step_outside_alphabet(nfa, sets[i]@.to_set(), w.last());
        }
    }
}


/// Each state points to the representative of its class: representatives
/// represent themselves, classes agree on acceptance, and the class reached
/// by a symbol depends only on the class.
pub open spec fn is_congruence(t: &DfaTables, repr: Seq<usize>) -> bool {
    let n = t.trans@.len();
    &&& repr.len() == n
    &&& forall|i: int| 0 <= i < n ==> (#[trigger] repr[i]) < n && repr[repr[i] as int] == repr[i]
    &&& forall|i: int| 0 <= i < n ==> t.accepting@[i] == t.accepting@[(#[trigger] repr[i]) as int]
    &&& forall|i: int, j: int| 0 <= i < n && 0 <= j < t.alphabet@.len() ==>
        repr[(#[trigger] t.trans@[i]@[j]) as int] == repr[t.trans@[repr[i] as int]@[j] as int]
}

/// The dead state rejects and every symbol keeps it there.
pub open spec fn dead_absorbing(t: &DfaTables) -> bool {
    &&& !t.accepting@[t.dead_id as int]
    &&& forall|j: int| 0 <= j < t.alphabet@.len() ==> #[trigger] t.trans@[t.dead_id as int]@[j] == t.dead_id
}

/// Number of elements of `s` other than `a` and `b`.
pub open spec fn count_other(s: Seq<usize>, a: usize, b: usize) -> nat
    decreases s.len(),
{
    if s.len() == 0 {
        0
    } else {
        count_other(s.drop_last(), a, b) + if s.last() != a && s.last() != b { 1nat } else { 0nat }
    }
}

/// In a sequence without repeats, every element is either `a`, `b` or counted.
proof fn lemma_count_other_exact(s: Seq<usize>, a: usize, b: usize)
    requires
        strictly_increasing(s),
    ensures
        count_other(s, a, b) + (if s.contains(a) { 1int } else { 0int }) + (if a != b && s.contains(b) { 1int } else { 0int })
            == s.len(),
    decreases s.len(),
{
    if s.len() > 0 {
        let d = s.drop_last();
        let x = s.last();
        assert(strictly_increasing(d)) by {
            assert forall|i: int, j: int| 0 <= i < j < d.len() implies (#[trigger] d[i]) < (#[trigger] d[j]) by {
                assert(d[i] == s[i] && d[j] == s[j]);
            }
        }
        lemma_count_other_exact(d, a, b);
        assert(!d.contains(x)) by {
            if d.contains(x) {
                let k = choose|k: int| 0 <= k < d.len() && d[k] == x;
                assert(s[k] < s[s.len() - 1]);
            }
        }
        assert(s == d.push(x));
        assert forall|y: usize| s.contains(y) == (d.contains(y) || x == y) by {
            if s.contains(y) {
                let k = choose|k: int| 0 <= k < s.len() && s[k] == y;
                if k < d.len() {
                    assert(d[k] == y);
                }
            }
            if d.contains(y) {
                let k = choose|k: int| 0 <= k < d.len() && d[k] == y;
                assert(s[k] == y);
            }
            if x == y {
                assert(s[s.len() - 1] == y);
            }
        }
    }
}

/// The distinct values of `v`, strictly increasing.
fn distinct_values(v: &Vec<usize>) -> (r: Vec<usize>)
    ensures
        strictly_increasing(r@),
        r@.to_set() == v@.to_set(),
{
    let mut out: Vec<usize> = Vec::new();
    let mut i: usize = 0;
    while i < v.len()
        invariant
            i <= v@.len(),
            strictly_increasing(out@),
            out@.to_set() == v@.take(i as int).to_set(),
        decreases v@.len() - i,
    {
        insert_sorted(&mut out, v[i]);
        proof {
            assert(v@.take(i + 1) =~= v@.take(i as int).push(v@[i as int]));
            v@.take(i as int).lemma_push_to_set_commute(v@[i as int]);
        }
        i += 1;
    }
    assert(v@.take(v@.len() as int) =~= v@);
    out
}

/// The output ids of `m` as a sequence over the keys below `n`: `None`
/// where `m` has no id.
pub open spec fn ids_by_key(m: Map<usize, usize>, n: nat) -> Seq<Option<usize>> {
    Seq::new(n, |a: int| if m.contains_key(a as usize) { Some(m[a as usize]) } else { None })
}

/// Giving key `k` the id `v` updates one place of the sequence.
proof fn lemma_ids_by_key_insert(m: Map<usize, usize>, n: nat, k: usize, v: usize)
    requires
        k < n,
        n <= usize::MAX,
    ensures
        ids_by_key(m.insert(k, v), n) == ids_by_key(m, n).update(k as int, Some(v)),
{
    let s1 = ids_by_key(m.insert(k, v), n);
    let s2 = ids_by_key(m, n).update(k as int, Some(v));
    assert forall|a: int| 0 <= a < n implies s1[a] == s2[a] by {
        assert(a as usize == a);
        if a == k {
            assert(m.insert(k, v).contains_key(k));
        } else {
            assert(a as usize != k);
        }
    }
    assert(s1 =~= s2);
}

/// `r` gives each representative its output id: distinct ids, the
/// initial class 1, the dead class 0 unless it is the initial class.
pub open spec fn remap_ok(repr: Seq<usize>, dead_repr: usize, init_repr: usize, r: Seq<Option<usize>>) -> bool {
    &&& r.len() == repr.len()
    &&& forall|k: int| 0 <= k < repr.len() ==> r[(#[trigger] repr[k]) as int] is Some
    &&& r[dead_repr as int] == Some(if dead_repr == init_repr { 1usize } else { 0usize })
    &&& r[init_repr as int] == Some(1usize)
    &&& forall|a: int, b: int| 0 <= a < r.len() && 0 <= b < r.len() && a != b && r[a] is Some && r[b] is Some
            ==> #[trigger] r[a] != #[trigger] r[b]
    &&& forall|a: int| 0 <= a < r.len() && #[trigger] r[a] == Some(0usize) ==> a == dead_repr && dead_repr != init_repr
}

/// Some class has the output id `id`.
pub open spec fn id_used(repr: Seq<usize>, r: Seq<Option<usize>>, id: usize) -> bool {
    exists|k: int| 0 <= k < repr.len() && r[repr[k] as int] == Some(id)
}

/// Output ids of the classes: the class of the dead state gets 0, the
/// class of the initial state 1 (which wins if they are the same class),
/// the other classes 2, 3, ... in increasing order of their representatives.
/// Also returns how many ids are in use: one per class, and one more for
/// the dead state when it shares the class of the initial state.
fn remap_repr_to_output_ids(repr: &Vec<usize>, dead_repr: usize, init_repr: usize) -> (res: (HashMap<usize, usize>, usize))
    requires
        forall|k: int| 0 <= k < repr@.len() ==> (#[trigger] repr@[k]) < repr@.len(),
        repr@.to_set().contains(dead_repr),
        repr@.to_set().contains(init_repr),
        dead_repr == init_repr ==> repr@.to_set().len() < repr@.len(),
    ensures
        forall|k: usize| #[trigger] res.0@.contains_key(k) ==> k < repr@.len(),
        ({
            let r = ids_by_key(res.0@, repr@.len());
            let count = res.1;
            &&& count == repr@.to_set().len() + (if dead_repr == init_repr { 1int } else { 0int })
            &&& forall|a: int| 0 <= a < r.len() && r[a] is Some ==> (#[trigger] r[a]).unwrap() < count
            &&& remap_ok(repr@, dead_repr, init_repr, r)
            &&& forall|id: usize| 1 <= id < count ==> #[trigger] id_used(repr@, r, id)
            &&& forall|a: int| 0 <= a < r.len() && (#[trigger] r[a]) is Some ==> repr@.to_set().contains(a as usize)
            &&& forall|a: int, b: int| 0 <= a < b < r.len() && (#[trigger] r[a]) is Some && (#[trigger] r[b]) is Some
                && a != dead_repr && a != init_repr && b != dead_repr && b != init_repr
                ==> 2 <= r[a].unwrap() < r[b].unwrap()
        }),
{
    broadcast use vstd::std_specs::hash::group_hash_axioms;
    let n = repr.len();
    let unique = distinct_values(repr);
    let mut map: HashMap<usize, usize> = HashMap::new();
    assert(repr@.to_set().contains(dead_repr));
    let ghost dk = choose|k: int| 0 <= k < repr@.len() && repr@[k] == dead_repr;
    let ghost ik = choose|k: int| 0 <= k < repr@.len() && repr@[k] == init_repr;
    assert(repr@[dk] < n && repr@[ik] < n);
    let ghost m0 = map@;
    map.insert(dead_repr, 0);
    proof {
        lemma_ids_by_key_insert(m0, n as nat, dead_repr, 0);
    }
    let ghost m1 = map@;
    map.insert(init_repr, 1);
    proof {
        lemma_ids_by_key_insert(m1, n as nat, init_repr, 1);
        assert forall|a: int| 0 <= a < n implies (ids_by_key(m0, n as nat)[a] is None) by {}
    }
    let ghost mut ids = ids_by_key(map@, n as nat);
    let ghost ud = choose|k: int| 0 <= k < unique@.len() && unique@[k] == dead_repr;
    let ghost ui = choose|k: int| 0 <= k < unique@.len() && unique@[k] == init_repr;
    proof {
        assert(unique@.to_set().contains(dead_repr));
        assert(unique@.to_set().contains(init_repr));
        lemma_count_other_exact(unique@, dead_repr, init_repr);
        repr@.lemma_cardinality_of_set();
        unique@.unique_seq_to_set();
        assert forall|a: int| 0 <= a < n && a != dead_repr && a != init_repr implies ids[a] is None by {}
        assert forall|k: int| 0 <= k < unique@.len() implies (#[trigger] unique@[k]) < n by {
            assert(unique@.to_set().contains(unique@[k]));
            let kk = choose|kk: int| 0 <= kk < repr@.len() && repr@[kk] == unique@[k];
        }
        assert(unique@.no_duplicates()) by {
            assert forall|x: int, y: int| 0 <= x < unique@.len() && 0 <= y < unique@.len() && x != y implies unique@[x] != unique@[y] by {
                if x < y {
                    assert(unique@[x] < unique@[y]);
                } else {
                    assert(unique@[y] < unique@[x]);
                }
            }
        }
    }
    let mut next: usize = 2;
    let mut j: usize = 0;
    proof {
        assert(ids[repr@[ik] as int] == Some(1usize));
        assert forall|id: usize| 1 <= id < next implies #[trigger] id_used(repr@, ids, id) by {
            assert(id == 1);
        }
    }
    while j < unique.len()
        invariant
            j <= unique@.len(),
            ids.len() == n,
            n == repr@.len(),
            strictly_increasing(unique@),
            unique@.to_set() == repr@.to_set(),
            count_other(unique@, dead_repr, init_repr) + (if dead_repr == init_repr { 1int } else { 2int }) <= unique@.len(),
            unique@.len() <= n,
            unique@.len() == repr@.to_set().len(),
            dead_repr == init_repr ==> repr@.to_set().len() < n,
            next == 2 + count_other(unique@.take(j as int), dead_repr, init_repr),
            ids[dead_repr as int] == Some(if dead_repr == init_repr { 1usize } else { 0usize }),
            ids[init_repr as int] == Some(1usize),
            dead_repr < n,
            init_repr < n,
            forall|k: int| 0 <= k < repr@.len() ==> (#[trigger] repr@[k]) < repr@.len(),
            forall|k: int| 0 <= k < unique@.len() ==> (#[trigger] unique@[k]) < n,
            forall|k: int| 0 <= k < j ==> ids[(#[trigger] unique@[k]) as int] is Some,
            forall|a: int| 0 <= a < n && ids[a] is Some ==> (#[trigger] ids[a]).unwrap() < next,
            forall|a: int, b: int| 0 <= a < n && 0 <= b < n && a != b && ids[a] is Some && ids[b] is Some
                ==> #[trigger] ids[a] != #[trigger] ids[b],
            forall|k: int| j <= k < unique@.len() && unique@[k] != dead_repr && unique@[k] != init_repr ==> ids[(#[trigger] unique@[k]) as int] is None,
            forall|a: int| 0 <= a < n && #[trigger] ids[a] == Some(0usize) ==> a == dead_repr && dead_repr != init_repr,
            next >= 2,
            forall|k: usize| #[trigger] map@.contains_key(k) ==> k < n,
            ids == ids_by_key(map@, n as nat),
            repr@[ik] == init_repr,
            0 <= ik < repr@.len(),
            forall|id: usize| 1 <= id < next ==> #[trigger] id_used(repr@, ids, id),
            forall|a: int| 0 <= a < n && (#[trigger] ids[a]) is Some ==> repr@.to_set().contains(a as usize),
            forall|a: int| 0 <= a < n && (#[trigger] ids[a]) is Some && a != dead_repr && a != init_repr
                ==> 2 <= ids[a].unwrap() && (forall|k: int| j <= k < unique@.len() ==> a < #[trigger] unique@[k]),
            forall|a: int, b: int| 0 <= a < b < n && (#[trigger] ids[a]) is Some && (#[trigger] ids[b]) is Some
                && a != dead_repr && a != init_repr && b != dead_repr && b != init_repr
                ==> ids[a].unwrap() < ids[b].unwrap(),
        decreases unique@.len() - j,
    {
        let rep = unique[j];
        proof {
            assert(unique@.to_set().contains(rep));
            let k = choose|k: int| 0 <= k < repr@.len() && repr@[k] == rep;
            assert(rep < n);
        }
        if map.contains_key(&rep) {
            j += 1;
            proof {
                assert(unique@.take(j as int).drop_last() =~= unique@.take(j - 1));
                assert(rep == dead_repr || rep == init_repr);
            }
            continue;
        }
        proof {
            assert(unique@.take(j + 1).drop_last() =~= unique@.take(j as int));
            lemma_count_other_mono(unique@, dead_repr, init_repr, j + 1);
            assert(rep != dead_repr && rep != init_repr);
            assert(unique@.take(j + 1).last() == rep);
            assert(count_other(unique@.take(j + 1), dead_repr, init_repr) == count_other(unique@.take(j as int), dead_repr, init_repr) + 1);
            assert(next + 1 <= n);
        }
        let ghost old_map = ids;
        let ghost old_next = next;
        let ghost mb = map@;
        map.insert(rep, next);
        proof {
            lemma_ids_by_key_insert(mb, n as nat, rep, next);
            ids = ids.update(rep as int, Some(next));
        }
        next += 1;
        j += 1;
        proof {
            let kr = choose|k: int| 0 <= k < repr@.len() && repr@[k] == rep;
            assert(ids[repr@[kr] as int] == Some(old_next));
            assert forall|id: usize| 1 <= id < next implies #[trigger] id_used(repr@, ids, id) by {
                if id < old_next {
                    assert(id_used(repr@, old_map, id));
                    let k = choose|k: int| 0 <= k < repr@.len() && old_map[repr@[k] as int] == Some(id);
                    assert(repr@[k] != rep);
                    assert(ids[repr@[k] as int] == Some(id));
                } else {
                    assert(ids[repr@[kr] as int] == Some(id));
                }
            }
            assert forall|k: int| j <= k < unique@.len() && unique@[k] != dead_repr && unique@[k] != init_repr implies ids[(#[trigger] unique@[k]) as int] is None by {
                assert(unique@[j - 1] < unique@[k]);
                assert(old_map[unique@[k] as int] is None);
            }
        }
    }
    proof {
        assert forall|k: int| 0 <= k < repr@.len() implies ids[(#[trigger] repr@[k]) as int] is Some by {
            assert(repr@.to_set().contains(repr@[k]));
            assert(unique@.to_set().contains(repr@[k]));
            let u = choose|u: int| 0 <= u < unique@.len() && unique@[u] == repr@[k];
        }
        assert(unique@.take(unique@.len() as int) =~= unique@);
        lemma_count_other_exact(unique@, dead_repr, init_repr);
    }
    (map, next)
}

proof fn lemma_count_other_mono(s: Seq<usize>, a: usize, b: usize, i: int)
    requires
        0 <= i <= s.len(),
    ensures
        count_other(s.take(i), a, b) <= count_other(s, a, b),
    decreases s.len() - i,
{
    if i < s.len() {
        lemma_count_other_mono(s, a, b, i + 1);
        assert(s.take(i + 1).drop_last() =~= s.take(i));
    } else {
        assert(s.take(i) =~= s);
    }
}


/// Output id of the class of state `x`.
pub open spec fn class_out(repr: Seq<usize>, out: Seq<Option<usize>>, x: int) -> usize {
    out[repr[x] as int].unwrap()
}

/// Output id that the class of representative `r` reaches by `s`; 0 for symbols outside the alphabet.
pub open spec fn class_step(t: &DfaTables, repr: Seq<usize>, out: Seq<Option<usize>>, r: int, s: DocSym) -> usize {
    let v = syms_view(t.alphabet@);
    if v.contains(s) {
        class_out(repr, out, t.trans@[r]@[position_of(v, s)] as int)
    } else {
        0
    }
}

/// `st` is the emitted state of representative `r`.
pub open spec fn emitted_ok(t: &DfaTables, repr: Seq<usize>, out: Seq<Option<usize>>, r: int, st: StateTable, bound: nat) -> bool {
    &&& st.accepting == t.accepting@[r]
    &&& st.fallback_state == 0
    &&& forall|l: Seq<char>| #[trigger] member_target(st.member_transitions@, l, 0) == class_step(t, repr, out, r, DocSym::Member(l))
    &&& forall|i: nat| #[trigger] crate::automaton::array_target(st.array_transitions@, i, 0) == class_step(t, repr, out, r, DocSym::List)
    &&& clean_arrays(st)
    &&& clean_transitions(st)
    &&& table_targets_below(st, bound)
}

/// No transition leads to the dumpster 0 (the fallback does that), and no
/// member label occurs twice.
pub open spec fn clean_transitions(st: StateTable) -> bool {
    &&& forall|k: int| 0 <= k < st.member_transitions@.len() ==> (#[trigger] st.member_transitions@[k]).1 != 0
    &&& forall|k1: int, k2: int| 0 <= k1 < k2 < st.member_transitions@.len()
        ==> (#[trigger] st.member_transitions@[k1]).0@ != (#[trigger] st.member_transitions@[k2]).0@
    &&& forall|k: int| 0 <= k < st.array_transitions@.len() ==> (#[trigger] st.array_transitions@[k]).target != 0
}

/// At most one array transition, and it selects every index.
pub open spec fn clean_arrays(st: StateTable) -> bool {
    &&& st.array_transitions@.len() <= 1
    &&& forall|k: int| 0 <= k < st.array_transitions@.len() ==> (#[trigger] st.array_transitions@[k]).label
        == (crate::automaton::ArrayLabel::Slice { start: 0, end: None, step: 1 })
}

proof fn lemma_member_target_push(s: Seq<MemberTransition>, x: MemberTransition, l: Seq<char>, f: usize)
    ensures
        member_target(s.push(x), l, f) == if has_member_label(s, l) {
            member_target(s, l, f)
        } else if x.0@ == l {
            x.1
        } else {
            f
        },
    decreases s.len(),
{
    if s.len() == 0 {
        assert(s.push(x)[0] == x);
        assert(s.push(x).drop_first() =~= Seq::<MemberTransition>::empty());
        assert(member_target(Seq::<MemberTransition>::empty(), l, f) == f);
        assert(!has_member_label(s, l));
    } else {
        assert(s.push(x)[0] == s[0]);
        assert(s.push(x).drop_first() =~= s.drop_first().push(x));
        lemma_member_target_push(s.drop_first(), x, l, f);
        if s[0].0@ != l {
            assert(has_member_label(s, l) == has_member_label(s.drop_first(), l)) by {
                if has_member_label(s, l) {
                    let k = choose|k: int| 0 <= k < s.len() && (#[trigger] s[k]).0@ == l;
                    assert(s.drop_first()[k - 1] == s[k]);
                }
                if has_member_label(s.drop_first(), l) {
                    let k = choose|k: int| 0 <= k < s.drop_first().len() && (#[trigger] s.drop_first()[k]).0@ == l;
                    assert(s[k + 1] == s.drop_first()[k]);
                }
            }
        } else {
            assert(has_member_label(s, l)) by {
                assert(s[0].0@ == l);
            }
        }
    }
}

/// The state of the minimised automaton for the class of representative `r`.
fn emitted_state(t: &DfaTables, repr: &Vec<usize>, out: &HashMap<usize, usize>, r: usize, max_id: usize) -> (st: StateTable)
    requires
        t.wf(),
        repr@.len() == t.trans@.len(),
        ids_by_key(out@, repr@.len()).len() == t.trans@.len(),
        r < t.trans@.len(),
        forall|k: int| 0 <= k < repr@.len() ==> (#[trigger] repr@[k]) < repr@.len(),
        forall|k: int| 0 <= k < repr@.len() ==> ids_by_key(out@, repr@.len())[(#[trigger] repr@[k]) as int] is Some,
        forall|a: int| 0 <= a < ids_by_key(out@, repr@.len()).len() && ids_by_key(out@, repr@.len())[a] is Some ==> (#[trigger] ids_by_key(out@, repr@.len())[a]).unwrap() <= max_id,
    ensures
        emitted_ok(t, repr@, ids_by_key(out@, repr@.len()), r as int, st, max_id as nat + 1),
{
    broadcast use vstd::std_specs::hash::group_hash_axioms;
    let ghost v = syms_view(t.alphabet@);
    let mut members: Vec<MemberTransition> = Vec::new();
    let mut arrays: Vec<crate::automaton::ArrayTransition> = Vec::new();
    let mut j: usize = 0;
    while j < t.alphabet.len()
        invariant
            t.wf(),
            v == syms_view(t.alphabet@),
            repr@.len() == t.trans@.len(),
            ids_by_key(out@, repr@.len()).len() == t.trans@.len(),
            r < t.trans@.len(),
            forall|k: int| 0 <= k < repr@.len() ==> (#[trigger] repr@[k]) < repr@.len(),
            forall|k: int| 0 <= k < repr@.len() ==> ids_by_key(out@, repr@.len())[(#[trigger] repr@[k]) as int] is Some,
            forall|a: int| 0 <= a < ids_by_key(out@, repr@.len()).len() && ids_by_key(out@, repr@.len())[a] is Some ==> (#[trigger] ids_by_key(out@, repr@.len())[a]).unwrap() <= max_id,
            j <= t.alphabet@.len(),
            forall|l: Seq<char>| #[trigger] member_target(members@, l, 0) == (if exists|jj: int| 0 <= jj < j && v[jj] == DocSym::Member(l) {
                class_out(repr@, ids_by_key(out@, repr@.len()), t.trans@[r as int]@[position_of(v, DocSym::Member(l))] as int)
            } else {
                0
            }),
            forall|l: Seq<char>| has_member_label(members@, l) ==> exists|jj: int| 0 <= jj < j && v[jj] == DocSym::Member(l),
            forall|i: nat| #[trigger] crate::automaton::array_target(arrays@, i, 0) == (if exists|jj: int| 0 <= jj < j && v[jj] == DocSym::List {
                class_out(repr@, ids_by_key(out@, repr@.len()), t.trans@[r as int]@[position_of(v, DocSym::List)] as int)
            } else {
                0
            }),
            arrays@.len() <= 1,
            arrays@.len() == 1 ==> exists|jj: int| 0 <= jj < j && v[jj] == DocSym::List,
            forall|k: int| 0 <= k < arrays@.len() ==> (#[trigger] arrays@[k]).label
                == (crate::automaton::ArrayLabel::Slice { start: 0, end: None, step: 1 }),
            forall|k: int| 0 <= k < arrays@.len() ==> (#[trigger] arrays@[k]).target <= max_id,
            forall|k: int| 0 <= k < members@.len() ==> (#[trigger] members@[k]).1 <= max_id,
            forall|k: int| 0 <= k < members@.len() ==> (#[trigger] members@[k]).1 != 0,
            forall|k: int| 0 <= k < arrays@.len() ==> (#[trigger] arrays@[k]).target != 0,
            forall|k1: int, k2: int| 0 <= k1 < k2 < members@.len()
                ==> (#[trigger] members@[k1]).0@ != (#[trigger] members@[k2]).0@,
            strictly_sorted_syms(v),
        decreases t.alphabet@.len() - j,
    {
        let tgt = t.trans[r][j];
        proof {
            assert(ids_by_key(out@, repr@.len())[repr@[tgt as int] as int] is Some);
        }
        let tgt_out = *out.get(&repr[tgt]).unwrap();
        proof {
            lemma_position_of(v, j as int);
            assert(t.trans@[r as int]@[j as int] < t.trans@.len());
            assert(ids_by_key(out@, repr@.len())[repr@[tgt as int] as int] is Some);
        }
        let ghost old_members = members@;
        let ghost old_arrays = arrays@;
        if tgt_out != 0 {
            match &t.alphabet[j] {
                DocumentSymbol::List => {
                    arrays.push(new_array_transition(tgt_out));
                },
                DocumentSymbol::Member(name) => {
                    members.push(new_member_transition(name.as_str(), tgt_out));
                },
            }
        }
        proof {
            let sj = v[j as int];
            assert(sj == t.alphabet@[j as int]@);
            assert forall|l: Seq<char>| #[trigger] member_target(members@, l, 0) == (if exists|jj: int| 0 <= jj < j + 1 && v[jj] == DocSym::Member(l) {
                class_out(repr@, ids_by_key(out@, repr@.len()), t.trans@[r as int]@[position_of(v, DocSym::Member(l))] as int)
            } else {
                0
            }) by {
                let before = exists|jj: int| 0 <= jj < j && v[jj] == DocSym::Member(l);
                if sj == DocSym::Member(l) {
                    if before {
                        let jj = choose|jj: int| 0 <= jj < j && v[jj] == DocSym::Member(l);
                        assert(doc_sym_less(v[jj], v[j as int]));
                        lemma_chars_less_irreflexive(l);
                    }
                    assert(!has_member_label(old_members, l));
                    if tgt_out != 0 {
                        lemma_member_target_push(old_members, members@.last(), l, 0);
                        assert(members@ == old_members.push(members@.last()));
                    }
                } else {
                    if tgt_out != 0 && sj is Member {
                        lemma_member_target_push(old_members, members@.last(), l, 0);
                        assert(members@ == old_members.push(members@.last()));
                        if !has_member_label(old_members, l) {
                            lemma_member_target_absent(old_members, l, 0);
                        }
                    }
                    if exists|jj: int| 0 <= jj < j + 1 && v[jj] == DocSym::Member(l) {
                        let jj = choose|jj: int| 0 <= jj < j + 1 && v[jj] == DocSym::Member(l);
                        assert(jj != j);
                    }
                }
            }
            assert forall|l: Seq<char>| has_member_label(members@, l) implies exists|jj: int| 0 <= jj < j + 1 && v[jj] == DocSym::Member(l) by {
                let k = choose|k: int| 0 <= k < members@.len() && (#[trigger] members@[k]).0@ == l;
                if k < old_members.len() {
                    assert(members@[k] == old_members[k]);
                    assert(has_member_label(old_members, l));
                } else {
                    assert(v[j as int] == DocSym::Member(l));
                }
            }
            assert forall|i: nat| #[trigger] crate::automaton::array_target(arrays@, i, 0) == (if exists|jj: int| 0 <= jj < j + 1 && v[jj] == DocSym::List {
                class_out(repr@, ids_by_key(out@, repr@.len()), t.trans@[r as int]@[position_of(v, DocSym::List)] as int)
            } else {
                0
            }) by {
                if sj == DocSym::List {
                    if exists|jj: int| 0 <= jj < j && v[jj] == DocSym::List {
                        let jj = choose|jj: int| 0 <= jj < j && v[jj] == DocSym::List;
                        assert(doc_sym_less(v[jj], v[j as int]));
                    }
                    if tgt_out != 0 {
                        assert(old_arrays.len() == 0);
                        assert(arrays@.len() == 1);
                        assert(arrays@.drop_first() =~= Seq::<crate::automaton::ArrayTransition>::empty());
                        assert(crate::automaton::label_matches(arrays@[0].label, i)) by {
                            assert((i - 0int) % 1int == 0) by (nonlinear_arith);
                        }
                    }
                } else {
                    if exists|jj: int| 0 <= jj < j + 1 && v[jj] == DocSym::List {
                        let jj = choose|jj: int| 0 <= jj < j + 1 && v[jj] == DocSym::List;
                        assert(jj != j);
                    }
                }
            }
            if arrays@.len() == 1 && old_arrays.len() == 0 {
                assert(v[j as int] == DocSym::List);
            }
            if sj == DocSym::List && exists|jj: int| 0 <= jj < j && v[jj] == DocSym::List {
                let jj = choose|jj: int| 0 <= jj < j && v[jj] == DocSym::List;
                assert(doc_sym_less(v[jj], v[j as int]));
            }
            if tgt_out != 0 && sj is Member {
                assert(members@ == old_members.push(members@.last()));
                assert forall|k1: int, k2: int| 0 <= k1 < k2 < members@.len()
                    implies (#[trigger] members@[k1]).0@ != (#[trigger] members@[k2]).0@ by {
                    if k2 == members@.len() - 1 {
                        let l1 = members@[k1].0@;
                        assert(members@[k1] == old_members[k1]);
                        assert(has_member_label(old_members, l1));
                        let jj = choose|jj: int| 0 <= jj < j && v[jj] == DocSym::Member(l1);
                        assert(doc_sym_less(v[jj], v[j as int]));
                        if l1 == members@[k2].0@ {
                            lemma_chars_less_irreflexive(l1);
                        }
                    } else {
                        assert(members@[k1] == old_members[k1] && members@[k2] == old_members[k2]);
                    }
                }
            }
            if sj == DocSym::List && tgt_out != 0 {
                assert(!exists|jj: int| 0 <= jj < j && v[jj] == DocSym::List) by {
                    if exists|jj: int| 0 <= jj < j && v[jj] == DocSym::List {
                        let jj = choose|jj: int| 0 <= jj < j && v[jj] == DocSym::List;
                        assert(doc_sym_less(v[jj], v[j as int]));
                    }
                }
            }
        }
        j += 1;
    }
    let st = StateTable::new(t.accepting[r], members, arrays, 0);
    proof {
        assert forall|l: Seq<char>| #[trigger] member_target(st.member_transitions@, l, 0) == class_step(t, repr@, ids_by_key(out@, repr@.len()), r as int, DocSym::Member(l)) by {
            if v.contains(DocSym::Member(l)) {
                let jj = choose|jj: int| 0 <= jj < v.len() && v[jj] == DocSym::Member(l);
                assert(exists|jj: int| 0 <= jj < t.alphabet@.len() && v[jj] == DocSym::Member(l));
            } else {
                if exists|jj: int| 0 <= jj < t.alphabet@.len() && v[jj] == DocSym::Member(l) {
                    let jj = choose|jj: int| 0 <= jj < t.alphabet@.len() && v[jj] == DocSym::Member(l);
                    assert(v.contains(v[jj]));
                }
            }
        }
        assert forall|i: nat| #[trigger] crate::automaton::array_target(st.array_transitions@, i, 0) == class_step(t, repr@, ids_by_key(out@, repr@.len()), r as int, DocSym::List) by {
            if v.contains(DocSym::List) {
                let jj = choose|jj: int| 0 <= jj < v.len() && v[jj] == DocSym::List;
                assert(exists|jj: int| 0 <= jj < t.alphabet@.len() && v[jj] == DocSym::List);
            } else {
                if exists|jj: int| 0 <= jj < t.alphabet@.len() && v[jj] == DocSym::List {
                    let jj = choose|jj: int| 0 <= jj < t.alphabet@.len() && v[jj] == DocSym::List;
                    assert(v.contains(v[jj]));
                }
            }
        }
    }
    st
}


/// Two equal entries at different places make the set of entries smaller than the sequence.
proof fn lemma_repeat_shrinks_set(s: Seq<usize>, i: int, j: int)
    requires
        0 <= i < s.len(),
        0 <= j < s.len(),
        i != j,
        s[i] == s[j],
    ensures
        s.to_set().len() < s.len(),
{
    let t = s.remove(j);
    assert(s.to_set() =~= t.to_set()) by {
        assert forall|x: usize| s.to_set().contains(x) implies t.to_set().contains(x) by {
            let k = choose|k: int| 0 <= k < s.len() && s[k] == x;
            if k == j {
                let k2 = if i < j { i } else { i - 1 };
                assert(t[k2] == x);
            } else if k < j {
                assert(t[k] == x);
            } else {
                assert(t[k - 1] == x);
            }
        }
        assert forall|x: usize| t.to_set().contains(x) implies s.to_set().contains(x) by {
            let k = choose|k: int| 0 <= k < t.len() && t[k] == x;
            if k < j {
                assert(s[k] == x);
            } else {
                assert(s[k + 1] == x);
            }
        }
    }
    t.lemma_cardinality_of_set();
}

/// A rejecting state without transitions that falls back to state 0.
pub open spec fn is_dumpster(st: StateTable) -> bool {
    &&& !st.accepting
    &&& st.member_transitions@.len() == 0
    &&& st.array_transitions@.len() == 0
    &&& st.fallback_state == 0
}

/// The shape of an emitted deterministic automaton: state 0 is a dumpster,
/// every state falls back to 0, has at most one array transition, which
/// selects every index, no transition to 0 and no member label twice.
pub open spec fn is_document_dfa(a: &Automaton) -> bool {
    &&& is_dumpster(a.states@[0])
    &&& forall|s: int| 0 <= s < a.states@.len() ==> (#[trigger] a.states@[s]).fallback_state == 0 && clean_arrays(a.states@[s])
        && clean_transitions(a.states@[s])
}

/// The emitted states realise the classes: state 0 is a dumpster and the
/// class of every state other than the dead class has its emitted state.
pub open spec fn emission_ok(t: &DfaTables, repr: Seq<usize>, out: Seq<Option<usize>>, states: Seq<StateTable>) -> bool {
    &&& states.len() >= 2
    &&& is_dumpster(states[0])
    &&& forall|x: int| 0 <= x < t.trans@.len() && #[trigger] class_out(repr, out, x) != 0 ==>
        class_out(repr, out, x) < states.len()
            && emitted_ok(t, repr, out, repr[x] as int, states[class_out(repr, out, x) as int], states.len())
}

/// How a state of the emitted automaton stands for a state of the tables:
/// it is the state of its class, or the dumpster while the tables are in the dead class.
pub open spec fn emit_related(t: &DfaTables, repr: Seq<usize>, out: Seq<Option<usize>>, ms: usize, ts: int) -> bool {
    ||| ms == class_out(repr, out, ts) && ms != 0
    ||| ms == 0 && repr[ts] == repr[t.dead_id as int]
}

/// The path symbols of a word with one more step.
proof fn lemma_doc_word_push(w: Seq<Symbol>)
    requires
        w.len() > 0,
    ensures
        doc_word(w).drop_last() == doc_word(w.drop_last()),
        doc_word(w).last() == doc_sym(w.last()),
        doc_word(w).len() == w.len(),
{
    assert(doc_word(w).drop_last() =~= doc_word(w.drop_last()));
}

/// Along any path the emitted automaton stands for the state of the tables.
proof fn lemma_emission_run(t: &DfaTables, repr: Seq<usize>, out: Seq<Option<usize>>, a: &Automaton, w: Seq<Symbol>)
    requires
        t.wf(),
        is_congruence(t, repr),
        dead_absorbing(t),
        remap_ok(repr, repr[t.dead_id as int], repr[t.initial_id as int], out),
        emission_ok(t, repr, out, a.states@),
    ensures
        0 <= t.run(doc_word(w)) < t.trans@.len(),
        emit_related(t, repr, out, a.run(w), t.run(doc_word(w))),
        a.run(w) < a.states@.len(),
    decreases w.len(),
{
    let n = t.trans@.len();
    let dead_repr = repr[t.dead_id as int];
    lemma_tables_run_in_range(t, doc_word(w));
    if w.len() == 0 {
        assert(doc_word(w) =~= Seq::<DocSym>::empty());
        assert(class_out(repr, out, t.initial_id as int) == 1);
    } else {
        let pw = w.drop_last();
        let sym = w.last();
        let d = doc_sym(sym);
        lemma_emission_run(t, repr, out, a, pw);
        lemma_doc_word_push(w);
        let ms = a.run(pw);
        let ts = t.run(doc_word(pw));
        assert(a.run(w) == a.states@[ms as int].step(sym));
        assert(t.run(doc_word(w)) == t.step(ts, d));
        let v = syms_view(t.alphabet@);
        let r = repr[ts];
        assert(r < n);
        if ms != 0 {
            let st = a.states@[ms as int];
            assert(class_out(repr, out, ts) != 0);
            assert(emitted_ok(t, repr, out, r as int, st, a.states@.len()));
            let ms2 = st.step(sym);
            assert(ms2 == class_step(t, repr, out, r as int, d)) by {
                match sym {
                    Symbol::Member(l) => {
                        assert(member_target(st.member_transitions@, l, 0) == class_step(t, repr, out, r as int, DocSym::Member(l)));
                    },
                    Symbol::Index(i) => {
                        assert(crate::automaton::array_target(st.array_transitions@, i, 0) == class_step(t, repr, out, r as int, DocSym::List));
                    },
                }
            }
            if v.contains(d) {
                let j = position_of(v, d);
                assert(0 <= j < t.alphabet@.len());
                let ts2 = t.trans@[ts]@[j] as int;
                assert(repr[ts2] == repr[t.trans@[r as int]@[j] as int]);
                assert(ms2 == class_out(repr, out, ts2));
                if ms2 == 0 {
                    assert(repr[ts2] < n);
                    assert(out[repr[ts2] as int] == Some(0usize));
                }
            } else {
                assert(ms2 == 0);
            }
        } else {
            assert(r == dead_repr);
            let st = a.states@[0];
            match sym {
                Symbol::Member(l) => {
                    assert(st.member_transitions@ =~= Seq::<MemberTransition>::empty());
                },
                Symbol::Index(i) => {
                    assert(st.array_transitions@ =~= Seq::<crate::automaton::ArrayTransition>::empty());
                },
            }
            assert(a.run(w) == 0);
            if v.contains(d) {
                let j = position_of(v, d);
                assert(0 <= j < t.alphabet@.len());
                let ts2 = t.trans@[ts]@[j] as int;
                assert(repr[ts2] == repr[t.trans@[r as int]@[j] as int]);
                assert(t.trans@[t.dead_id as int]@[j] == t.dead_id);
                assert(repr[t.trans@[t.dead_id as int]@[j] as int] == repr[t.trans@[dead_repr as int]@[j] as int]);
            }
        }
    }
}

/// The emitted automaton accepts a path exactly when the tables accept its symbols.
proof fn lemma_emission_accepts(t: &DfaTables, repr: Seq<usize>, out: Seq<Option<usize>>, a: &Automaton, w: Seq<Symbol>)
    requires
        t.wf(),
        is_congruence(t, repr),
        dead_absorbing(t),
        remap_ok(repr, repr[t.dead_id as int], repr[t.initial_id as int], out),
        emission_ok(t, repr, out, a.states@),
    ensures
        a.accepts(w) == t.accepts(doc_word(w)),
{
    lemma_emission_run(t, repr, out, a, w);
    let ms = a.run(w);
    let ts = t.run(doc_word(w));
    if ms != 0 {
        assert(class_out(repr, out, ts) != 0);
    } else {
        let dead_repr = repr[t.dead_id as int];
        assert(t.accepting@[ts] == t.accepting@[repr[ts] as int]);
        assert(t.accepting@[t.dead_id as int] == t.accepting@[dead_repr as int]);
    }
}

/// The path steps that read the alphabet symbols at positions `pw`.
pub open spec fn pos_word(t: &DfaTables, pw: Seq<int>) -> Seq<Symbol> {
    pw.map_values(|j: int| symbol_of(syms_view(t.alphabet@)[j]))
}

/// The emitted automaton realises the classes of `repr` under the output ids
/// `out`, and each of its states other than 0 is the state of a class.
#[verifier::opaque]
pub open spec fn emitted_classes(t: &DfaTables, repr: Seq<usize>, out: Seq<Option<usize>>, a: &Automaton) -> bool {
    &&& remap_ok(repr, repr[t.dead_id as int], repr[t.initial_id as int], out)
    &&& emission_ok(t, repr, out, a.states@)
    &&& forall|id: usize| 1 <= id < a.states@.len() ==> #[trigger] id_used(repr, out, id)
}

/// One step of the emitted automaton stands for one step of the tables.
proof fn lemma_emission_step(t: &DfaTables, repr: Seq<usize>, out: Seq<Option<usize>>, a: &Automaton, m: usize, x: int, j: int)
    requires
        t.wf(),
        is_congruence(t, repr),
        dead_absorbing(t),
        emitted_classes(t, repr, out, a),
        a.wf(),
        m < a.states@.len(),
        0 <= x < t.trans@.len(),
        0 <= j < t.alphabet@.len(),
        emit_related(t, repr, out, m, x),
    ensures
        emit_related(t, repr, out, a.states@[m as int].step(symbol_of(syms_view(t.alphabet@)[j])), t.trans@[x]@[j] as int),
        a.states@[m as int].step(symbol_of(syms_view(t.alphabet@)[j])) < a.states@.len(),
{
    reveal(emitted_classes);
    let n = t.trans@.len();
    let v = syms_view(t.alphabet@);
    let d = v[j];
    let sym = symbol_of(d);
    lemma_position_of(v, j);
    assert(doc_sym(sym) == d);
    crate::automaton::lemma_step_in_range(a, m as int, sym);
    let dead_repr = repr[t.dead_id as int];
    let r = repr[x];
    let x2 = t.trans@[x]@[j] as int;
    assert(repr[x2] == repr[t.trans@[r as int]@[j] as int]);
    if m != 0 {
        let st = a.states@[m as int];
        assert(class_out(repr, out, x) != 0);
        assert(emitted_ok(t, repr, out, r as int, st, a.states@.len()));
        let m2 = st.step(sym);
        assert(m2 == class_step(t, repr, out, r as int, d)) by {
            match sym {
                Symbol::Member(l) => {
                    assert(member_target(st.member_transitions@, l, 0) == class_step(t, repr, out, r as int, DocSym::Member(l)));
                },
                Symbol::Index(i) => {
                    assert(crate::automaton::array_target(st.array_transitions@, i, 0) == class_step(t, repr, out, r as int, DocSym::List));
                },
            }
        }
        assert(m2 == class_out(repr, out, x2));
        if m2 == 0 {
            assert(repr[x2] < n);
            assert(out[repr[x2] as int] == Some(0usize));
        }
    } else {
        assert(r == dead_repr);
        let st = a.states@[0];
        match sym {
            Symbol::Member(l) => {
                assert(st.member_transitions@ =~= Seq::<MemberTransition>::empty());
            },
            Symbol::Index(i) => {
                assert(st.array_transitions@ =~= Seq::<crate::automaton::ArrayTransition>::empty());
            },
        }
        assert(t.trans@[t.dead_id as int]@[j] == t.dead_id);
        assert(repr[t.trans@[t.dead_id as int]@[j] as int] == repr[t.trans@[dead_repr as int]@[j] as int]);
    }
}

/// Runs of the emitted automaton stand for runs of the tables from related states.
proof fn lemma_emission_run_idx(t: &DfaTables, repr: Seq<usize>, out: Seq<Option<usize>>, a: &Automaton, m: usize, x: int, pw: Seq<int>)
    requires
        t.wf(),
        is_congruence(t, repr),
        dead_absorbing(t),
        emitted_classes(t, repr, out, a),
        a.wf(),
        m < a.states@.len(),
        0 <= x < t.trans@.len(),
        emit_related(t, repr, out, m, x),
        forall|i: int| 0 <= i < pw.len() ==> 0 <= #[trigger] pw[i] < t.alphabet@.len(),
    ensures
        emit_related(t, repr, out, a.run_from(m, pos_word(t, pw)), run_idx(t, x, pw)),
        a.run_from(m, pos_word(t, pw)) < a.states@.len(),
        0 <= run_idx(t, x, pw) < t.trans@.len(),
    decreases pw.len(),
{
    if pw.len() > 0 {
        let sw = pos_word(t, pw);
        assert(0 <= pw[0] < t.alphabet@.len());
        lemma_emission_step(t, repr, out, a, m, x, pw[0]);
        let m2 = a.states@[m as int].step(sw[0]);
        let x2 = t.trans@[x]@[pw[0]] as int;
        assert forall|i: int| 0 <= i < pw.drop_first().len() implies 0 <= #[trigger] pw.drop_first()[i] < t.alphabet@.len() by {
            assert(pw.drop_first()[i] == pw[i + 1]);
        }
        lemma_emission_run_idx(t, repr, out, a, m2, x2, pw.drop_first());
        assert(pos_word(t, pw.drop_first()) =~= sw.drop_first());
        crate::automaton::lemma_run_from_first(a, m, sw);
    }
}

/// Related states agree on acceptance.
proof fn lemma_emission_accepting(t: &DfaTables, repr: Seq<usize>, out: Seq<Option<usize>>, a: &Automaton, m: usize, x: int)
    requires
        t.wf(),
        is_congruence(t, repr),
        dead_absorbing(t),
        emitted_classes(t, repr, out, a),
        m < a.states@.len(),
        0 <= x < t.trans@.len(),
        emit_related(t, repr, out, m, x),
    ensures
        a.states@[m as int].accepting == t.accepting@[x],
{
    reveal(emitted_classes);
    if m != 0 {
        assert(class_out(repr, out, x) != 0);
        assert(emitted_ok(t, repr, out, repr[x] as int, a.states@[m as int], a.states@.len()));
    } else {
        let dead_repr = repr[t.dead_id as int];
        assert(t.accepting@[x] == t.accepting@[repr[x] as int]);
        assert(t.accepting@[t.dead_id as int] == t.accepting@[dead_repr as int]);
    }
}

/// Every state of the emitted automaton stands for some state of the tables.
proof fn lemma_emission_onto(t: &DfaTables, repr: Seq<usize>, out: Seq<Option<usize>>, a: &Automaton, m: usize) -> (x: int)
    requires
        t.wf(),
        is_congruence(t, repr),
        emitted_classes(t, repr, out, a),
        m < a.states@.len(),
    ensures
        0 <= x < t.trans@.len(),
        emit_related(t, repr, out, m, x),
{
    reveal(emitted_classes);
    if m == 0 {
        t.dead_id as int
    } else {
        assert(id_used(repr, out, m));
        let k = choose|k: int| 0 <= k < repr.len() && out[repr[k] as int] == Some(m);
        assert(class_out(repr, out, k) == m);
        k
    }
}

/// Different emitted states stand for different classes.
proof fn lemma_related_classes_differ(t: &DfaTables, repr: Seq<usize>, out: Seq<Option<usize>>, a: &Automaton, p: usize, q: usize, xp: int, xq: int)
    requires
        emitted_classes(t, repr, out, a),
        repr[t.dead_id as int] != repr[t.initial_id as int],
        0 <= xp < repr.len(),
        0 <= xq < repr.len(),
        forall|i: int| 0 <= i < repr.len() ==> (#[trigger] repr[i]) < repr.len(),
        emit_related(t, repr, out, p, xp),
        emit_related(t, repr, out, q, xq),
        p != q,
    ensures
        repr[xp] != repr[xq],
{
    reveal(emitted_classes);
    let dead_repr = repr[t.dead_id as int];
    if repr[xp] == repr[xq] {
        assert(repr[xp] < repr.len());
        if p != 0 && q != 0 {
            assert(class_out(repr, out, xp) == class_out(repr, out, xq));
        } else if p == 0 {
            assert(repr[xq] == dead_repr);
            assert(out[dead_repr as int] == Some(0usize));
        } else {
            assert(repr[xp] == dead_repr);
            assert(out[dead_repr as int] == Some(0usize));
        }
    }
}

/// Emitted states that stand for distinguishable states are told apart by a path.
proof fn lemma_emitted_pair(t: &DfaTables, repr: Seq<usize>, out: Seq<Option<usize>>, a: &Automaton, p: usize, q: usize, xp: int, xq: int)
    requires
        t.wf(),
        is_congruence(t, repr),
        dead_absorbing(t),
        emitted_classes(t, repr, out, a),
        a.wf(),
        p < a.states@.len(),
        q < a.states@.len(),
        0 <= xp < t.trans@.len(),
        0 <= xq < t.trans@.len(),
        emit_related(t, repr, out, p, xp),
        emit_related(t, repr, out, q, xq),
        distinguishable(t, xp, xq),
    ensures
        crate::automaton::states_distinguishable(a, p, q),
{
    let pw = choose|pw: Seq<int>| (forall|i: int| 0 <= i < pw.len() ==> 0 <= #[trigger] pw[i] < t.alphabet@.len())
        && t.accepting@[run_idx(t, xp, pw)] != t.accepting@[run_idx(t, xq, pw)];
    lemma_emission_run_idx(t, repr, out, a, p, xp, pw);
    lemma_emission_run_idx(t, repr, out, a, q, xq, pw);
    let sw = pos_word(t, pw);
    lemma_emission_accepting(t, repr, out, a, a.run_from(p, sw), run_idx(t, xp, pw));
    lemma_emission_accepting(t, repr, out, a, a.run_from(q, sw), run_idx(t, xq, pw));
    assert(a.states@[a.run_from(p, sw) as int].accepting != a.states@[a.run_from(q, sw) as int].accepting);
}

/// When the dead state and the initial state are in different classes and
/// different classes are told apart, no two emitted states accept the same paths.
proof fn lemma_emitted_reduced(t: &DfaTables, repr: Seq<usize>, out: Seq<Option<usize>>, a: &Automaton)
    requires
        t.wf(),
        is_congruence(t, repr),
        dead_absorbing(t),
        emitted_classes(t, repr, out, a),
        a.wf(),
        repr[t.dead_id as int] != repr[t.initial_id as int],
        forall|x: int, y: int| 0 <= x < t.trans@.len() && 0 <= y < t.trans@.len() && #[trigger] repr[x] != #[trigger] repr[y]
            ==> distinguishable(t, x, y),
    ensures
        crate::automaton::is_reduced(a),
{
    assert forall|p: usize, q: usize| p < a.states@.len() && q < a.states@.len() && p != q
        implies #[trigger] crate::automaton::states_distinguishable(a, p, q) by {
        let xp = lemma_emission_onto(t, repr, out, a, p);
        let xq = lemma_emission_onto(t, repr, out, a, q);
        lemma_related_classes_differ(t, repr, out, a, p, q, xp, xq);
        assert(distinguishable(t, xp, xq));
        lemma_emitted_pair(t, repr, out, a, p, q, xp, xq);
    }
}

/// The path steps that read the document symbols `dw`.
pub open spec fn symbol_word(dw: Seq<DocSym>) -> Seq<Symbol> {
    dw.map_values(|d: DocSym| symbol_of(d))
}

/// When every state of the tables is reached and the dead state and the
/// initial state are in different classes, every emitted state is reached.
proof fn lemma_emitted_reachable(t: &DfaTables, repr: Seq<usize>, out: Seq<Option<usize>>, a: &Automaton)
    requires
        t.wf(),
        is_congruence(t, repr),
        dead_absorbing(t),
        emitted_classes(t, repr, out, a),
        all_tables_reach(t),
        repr[t.dead_id as int] != repr[t.initial_id as int],
    ensures
        crate::automaton::all_reachable(a),
{
    assert forall|m: usize| m < a.states@.len() implies #[trigger] crate::automaton::reachable(a, m) by {
        let x = lemma_emission_onto(t, repr, out, a, m);
        assert(tables_reach(t, x));
        let dw = choose|dw: Seq<DocSym>| t.run(dw) == x;
        let sw = symbol_word(dw);
        assert(doc_word(sw) =~= dw) by {
            assert forall|i: int| 0 <= i < dw.len() implies #[trigger] doc_word(sw)[i] == dw[i] by {
                assert(doc_sym(symbol_of(dw[i])) == dw[i]);
            }
        }
        reveal(emitted_classes);
        lemma_emission_run(t, repr, out, a, sw);
        let dead_repr = repr[t.dead_id as int];
        assert(repr[x] < repr.len());
        if m == 0 {
            if a.run(sw) != 0 {
                assert(class_out(repr, out, x) == a.run(sw));
                assert(out[dead_repr as int] == Some(0usize));
            }
        } else {
            if a.run(sw) == 0 {
                assert(repr[x] == dead_repr);
                assert(out[dead_repr as int] == Some(0usize));
            }
        }
        assert(a.run(sw) == m);
    }
}

/// When the initial state is in the class of the dead state, the tables accept nothing.
proof fn lemma_dead_class_run(t: &DfaTables, repr: Seq<usize>, w: Seq<DocSym>)
    requires
        t.wf(),
        is_congruence(t, repr),
        dead_absorbing(t),
        repr[t.initial_id as int] == repr[t.dead_id as int],
    ensures
        repr[t.run(w)] == repr[t.dead_id as int],
        !t.accepts(w),
    decreases w.len(),
{
    lemma_tables_run_in_range(t, w);
    let dead_repr = repr[t.dead_id as int];
    if w.len() > 0 {
        lemma_dead_class_run(t, repr, w.drop_last());
        let x = t.run(w.drop_last());
        lemma_tables_run_in_range(t, w.drop_last());
        let v = syms_view(t.alphabet@);
        if v.contains(w.last()) {
            let j = position_of(v, w.last());
            assert(0 <= j < t.alphabet@.len());
            assert(repr[t.trans@[x]@[j] as int] == repr[t.trans@[repr[x] as int]@[j] as int]);
            assert(repr[t.trans@[t.dead_id as int]@[j] as int] == repr[t.trans@[dead_repr as int]@[j] as int]);
            assert(t.trans@[t.dead_id as int]@[j] == t.dead_id);
        }
    }
    let y = t.run(w);
    assert(t.accepting@[y] == t.accepting@[repr[y] as int]);
    assert(t.accepting@[t.dead_id as int] == t.accepting@[dead_repr as int]);
}

/// The automaton of the classes of `repr`: state 0 for the dead class, state 1
/// for the class of the initial state, one state for each other class.
fn emit_dfa_automaton(t: &DfaTables, repr: &Vec<usize>) -> (a: Automaton)
    requires
        t.wf(),
        t.dead_id != t.initial_id,
        is_congruence(t, repr@),
        dead_absorbing(t),
    ensures
        a.wf(),
        is_document_dfa(&a),
        a.states@.len() == repr@.to_set().len()
            + (if repr@[t.dead_id as int] == repr@[t.initial_id as int] { 1int } else { 0int }),
        a.states@.len() <= t.trans@.len(),
        forall|w: Seq<Symbol>| #[trigger] a.accepts(w) == t.accepts(doc_word(w)),
        exists|out: Seq<Option<usize>>| emitted_classes(t, repr@, out, &a),
        all_tables_reach(t) && repr@[t.dead_id as int] != repr@[t.initial_id as int] ==> crate::automaton::all_reachable(&a),
{
    broadcast use vstd::std_specs::hash::group_hash_axioms;
    let ghost n = t.trans@.len();
    let dead_repr = repr[t.dead_id];
    let init_repr = repr[t.initial_id];
    proof {
        assert(repr@.to_set().contains(dead_repr)) by {
            assert(repr@[t.dead_id as int] == dead_repr);
        }
        assert(repr@.to_set().contains(init_repr)) by {
            assert(repr@[t.initial_id as int] == init_repr);
        }
        if dead_repr == init_repr {
            lemma_repeat_shrinks_set(repr@, t.dead_id as int, t.initial_id as int);
        }
        repr@.lemma_cardinality_of_set();
    }
    let (out, count) = remap_repr_to_output_ids(repr, dead_repr, init_repr);
    assert(count >= 2) by {
        assert(ids_by_key(out@, repr@.len())[init_repr as int] == Some(1usize));
    }
    let mut states: Vec<StateTable> = Vec::new();
    let mut k: usize = 0;
    while k < count
        invariant
            k <= count,
            states@.len() == k,
            forall|c: int| 0 <= c < k ==> is_dumpster(#[trigger] states@[c]),
        decreases count - k,
    {
        states.push(new_dumpster_state());
        k += 1;
    }
    let reps = distinct_values(repr);
    let mut i: usize = 0;
    while i < reps.len()
        invariant
            t.wf(),
            n == t.trans@.len(),
            is_congruence(t, repr@),
            remap_ok(repr@, dead_repr, init_repr, ids_by_key(out@, repr@.len())),
            forall|a: int| 0 <= a < ids_by_key(out@, repr@.len()).len() && ids_by_key(out@, repr@.len())[a] is Some ==> (#[trigger] ids_by_key(out@, repr@.len())[a]).unwrap() < count,
            count >= 2,
            states@.len() == count,
            is_dumpster(states@[0]),
            forall|c: int| 0 <= c < count ==> (#[trigger] states@[c]).fallback_state == 0 && clean_arrays(states@[c])
                && clean_transitions(states@[c])
                && table_targets_below(states@[c], count as nat),
            reps@.to_set() == repr@.to_set(),
            strictly_increasing(reps@),
            i <= reps@.len(),
            forall|x: int| 0 <= x < n && #[trigger] class_out(repr@, ids_by_key(out@, repr@.len()), x) != 0
                && (exists|kk: int| 0 <= kk < i && reps@[kk] == repr@[x])
                ==> emitted_ok(t, repr@, ids_by_key(out@, repr@.len()), repr@[x] as int, states@[class_out(repr@, ids_by_key(out@, repr@.len()), x) as int], count as nat),
        decreases reps@.len() - i,
    {
        let r = reps[i];
        proof {
            assert(reps@.to_set().contains(r));
            let x0 = choose|x0: int| 0 <= x0 < repr@.len() && repr@[x0] == r;
            assert(ids_by_key(out@, repr@.len())[repr@[x0] as int] is Some);
        }
        let cid = *out.get(&r).unwrap();
        let ghost old_states = states@;
        if cid != 0 {
            let st = emitted_state(t, repr, &out, r, count - 1);
            states[cid] = st;
        }
        i += 1;
        proof {
            assert forall|x: int| 0 <= x < n && #[trigger] class_out(repr@, ids_by_key(out@, repr@.len()), x) != 0
                && (exists|kk: int| 0 <= kk < i && reps@[kk] == repr@[x])
                implies emitted_ok(t, repr@, ids_by_key(out@, repr@.len()), repr@[x] as int, states@[class_out(repr@, ids_by_key(out@, repr@.len()), x) as int], count as nat) by {
                let kk = choose|kk: int| 0 <= kk < i && reps@[kk] == repr@[x];
                if repr@[x] != r {
                    assert(kk < i - 1);
                    assert(ids_by_key(out@, repr@.len())[repr@[x] as int] != ids_by_key(out@, repr@.len())[r as int]);
                    assert(class_out(repr@, ids_by_key(out@, repr@.len()), x) != cid);
                    assert(states@[class_out(repr@, ids_by_key(out@, repr@.len()), x) as int] == old_states[class_out(repr@, ids_by_key(out@, repr@.len()), x) as int]);
                }
            }
        }
    }
    proof {
        assert forall|x: int| 0 <= x < n && #[trigger] class_out(repr@, ids_by_key(out@, repr@.len()), x) != 0 implies
            class_out(repr@, ids_by_key(out@, repr@.len()), x) < states@.len()
                && emitted_ok(t, repr@, ids_by_key(out@, repr@.len()), repr@[x] as int, states@[class_out(repr@, ids_by_key(out@, repr@.len()), x) as int], states@.len()) by {
            assert(repr@.to_set().contains(repr@[x]));
            assert(reps@.to_set().contains(repr@[x]));
            let kk = choose|kk: int| 0 <= kk < reps@.len() && reps@[kk] == repr@[x];
            assert(ids_by_key(out@, repr@.len())[repr@[x] as int] is Some);
        }
    }
    let a = Automaton::from_states(states);
    proof {
        assert(emission_ok(t, repr@, ids_by_key(out@, repr@.len()), a.states@));
        assert forall|w: Seq<Symbol>| #[trigger] a.accepts(w) == t.accepts(doc_word(w)) by {
            lemma_emission_accepts(t, repr@, ids_by_key(out@, repr@.len()), &a, w);
        }
        reveal(emitted_classes);
        assert(emitted_classes(t, repr@, ids_by_key(out@, repr@.len()), &a));
        if all_tables_reach(t) && repr@[t.dead_id as int] != repr@[t.initial_id as int] {
            lemma_emitted_reachable(t, repr@, ids_by_key(out@, repr@.len()), &a);
        }
    }
    a
}


/// Starting from state 1 is what the nondeterministic run does.
pub proof fn lemma_subset_run_from_initial(a: &Automaton, w: Seq<DocSym>)
    ensures
        subset_run_from(a, 1, w) == subset_run(a, w),
    decreases w.len(),
{
    if w.len() > 0 {
        lemma_subset_run_from_initial(a, w.drop_last());
    }
}

/// The subset construction from the initial state, emitted with one state per subset.
pub fn determinize(nfa: &Automaton, alphabet: &Vec<DocumentSymbol>) -> (a: Automaton)
    requires
        nfa.wf(),
        strictly_sorted_syms(syms_view(alphabet@)),
        forall|s: DocSym| syms_view(alphabet@).contains(s) <==> in_alphabet(nfa, s),
        reaches_empty_subset(nfa, 1),
    ensures
        a.wf(),
        is_document_dfa(&a),
        forall|w: Seq<Symbol>| #[trigger] a.accepts(w) == nfa_accepts(nfa, w),
        crate::automaton::all_reachable(&a),
{
    let initial = nfa.initial_state();
    proof {
        let w = choose|w: Seq<DocSym>| (forall|i: int| 0 <= i < w.len() ==> in_alphabet(nfa, #[trigger] w[i]))
            && subset_run_from(nfa, 1, w) == Set::<usize>::empty();
        assert(word_over(w, syms_view(alphabet@)));
    }
    let tables = subset_determinize(nfa, alphabet, initial);
    let n = tables.trans.len();
    let mut repr: Vec<usize> = Vec::new();
    let mut i: usize = 0;
    while i < n
        invariant
            i <= n,
            repr@.len() == i,
            forall|k: int| 0 <= k < i ==> #[trigger] repr@[k] == k,
        decreases n - i,
    {
        repr.push(i);
        i += 1;
    }
    let a = emit_dfa_automaton(&tables, &repr);
    proof {
        assert forall|w: Seq<Symbol>| #[trigger] a.accepts(w) == nfa_accepts(nfa, w) by {
            lemma_subset_run_from_initial(nfa, doc_word(w));
        }
        assert(repr@[tables.dead_id as int] != repr@[tables.initial_id as int]);
    }
    a
}


/// The state reached from `x` along the symbol positions `w`.
pub open spec fn run_idx(t: &DfaTables, x: int, w: Seq<int>) -> int
    decreases w.len(),
{
    if w.len() == 0 {
        x
    } else {
        run_idx(t, t.trans@[x]@[w[0]] as int, w.drop_first())
    }
}

/// Some word over the alphabet's positions is accepted from one of `x`, `y` and not from the other.
pub open spec fn distinguishable(t: &DfaTables, x: int, y: int) -> bool {
    exists|w: Seq<int>| (forall|i: int| 0 <= i < w.len() ==> 0 <= #[trigger] w[i] < t.alphabet@.len())
        && t.accepting@[run_idx(t, x, w)] != t.accepting@[run_idx(t, y, w)]
}

/// States that differ in acceptance are told apart by the empty word.
proof fn lemma_distinguish_by_acceptance(t: &DfaTables, x: int, y: int)
    requires
        t.accepting@[x] != t.accepting@[y],
    ensures
        distinguishable(t, x, y),
{
    let w = Seq::<int>::empty();
    assert(run_idx(t, x, w) == x && run_idx(t, y, w) == y);
}

/// States whose successors by one symbol are told apart are told apart.
proof fn lemma_distinguish_step(t: &DfaTables, x: int, y: int, a: int)
    requires
        0 <= a < t.alphabet@.len(),
        distinguishable(t, t.trans@[x]@[a] as int, t.trans@[y]@[a] as int),
    ensures
        distinguishable(t, x, y),
{
    let w = choose|w: Seq<int>| (forall|i: int| 0 <= i < w.len() ==> 0 <= #[trigger] w[i] < t.alphabet@.len())
        && t.accepting@[run_idx(t, t.trans@[x]@[a] as int, w)] != t.accepting@[run_idx(t, t.trans@[y]@[a] as int, w)];
    let w2 = seq![a] + w;
    assert(w2.drop_first() =~= w);
    assert(w2[0] == a);
    assert(run_idx(t, x, w2) == run_idx(t, t.trans@[x]@[a] as int, w));
    assert(run_idx(t, y, w2) == run_idx(t, t.trans@[y]@[a] as int, w));
    assert forall|i: int| 0 <= i < w2.len() implies 0 <= #[trigger] w2[i] < t.alphabet@.len() by {
        if i > 0 {
            assert(w2[i] == w[i - 1]);
        }
    }
}

/// `blocks` partition the states below `n`, and `owner` names the block of each state.
pub open spec fn is_partition(blocks: Seq<Vec<usize>>, owner: Seq<int>, n: nat) -> bool {
    &&& owner.len() == n
    &&& forall|b: int| 0 <= b < blocks.len() ==> (#[trigger] blocks[b])@.len() > 0 && strictly_increasing(blocks[b]@)
    &&& forall|b: int, k: int| 0 <= b < blocks.len() && 0 <= k < blocks[b]@.len() ==>
        (#[trigger] blocks[b]@[k]) < n && owner[blocks[b]@[k] as int] == b
    &&& forall|s: int| 0 <= s < n ==> 0 <= #[trigger] owner[s] < blocks.len() && blocks[owner[s]]@.contains(s as usize)
}

/// Within each block, the successors by `a` are all in `splitter` or all outside it.
pub open spec fn stable_for(t: &DfaTables, owner: Seq<int>, splitter: Seq<usize>, a: int) -> bool {
    forall|x: int, y: int| 0 <= x < owner.len() && 0 <= y < owner.len() && #[trigger] owner[x] == #[trigger] owner[y] ==>
        splitter.contains(t.trans@[x]@[a]) == splitter.contains(t.trans@[y]@[a])
}

/// Refining the blocks keeps every stability.
proof fn lemma_stable_refine(t: &DfaTables, o1: Seq<int>, o2: Seq<int>, splitter: Seq<usize>, a: int)
    requires
        o1.len() == o2.len(),
        forall|x: int, y: int| 0 <= x < o2.len() && 0 <= y < o2.len() && #[trigger] o2[x] == #[trigger] o2[y] ==> o1[x] == o1[y],
        stable_for(t, o1, splitter, a),
    ensures
        stable_for(t, o2, splitter, a),
{
    assert forall|x: int, y: int| 0 <= x < o2.len() && 0 <= y < o2.len() && #[trigger] o2[x] == #[trigger] o2[y] implies
        splitter.contains(t.trans@[x]@[a]) == splitter.contains(t.trans@[y]@[a]) by {
        assert(o1[x] == o1[y]);
    }
}

/// Some splitter holds one of `x`, `y` and not the other.
pub open spec fn separated(splitters: Seq<Vec<usize>>, x: int, y: int) -> bool {
    exists|k: int| 0 <= k < splitters.len() && (#[trigger] splitters[k])@.contains(x as usize) != splitters[k]@.contains(y as usize)
}

/// Nonempty disjoint blocks of states below `n` are at most `n`.
proof fn lemma_blocks_at_most_states(blocks: Seq<Vec<usize>>, owner: Seq<int>, n: nat)
    requires
        is_partition(blocks, owner, n),
    ensures
        blocks.len() <= n,
{
    let firsts = Seq::new(blocks.len(), |b: int| blocks[b]@[0]);
    assert(firsts.no_duplicates()) by {
        assert forall|i: int, j: int| 0 <= i < firsts.len() && 0 <= j < firsts.len() && i != j implies firsts[i] != firsts[j] by {
            assert(owner[blocks[i]@[0] as int] == i);
            assert(owner[blocks[j]@[0] as int] == j);
        }
    }
    firsts.unique_seq_to_set();
    let range = Set::new(|x: usize| x < n);
    assert(firsts.to_set().subset_of(range)) by {
        assert forall|x: usize| firsts.to_set().contains(x) implies range.contains(x) by {
            let i = choose|i: int| 0 <= i < firsts.len() && firsts[i] == x;
            assert(blocks[i]@[0] < n);
        }
    }
    lemma_range_set_len(n);
    vstd::set_lib::lemma_len_subset(firsts.to_set(), range);
}

/// The numbers below `n` are `n` many.
proof fn lemma_range_set_len(n: nat)
    ensures
        Set::new(|x: usize| x < n).finite(),
        Set::new(|x: usize| x < n).len() <= n,
    decreases n,
{
    if n == 0 {
        assert(Set::new(|x: usize| x < n) =~= Set::<usize>::empty());
    } else {
        lemma_range_set_len((n - 1) as nat);
        let smaller = Set::new(|x: usize| x < (n - 1) as nat);
        if n - 1 <= usize::MAX {
            let top = (n - 1) as usize;
            assert(Set::new(|x: usize| x < n) =~= smaller.insert(top));
        } else {
            assert(Set::new(|x: usize| x < n) =~= smaller);
        }
    }
}


/// Membership in `set` of every state below `n`.
fn membership_mask(set: &Vec<usize>, n: usize) -> (mask: Vec<bool>)
    requires
        all_below(set@, n as nat),
    ensures
        mask@.len() == n,
        forall|x: int| 0 <= x < n ==> #[trigger] mask@[x] == set@.contains(x as usize),
{
    let mut mask: Vec<bool> = Vec::new();
    let mut i: usize = 0;
    while i < n
        invariant
            i <= n,
            mask@.len() == i,
            forall|x: int| 0 <= x < i ==> !#[trigger] mask@[x],
        decreases n - i,
    {
        mask.push(false);
        i += 1;
    }
    let mut k: usize = 0;
    while k < set.len()
        invariant
            all_below(set@, n as nat),
            k <= set@.len(),
            mask@.len() == n,
            forall|x: int| 0 <= x < n ==> #[trigger] mask@[x] == exists|kk: int| 0 <= kk < k && set@[kk] == x as usize,
        decreases set@.len() - k,
    {
        let e = set[k];
        mask[e] = true;
        k += 1;
        proof {
            assert forall|x: int| 0 <= x < n implies #[trigger] mask@[x] == exists|kk: int| 0 <= kk < k && set@[kk] == x as usize by {
                if x == e as int {
                    assert(set@[k - 1] == x as usize);
                }
            }
        }
    }
    proof {
        assert forall|x: int| 0 <= x < n implies #[trigger] mask@[x] == set@.contains(x as usize) by {
            if set@.contains(x as usize) {
                let kk = choose|kk: int| 0 <= kk < set@.len() && set@[kk] == x as usize;
            }
        }
    }
    mask
}

/// The states of `block` whose successor by symbol `a` is in the splitter
/// (as `mask` says), and the others, each in the block's order.
fn partition_block(block: &Vec<usize>, t: &DfaTables, mask: &Vec<bool>, a: usize) -> (res: (Vec<usize>, Vec<usize>))
    requires
        t.wf(),
        a < t.alphabet@.len(),
        mask@.len() == t.trans@.len(),
        all_below(block@, t.trans@.len() as nat),
        strictly_increasing(block@),
    ensures
        strictly_increasing(res.0@),
        strictly_increasing(res.1@),
        res.0@.len() + res.1@.len() == block@.len(),
        forall|x: usize| #[trigger] res.0@.contains(x) <==> block@.contains(x) && mask@[t.trans@[x as int]@[a as int] as int],
        forall|x: usize| #[trigger] res.1@.contains(x) <==> block@.contains(x) && !mask@[t.trans@[x as int]@[a as int] as int],
{
    let mut inside: Vec<usize> = Vec::new();
    let mut outside: Vec<usize> = Vec::new();
    let mut i: usize = 0;
    while i < block.len()
        invariant
            t.wf(),
            a < t.alphabet@.len(),
            mask@.len() == t.trans@.len(),
            all_below(block@, t.trans@.len() as nat),
            strictly_increasing(block@),
            i <= block@.len(),
            inside@.len() + outside@.len() == i,
            strictly_increasing(inside@),
            strictly_increasing(outside@),
            forall|k: int| 0 <= k < inside@.len() ==> exists|kk: int| 0 <= kk < i && #[trigger] inside@[k] == block@[kk],
            forall|k: int| 0 <= k < outside@.len() ==> exists|kk: int| 0 <= kk < i && #[trigger] outside@[k] == block@[kk],
            forall|x: usize| #[trigger] inside@.contains(x) <==> (exists|kk: int| 0 <= kk < i && block@[kk] == x)
                && mask@[t.trans@[x as int]@[a as int] as int],
            forall|x: usize| #[trigger] outside@.contains(x) <==> (exists|kk: int| 0 <= kk < i && block@[kk] == x)
                && !mask@[t.trans@[x as int]@[a as int] as int],
        decreases block@.len() - i,
    {
        let s = block[i];
        proof {
            assert(s < t.trans@.len());
            assert(t.trans@[s as int]@[a as int] < t.trans@.len());
        }
        let ghost old_in = inside@;
        let ghost old_out = outside@;
        if mask[t.trans[s][a]] {
            inside.push(s);
        } else {
            outside.push(s);
        }
        i += 1;
        proof {
            assert forall|k: int| 0 <= k < inside@.len() implies exists|kk: int| 0 <= kk < i && #[trigger] inside@[k] == block@[kk] by {
                if k < old_in.len() {
                    assert(inside@[k] == old_in[k]);
                    let kk = choose|kk: int| 0 <= kk < i - 1 && old_in[k] == block@[kk];
                } else {
                    assert(inside@[k] == block@[i - 1]);
                }
            }
            assert forall|k: int| 0 <= k < outside@.len() implies exists|kk: int| 0 <= kk < i && #[trigger] outside@[k] == block@[kk] by {
                if k < old_out.len() {
                    assert(outside@[k] == old_out[k]);
                    let kk = choose|kk: int| 0 <= kk < i - 1 && old_out[k] == block@[kk];
                } else {
                    assert(outside@[k] == block@[i - 1]);
                }
            }
            assert(strictly_increasing(inside@)) by {
                assert forall|p: int, q: int| 0 <= p < q < inside@.len() implies (#[trigger] inside@[p]) < (#[trigger] inside@[q]) by {
                    if q == old_in.len() {
                        let kk = choose|kk: int| 0 <= kk < i - 1 && old_in[p] == block@[kk];
                        assert(block@[kk] < block@[i - 1]);
                    } else {
                        assert(inside@[p] == old_in[p] && inside@[q] == old_in[q]);
                    }
                }
            }
            assert(strictly_increasing(outside@)) by {
                assert forall|p: int, q: int| 0 <= p < q < outside@.len() implies (#[trigger] outside@[p]) < (#[trigger] outside@[q]) by {
                    if q == old_out.len() {
                        let kk = choose|kk: int| 0 <= kk < i - 1 && old_out[p] == block@[kk];
                        assert(block@[kk] < block@[i - 1]);
                    } else {
                        assert(outside@[p] == old_out[p] && outside@[q] == old_out[q]);
                    }
                }
            }
            assert forall|x: usize| #[trigger] inside@.contains(x) <==> (exists|kk: int| 0 <= kk < i && block@[kk] == x)
                && mask@[t.trans@[x as int]@[a as int] as int] by {
                if inside@.contains(x) {
                    let k = choose|k: int| 0 <= k < inside@.len() && inside@[k] == x;
                    if k < old_in.len() {
                        assert(old_in.contains(x));
                    }
                }
                if (exists|kk: int| 0 <= kk < i && block@[kk] == x) && mask@[t.trans@[x as int]@[a as int] as int] {
                    let kk = choose|kk: int| 0 <= kk < i && block@[kk] == x;
                    if kk < i - 1 {
                        assert(old_in.contains(x));
                        let k = choose|k: int| 0 <= k < old_in.len() && old_in[k] == x;
                        assert(inside@[k] == x);
                    } else {
                        assert(inside@[inside@.len() - 1] == x);
                    }
                }
            }
            assert forall|x: usize| #[trigger] outside@.contains(x) <==> (exists|kk: int| 0 <= kk < i && block@[kk] == x)
                && !mask@[t.trans@[x as int]@[a as int] as int] by {
                if outside@.contains(x) {
                    let k = choose|k: int| 0 <= k < outside@.len() && outside@[k] == x;
                    if k < old_out.len() {
                        assert(old_out.contains(x));
                    }
                }
                if (exists|kk: int| 0 <= kk < i && block@[kk] == x) && !mask@[t.trans@[x as int]@[a as int] as int] {
                    let kk = choose|kk: int| 0 <= kk < i && block@[kk] == x;
                    if kk < i - 1 {
                        assert(old_out.contains(x));
                        let k = choose|k: int| 0 <= k < old_out.len() && old_out[k] == x;
                        assert(outside@[k] == x);
                    } else {
                        assert(outside@[outside@.len() - 1] == x);
                    }
                }
            }
        }
    }
    (inside, outside)
}


/// What holds of the blocks and splitters throughout the refinement: the
/// blocks partition the states and refine acceptance, states in different
/// blocks are told apart by some word and by some splitter, and a splitter
/// is a set of states each told apart from every state outside it.
pub open spec fn refinement_inv(t: &DfaTables, blocks: Seq<Vec<usize>>, owner: Seq<int>, splitters: Seq<Vec<usize>>) -> bool {
    let n = t.trans@.len();
    &&& is_partition(blocks, owner, n)
    &&& forall|k: int| 0 <= k < splitters.len() ==> strictly_increasing(#[trigger] splitters[k]@) && all_below(splitters[k]@, n)
    &&& forall|k: int, x: int, y: int| 0 <= k < splitters.len() && 0 <= x < n && 0 <= y < n
        && (#[trigger] splitters[k])@.contains(x as usize) && !splitters[k]@.contains(y as usize)
        ==> #[trigger] distinguishable(t, x, y)
    &&& forall|x: int, y: int| 0 <= x < n && 0 <= y < n && #[trigger] owner[x] != #[trigger] owner[y] ==>
        separated(splitters, x, y) && distinguishable(t, x, y)
    &&& forall|x: int, y: int| 0 <= x < n && 0 <= y < n && #[trigger] owner[x] == #[trigger] owner[y] ==>
        t.accepting@[x] == t.accepting@[y]
}

/// `distinguishable` does not depend on the order of the two states.
proof fn lemma_distinguishable_symmetric(t: &DfaTables, x: int, y: int)
    requires
        distinguishable(t, x, y),
    ensures
        distinguishable(t, y, x),
{
    let w = choose|w: Seq<int>| (forall|i: int| 0 <= i < w.len() ==> 0 <= #[trigger] w[i] < t.alphabet@.len())
        && t.accepting@[run_idx(t, x, w)] != t.accepting@[run_idx(t, y, w)];
}

/// Splitting block `bi` into the states whose successor by `a` lies in the
/// splitter (kept at `bi`) and the others (a new block at the end), and
/// adding one half as a splitter, keeps the refinement invariant.
proof fn lemma_split_keeps_inv(
    t: &DfaTables,
    old_blocks: Seq<Vec<usize>>,
    old_own: Seq<int>,
    old_spl: Seq<Vec<usize>>,
    blocks: Seq<Vec<usize>>,
    own: Seq<int>,
    spl: Seq<Vec<usize>>,
    bi: int,
    k: int,
    a: int,
    ins: Seq<usize>,
    outs: Seq<usize>,
)
    requires
        t.wf(),
        t.trans@.len() <= usize::MAX,
        0 <= a < t.alphabet@.len(),
        0 <= k < old_spl.len(),
        refinement_inv(t, old_blocks, old_own, old_spl),
        0 <= bi < old_blocks.len(),
        ins.len() > 0,
        outs.len() > 0,
        strictly_increasing(ins),
        strictly_increasing(outs),
        forall|x: usize| #[trigger] ins.contains(x) <==> old_blocks[bi]@.contains(x) && old_spl[k]@.contains(t.trans@[x as int]@[a]),
        forall|x: usize| #[trigger] outs.contains(x) <==> old_blocks[bi]@.contains(x) && !old_spl[k]@.contains(t.trans@[x as int]@[a]),
        blocks.len() == old_blocks.len() + 1,
        blocks[bi]@ == ins,
        blocks[old_blocks.len() as int]@ == outs,
        forall|b: int| 0 <= b < old_blocks.len() && b != bi ==> #[trigger] blocks[b] == old_blocks[b],
        spl.len() == old_spl.len() + 1,
        forall|j: int| 0 <= j < old_spl.len() ==> #[trigger] spl[j] == old_spl[j],
        spl[old_spl.len() as int]@ == ins || spl[old_spl.len() as int]@ == outs,
        own == Seq::new(t.trans@.len(), |s: int| if outs.contains(s as usize) { old_blocks.len() as int } else { old_own[s] }),
    ensures
        refinement_inv(t, blocks, own, spl),
        forall|x: int, y: int| 0 <= x < own.len() && 0 <= y < own.len() && #[trigger] own[x] == #[trigger] own[y] ==> old_own[x] == old_own[y],
        forall|x: int, y: int| 0 <= x < own.len() && 0 <= y < own.len() && #[trigger] own[x] == #[trigger] own[y]
            && (own[x] == bi || own[x] == old_blocks.len())
            ==> old_spl[k]@.contains(t.trans@[x]@[a]) == old_spl[k]@.contains(t.trans@[y]@[a]),
        forall|x: int| 0 <= x < own.len() && #[trigger] own[x] != old_blocks.len() ==> own[x] == old_own[x],
{
    let n = t.trans@.len();
    let nb = old_blocks.len() as int;
    let blk = old_blocks[bi]@;
    let splitter = old_spl[k]@;
    assert forall|s: usize| #[trigger] blk.contains(s) implies s < n && (ins.contains(s) || outs.contains(s)) by {
        let kk = choose|kk: int| 0 <= kk < blk.len() && blk[kk] == s;
        assert(blk[kk] < n);
    }
    assert forall|s: int| 0 <= s < n && blk.contains(s as usize) implies #[trigger] old_own[s] == bi by {
        let kk = choose|kk: int| 0 <= kk < blk.len() && blk[kk] == s as usize;
    }
    assert forall|s: int| 0 <= s < n && old_own[s] == bi implies #[trigger] blk.contains(s as usize) by {}
    assert(is_partition(blocks, own, n)) by {
        assert forall|b: int| 0 <= b < blocks.len() implies (#[trigger] blocks[b])@.len() > 0 && strictly_increasing(blocks[b]@) by {
            if b != bi && b != nb {
                assert(blocks[b] == old_blocks[b]);
            }
        }
        assert forall|b: int, kk: int| 0 <= b < blocks.len() && 0 <= kk < blocks[b]@.len() implies
            (#[trigger] blocks[b]@[kk]) < n && own[blocks[b]@[kk] as int] == b by {
            if b == bi {
                let s = ins[kk];
                assert(ins.contains(s));
                assert(blk.contains(s));
                assert(!outs.contains(s));
            } else if b == nb {
                let s = outs[kk];
                assert(outs.contains(s));
                assert(blk.contains(s));
            } else {
                assert(blocks[b] == old_blocks[b]);
                let s = old_blocks[b]@[kk];
                assert(old_own[s as int] == b);
                if outs.contains(s) {
                    assert(blk.contains(s));
                }
            }
        }
        assert forall|s: int| 0 <= s < n implies 0 <= #[trigger] own[s] < blocks.len() && blocks[own[s]]@.contains(s as usize) by {
            if !outs.contains(s as usize) && old_own[s] == bi {
                assert(blk.contains(s as usize));
            } else if !outs.contains(s as usize) {
                assert(blocks[old_own[s]] == old_blocks[old_own[s]]);
            }
        }
    }
    assert forall|x: int, y: int| 0 <= x < own.len() && 0 <= y < own.len() && #[trigger] own[x] == #[trigger] own[y] implies old_own[x] == old_own[y] by {
        if outs.contains(x as usize) != outs.contains(y as usize) {
            if outs.contains(x as usize) {
                assert(old_own[y] < nb);
            } else {
                assert(old_own[x] < nb);
            }
        } else if outs.contains(x as usize) {
            assert(blk.contains(x as usize) && blk.contains(y as usize));
        }
    }
    assert forall|x: int, y: int| 0 <= x < n && 0 <= y < n && ins.contains(x as usize) && outs.contains(y as usize)
        implies distinguishable(t, x, y) && distinguishable(t, y, x) by {
        let tx = t.trans@[x]@[a];
        let ty = t.trans@[y]@[a];
        assert(tx < n && ty < n);
        assert(old_spl[k]@.contains(tx) && !old_spl[k]@.contains(ty));
        assert(distinguishable(t, tx as int, ty as int));
        lemma_distinguish_step(t, x, y, a);
        lemma_distinguishable_symmetric(t, x, y);
    }
    assert forall|x: int, y: int| 0 <= x < n && 0 <= y < n && #[trigger] own[x] != #[trigger] own[y] implies
        separated(spl, x, y) && distinguishable(t, x, y) by {
        let last = old_spl.len() as int;
        if old_own[x] != old_own[y] {
            assert(separated(old_spl, x, y));
            let kk = choose|kk: int| 0 <= kk < old_spl.len() && (#[trigger] old_spl[kk])@.contains(x as usize) != old_spl[kk]@.contains(y as usize);
            assert(spl[kk] == old_spl[kk]);
        } else {
            assert(blk.contains(x as usize) && blk.contains(y as usize));
            assert(!(ins.contains(x as usize) && outs.contains(x as usize)));
            assert(!(ins.contains(y as usize) && outs.contains(y as usize)));
            assert(spl[last]@.contains(x as usize) != spl[last]@.contains(y as usize));
        }
    }
    assert forall|kk: int, x: int, y: int| 0 <= kk < spl.len() && 0 <= x < n && 0 <= y < n
        && (#[trigger] spl[kk])@.contains(x as usize) && !spl[kk]@.contains(y as usize)
        implies #[trigger] distinguishable(t, x, y) by {
        if kk < old_spl.len() {
            assert(spl[kk] == old_spl[kk]);
        } else {
            let p = spl[kk]@;
            let b = if p == ins { bi } else { nb };
            assert(blocks[b]@ == p);
            assert(own[x] == b);
            if own[y] == b {
                assert(blocks[own[y]]@.contains(y as usize));
            }
        }
    }
    assert forall|kk: int| 0 <= kk < spl.len() implies strictly_increasing(#[trigger] spl[kk]@) && all_below(spl[kk]@, n) by {
        if kk == old_spl.len() {
            let p = spl[kk]@;
            assert forall|i: int| 0 <= i < p.len() implies (#[trigger] p[i]) < n by {
                assert(p.contains(p[i]));
                assert(blk.contains(p[i]));
            }
        } else {
            assert(spl[kk] == old_spl[kk]);
        }
    }
    assert forall|x: int, y: int| 0 <= x < own.len() && 0 <= y < own.len() && #[trigger] own[x] == #[trigger] own[y]
        && (own[x] == bi || own[x] == nb)
        implies splitter.contains(t.trans@[x]@[a]) == splitter.contains(t.trans@[y]@[a]) by {
        if own[x] == nb {
            assert(outs.contains(x as usize) && outs.contains(y as usize));
        } else {
            assert(!outs.contains(x as usize) && !outs.contains(y as usize));
            assert(blk.contains(x as usize) && blk.contains(y as usize));
            assert(ins.contains(x as usize) && ins.contains(y as usize));
        }
    }
}

/// Splits every block that has states whose successor by `a` lies in
/// splitter `k` and states whose successor lies outside it: the block keeps
/// the first kind, a new block at the end takes the second, and the smaller
/// of the two becomes a new splitter. Returns the new owner of each state.
fn refine_by_splitter(
    t: &DfaTables,
    blocks: &mut Vec<Vec<usize>>,
    splitters: &mut Vec<Vec<usize>>,
    k: usize,
    a: usize,
    Ghost(owner): Ghost<Seq<int>>,
) -> (new_owner: Ghost<Seq<int>>)
    requires
        t.wf(),
        k < old(splitters)@.len(),
        a < t.alphabet@.len(),
        refinement_inv(t, old(blocks)@, owner, old(splitters)@),
    ensures
        refinement_inv(t, final(blocks)@, new_owner@, final(splitters)@),
        final(blocks)@.len() - old(blocks)@.len() == final(splitters)@.len() - old(splitters)@.len(),
        final(blocks)@.len() >= old(blocks)@.len(),
        forall|j: int| 0 <= j < old(splitters)@.len() ==> #[trigger] final(splitters)@[j] == old(splitters)@[j],
        forall|x: int, y: int| 0 <= x < t.trans@.len() && 0 <= y < t.trans@.len() && #[trigger] new_owner@[x] == #[trigger] new_owner@[y]
            ==> owner[x] == owner[y],
        stable_for(t, new_owner@, final(splitters)@[k as int]@, a as int),
{
    let ghost n = t.trans@.len();
    let ghost splitter = splitters@[k as int]@;
    let mask = membership_mask(&splitters[k], t.trans.len());
    let ghost mut own = owner;
    let b0 = blocks.len();
    let mut bi: usize = 0;
    while bi < b0
        invariant
            t.wf(),
            n == t.trans@.len(),
            n <= usize::MAX,
            a < t.alphabet@.len(),
            k < splitters@.len(),
            splitter == splitters@[k as int]@,
            mask@.len() == n,
            forall|x: int| 0 <= x < n ==> #[trigger] mask@[x] == splitter.contains(x as usize),
            refinement_inv(t, blocks@, own, splitters@),
            b0 <= blocks@.len(),
            bi <= b0,
            blocks@.len() - old(blocks)@.len() == splitters@.len() - old(splitters)@.len(),
            blocks@.len() >= old(blocks)@.len(),
            old(blocks)@.len() == b0,
            forall|j: int| 0 <= j < old(splitters)@.len() ==> #[trigger] splitters@[j] == old(splitters)@[j],
            forall|x: int, y: int| 0 <= x < n && 0 <= y < n && #[trigger] own[x] == #[trigger] own[y] ==> owner[x] == owner[y],
            forall|x: int, y: int| 0 <= x < n && 0 <= y < n && #[trigger] own[x] == #[trigger] own[y] && (own[x] < bi || own[x] >= b0)
                ==> splitter.contains(t.trans@[x]@[a as int]) == splitter.contains(t.trans@[y]@[a as int]),
        decreases b0 - bi,
    {
        proof {
            assert forall|kk: int| 0 <= kk < blocks@[bi as int]@.len() implies (#[trigger] blocks@[bi as int]@[kk]) < n by {}
        }
        let (inside, outside) = partition_block(&blocks[bi], t, &mask, a);
        proof {
            assert forall|x: usize| #[trigger] inside@.contains(x) <==> blocks@[bi as int]@.contains(x) && splitter.contains(t.trans@[x as int]@[a as int]) by {
                if blocks@[bi as int]@.contains(x) {
                    let kk = choose|kk: int| 0 <= kk < blocks@[bi as int]@.len() && blocks@[bi as int]@[kk] == x;
                    assert(t.trans@[x as int]@[a as int] < n);
                }
            }
            assert forall|x: usize| #[trigger] outside@.contains(x) <==> blocks@[bi as int]@.contains(x) && !splitter.contains(t.trans@[x as int]@[a as int]) by {
                if blocks@[bi as int]@.contains(x) {
                    let kk = choose|kk: int| 0 <= kk < blocks@[bi as int]@.len() && blocks@[bi as int]@[kk] == x;
                    assert(t.trans@[x as int]@[a as int] < n);
                }
            }
        }
        if inside.len() > 0 && outside.len() > 0 {
            let ghost old_blocks = blocks@;
            let ghost old_own = own;
            let ghost old_spl = splitters@;
            let nb = blocks.len();
            let pushed = if inside.len() <= outside.len() { copy_states(&inside) } else { copy_states(&outside) };
            let ghost in_view = inside@;
            let ghost out_view = outside@;
            blocks.set(bi, inside);
            blocks.push(outside);
            splitters.push(pushed);
            proof {
                own = Seq::new(n, |s: int| if out_view.contains(s as usize) { nb as int } else { old_own[s] });
                assert(splitters@[k as int] == old_spl[k as int]);
                lemma_split_keeps_inv(t, old_blocks, old_own, old_spl, blocks@, own, splitters@, bi as int, k as int, a as int, in_view, out_view);
                assert forall|x: int, y: int| 0 <= x < n && 0 <= y < n && #[trigger] own[x] == #[trigger] own[y] && (own[x] < bi + 1 || own[x] >= b0)
                    implies splitter.contains(t.trans@[x]@[a as int]) == splitter.contains(t.trans@[y]@[a as int]) by {
                    if own[x] != bi as int && own[x] != nb as int {
                        assert(own[x] == old_own[x] && own[y] == old_own[y]);
                    }
                }
            }
        } else {
            proof {
                let blk = blocks@[bi as int]@;
                assert forall|x: int, y: int| 0 <= x < n && 0 <= y < n && #[trigger] own[x] == #[trigger] own[y] && own[x] == bi as int
                    implies splitter.contains(t.trans@[x]@[a as int]) == splitter.contains(t.trans@[y]@[a as int]) by {
                    assert(blk.contains(x as usize) && blk.contains(y as usize));
                    if inside@.len() == 0 {
                        assert(!inside@.contains(x as usize) && !inside@.contains(y as usize));
                    } else {
                        assert(!outside@.contains(x as usize) && !outside@.contains(y as usize));
                    }
                }
            }
        }
        bi += 1;
    }
    proof {
        assert forall|x: int, y: int| 0 <= x < own.len() && 0 <= y < own.len() && #[trigger] own[x] == #[trigger] own[y] implies
            splitters@[k as int]@.contains(t.trans@[x]@[a as int]) == splitters@[k as int]@.contains(t.trans@[y]@[a as int]) by {}
    }
    Ghost(own)
}


/// The states whose acceptance is `want`, in increasing order.
fn states_with_acceptance(t: &DfaTables, want: bool) -> (r: Vec<usize>)
    requires
        t.accepting@.len() == t.trans@.len(),
    ensures
        strictly_increasing(r@),
        all_below(r@, t.trans@.len() as nat),
        forall|x: usize| #[trigger] r@.contains(x) <==> x < t.trans@.len() && t.accepting@[x as int] == want,
{
    let n = t.trans.len();
    let mut r: Vec<usize> = Vec::new();
    let mut i: usize = 0;
    while i < n
        invariant
            n == t.trans@.len(),
            t.accepting@.len() == n,
            i <= n,
            strictly_increasing(r@),
            forall|k: int| 0 <= k < r@.len() ==> #[trigger] r@[k] < i,
            forall|x: usize| #[trigger] r@.contains(x) <==> x < i && t.accepting@[x as int] == want,
        decreases n - i,
    {
        let ghost old_r = r@;
        if t.accepting[i] == want {
            r.push(i);
            proof {
                assert forall|x: usize| #[trigger] r@.contains(x) <==> x < i + 1 && t.accepting@[x as int] == want by {
                    if r@.contains(x) {
                        let k = choose|k: int| 0 <= k < r@.len() && r@[k] == x;
                        if k < old_r.len() {
                            assert(old_r.contains(x));
                        }
                    }
                    if x < i + 1 && t.accepting@[x as int] == want {
                        if x < i {
                            assert(old_r.contains(x));
                            let k = choose|k: int| 0 <= k < old_r.len() && old_r[k] == x;
                            assert(r@[k] == x);
                        } else {
                            assert(r@[r@.len() - 1] == x);
                        }
                    }
                }
            }
        }
        i += 1;
    }
    r
}

/// The split by acceptance (or the single block, when all states agree)
/// starts the refinement invariant.
proof fn lemma_initial_inv(
    t: &DfaTables,
    blocks: Seq<Vec<usize>>,
    owner: Seq<int>,
    splitters: Seq<Vec<usize>>,
    rejecting: Seq<usize>,
    accepting: Seq<usize>,
)
    requires
        t.wf(),
        t.trans@.len() <= usize::MAX,
        strictly_increasing(rejecting),
        strictly_increasing(accepting),
        forall|x: usize| #[trigger] rejecting.contains(x) <==> x < t.trans@.len() && !t.accepting@[x as int],
        forall|x: usize| #[trigger] accepting.contains(x) <==> x < t.trans@.len() && t.accepting@[x as int],
        rejecting.len() > 0 || accepting.len() > 0,
        rejecting.len() > 0 && accepting.len() > 0 ==> {
            &&& blocks.len() == 2 && blocks[0]@ == rejecting && blocks[1]@ == accepting
            &&& splitters.len() == 1 && (splitters[0]@ == rejecting || splitters[0]@ == accepting)
            &&& owner == Seq::new(t.trans@.len(), |s: int| if t.accepting@[s] { 1int } else { 0int })
        },
        !(rejecting.len() > 0 && accepting.len() > 0) ==> {
            &&& blocks.len() == 1 && (blocks[0]@ == rejecting || blocks[0]@ == accepting) && blocks[0]@.len() > 0
            &&& splitters.len() == 0
            &&& owner == Seq::new(t.trans@.len(), |s: int| 0int)
        },
    ensures
        refinement_inv(t, blocks, owner, splitters),
{
    let n = t.trans@.len();
    assert forall|x: usize| x < n implies rejecting.contains(x) || accepting.contains(x) by {}
    assert forall|b: int, k: int| 0 <= b < blocks.len() && 0 <= k < blocks[b]@.len() implies
        (#[trigger] blocks[b]@[k]) < n && owner[blocks[b]@[k] as int] == b by {
        assert(blocks[b]@.contains(blocks[b]@[k]));
    }
    assert forall|s: int| 0 <= s < n implies 0 <= #[trigger] owner[s] < blocks.len() && blocks[owner[s]]@.contains(s as usize) by {
        if t.accepting@[s] {
            assert(accepting.contains(s as usize));
            if !(rejecting.len() > 0) {
                assert(blocks[0]@ == accepting) by {
                    if blocks[0]@ == rejecting {
                        assert(rejecting.len() > 0);
                    }
                }
            }
        } else {
            assert(rejecting.contains(s as usize));
            if !(accepting.len() > 0) {
                assert(blocks[0]@ == rejecting) by {
                    if blocks[0]@ == accepting {
                        assert(accepting.len() > 0);
                    }
                }
            }
        }
    }
    assert forall|k: int| 0 <= k < splitters.len() implies strictly_increasing(#[trigger] splitters[k]@) && all_below(splitters[k]@, n) by {
        let p = splitters[k]@;
        assert forall|i: int| 0 <= i < p.len() implies (#[trigger] p[i]) < n by {
            assert(p.contains(p[i]));
        }
    }
    assert forall|k: int, x: int, y: int| 0 <= k < splitters.len() && 0 <= x < n && 0 <= y < n
        && (#[trigger] splitters[k])@.contains(x as usize) && !splitters[k]@.contains(y as usize)
        implies #[trigger] distinguishable(t, x, y) by {
        assert(accepting.contains(y as usize) || rejecting.contains(y as usize));
        lemma_distinguish_by_acceptance(t, x, y);
    }
    assert forall|x: int, y: int| 0 <= x < n && 0 <= y < n && #[trigger] owner[x] != #[trigger] owner[y] implies
        separated(splitters, x, y) && distinguishable(t, x, y) by {
        lemma_distinguish_by_acceptance(t, x, y);
        if t.accepting@[x] {
            assert(accepting.contains(x as usize) && rejecting.contains(y as usize));
        } else {
            assert(rejecting.contains(x as usize) && accepting.contains(y as usize));
        }
        assert(splitters[0]@.contains(x as usize) != splitters[0]@.contains(y as usize));
    }
    assert forall|x: int, y: int| 0 <= x < n && 0 <= y < n && #[trigger] owner[x] == #[trigger] owner[y] implies
        t.accepting@[x] == t.accepting@[y] by {
        if !(rejecting.len() > 0 && accepting.len() > 0) {
            if t.accepting@[x] != t.accepting@[y] {
                if t.accepting@[x] {
                    assert(accepting.contains(x as usize) && rejecting.contains(y as usize));
                } else {
                    assert(rejecting.contains(x as usize) && accepting.contains(y as usize));
                }
            }
        }
    }
}


/// Hopcroft's partition refinement. Each state's representative is the
/// smallest state of its class; two states share a class exactly when no
/// word tells them apart.
fn hopcroft_minimize_tables(t: &DfaTables) -> (repr: Vec<usize>)
    requires
        t.wf(),
    ensures
        is_congruence(t, repr@),
        forall|x: int, y: int| 0 <= x < t.trans@.len() && 0 <= y < t.trans@.len() && #[trigger] repr@[x] != #[trigger] repr@[y]
            ==> distinguishable(t, x, y),
        forall|x: int, y: int| 0 <= x < t.trans@.len() && 0 <= y < t.trans@.len() && #[trigger] repr@[x] == #[trigger] repr@[y]
            ==> repr@[x] <= y,
{
    let n = t.trans.len();
    if n == 0 {
        return Vec::new();
    }
    let m = t.alphabet.len();
    let rejecting = states_with_acceptance(t, false);
    let accepting = states_with_acceptance(t, true);
    let mut blocks: Vec<Vec<usize>> = Vec::new();
    let mut splitters: Vec<Vec<usize>> = Vec::new();
    let ghost mut owner: Seq<int>;
    proof {
        assert(rejecting@.contains(0usize) || accepting@.contains(0usize));
    }
    if rejecting.len() > 0 && accepting.len() > 0 {
        let smaller = if rejecting.len() <= accepting.len() { copy_states(&rejecting) } else { copy_states(&accepting) };
        blocks.push(rejecting);
        blocks.push(accepting);
        splitters.push(smaller);
        proof {
            owner = Seq::new(n as nat, |s: int| if t.accepting@[s] { 1int } else { 0int });
        }
    } else if rejecting.len() > 0 {
        blocks.push(rejecting);
        proof {
            owner = Seq::new(n as nat, |s: int| 0int);
        }
    } else {
        blocks.push(accepting);
        proof {
            owner = Seq::new(n as nat, |s: int| 0int);
        }
    }
    proof {
        lemma_initial_inv(t, blocks@, owner, splitters@, rejecting@, accepting@);
    }
    let mut hk: usize = 0;
    let mut ha: usize = 0;
    while m > 0 && hk < splitters.len()
        invariant
            t.wf(),
            n == t.trans@.len(),
            m == t.alphabet@.len(),
            n > 0,
            refinement_inv(t, blocks@, owner, splitters@),
            m > 0 ==> ha < m,
            hk <= splitters@.len(),
            forall|k: int, a: int| 0 <= k < splitters@.len() && 0 <= a < m && (k < hk || (k == hk && a < ha))
                ==> #[trigger] stable_for(t, owner, splitters@[k]@, a),
        decreases n - blocks@.len(), splitters@.len() - hk, m - ha,
    {
        proof {
            lemma_blocks_at_most_states(blocks@, owner, n as nat);
        }
        let ghost old_owner = owner;
        let ghost old_spl = splitters@;
        let ghost old_len = blocks@.len();
        let g = refine_by_splitter(t, &mut blocks, &mut splitters, hk, ha, Ghost(owner));
        proof {
            owner = g@;
            lemma_blocks_at_most_states(blocks@, owner, n as nat);
            assert forall|k: int, a: int| 0 <= k < splitters@.len() && 0 <= a < m && (k < hk || (k == hk && a < ha + 1))
                implies #[trigger] stable_for(t, owner, splitters@[k]@, a) by {
                if !(k == hk && a == ha) {
                    assert(splitters@[k] == old_spl[k]);
                    lemma_stable_refine(t, old_owner, owner, splitters@[k]@, a);
                }
            }
        }
        ha += 1;
        if ha == m {
            hk += 1;
            ha = 0;
        }
    }
    proof {
        lemma_blocks_at_most_states(blocks@, owner, n as nat);
    }
    let mut repr: Vec<usize> = Vec::new();
    let mut i: usize = 0;
    while i < n
        invariant
            i <= n,
            repr@.len() == i,
        decreases n - i,
    {
        repr.push(0);
        i += 1;
    }
    let mut b: usize = 0;
    while b < blocks.len()
        invariant
            n == t.trans@.len(),
            is_partition(blocks@, owner, n as nat),
            repr@.len() == n,
            b <= blocks@.len(),
            forall|s: int| 0 <= s < n && owner[s] < b ==> #[trigger] repr@[s] == blocks@[owner[s]]@[0],
        decreases blocks@.len() - b,
    {
        let block = &blocks[b];
        let r = block[0];
        let mut k: usize = 0;
        while k < block.len()
            invariant
                n == t.trans@.len(),
                is_partition(blocks@, owner, n as nat),
                b < blocks@.len(),
                *block == blocks@[b as int],
                r == block@[0],
                repr@.len() == n,
                k <= block@.len(),
                forall|s: int| 0 <= s < n && owner[s] < b ==> #[trigger] repr@[s] == blocks@[owner[s]]@[0],
                forall|kk: int| 0 <= kk < k ==> #[trigger] repr@[block@[kk] as int] == r,
            decreases block@.len() - k,
        {
            let s = block[k];
            proof {
                assert(s < n && owner[s as int] == b);
            }
            repr.set(s, r);
            k += 1;
            proof {
                assert forall|kk: int| 0 <= kk < k implies #[trigger] repr@[block@[kk] as int] == r by {
                    if kk < k - 1 {
                        assert(block@[kk] != s) by {
                            assert(block@[kk] < block@[k - 1]);
                        }
                    }
                }
            }
        }
        proof {
            assert forall|s: int| 0 <= s < n && owner[s] < b + 1 implies #[trigger] repr@[s] == blocks@[owner[s]]@[0] by {
                if owner[s] == b {
                    assert(block@.contains(s as usize));
                    let kk = choose|kk: int| 0 <= kk < block@.len() && block@[kk] == s as usize;
                    assert(repr@[block@[kk] as int] == r);
                }
            }
        }
        b += 1;
    }
    proof {
        let o = owner;
        assert forall|s: int| 0 <= s < n implies #[trigger] repr@[s] == blocks@[o[s]]@[0] && repr@[s] < n && o[repr@[s] as int] == o[s] by {
            assert(blocks@[o[s]]@[0] < n);
        }
        // every block is stable for every symbol, so the blocks form a congruence
        assert forall|x: int, y: int, a: int| 0 <= x < n && 0 <= y < n && 0 <= a < m && o[x] == o[y]
            implies #[trigger] o[t.trans@[x]@[a] as int] == #[trigger] o[t.trans@[y]@[a] as int] by {
            let tx = t.trans@[x]@[a] as int;
            let ty = t.trans@[y]@[a] as int;
            assert(tx < n && ty < n);
            if o[tx] != o[ty] {
                assert(separated(splitters@, tx, ty));
                let kk = choose|kk: int| 0 <= kk < splitters@.len() && (#[trigger] splitters@[kk])@.contains(tx as usize) != splitters@[kk]@.contains(ty as usize);
                assert(stable_for(t, o, splitters@[kk]@, a));
            }
        }
        assert forall|x: int, y: int| 0 <= x < n && 0 <= y < n && #[trigger] repr@[x] == #[trigger] repr@[y] implies o[x] == o[y] by {
            assert(o[repr@[x] as int] == o[x]);
            assert(o[repr@[y] as int] == o[y]);
        }
        assert forall|x: int, y: int| 0 <= x < n && 0 <= y < n && #[trigger] repr@[x] == #[trigger] repr@[y] implies repr@[x] <= y by {
            assert(o[x] == o[y]);
            let blk = blocks@[o[x]]@;
            assert(blk.contains(y as usize));
            let kk = choose|kk: int| 0 <= kk < blk.len() && blk[kk] == y as usize;
            if kk > 0 {
                assert(blk[0] < blk[kk]);
            }
        }
        assert forall|x: int, y: int| 0 <= x < n && 0 <= y < n && #[trigger] repr@[x] != #[trigger] repr@[y] implies distinguishable(t, x, y) by {
            assert(o[x] != o[y]);
        }
        assert forall|i: int, j: int| 0 <= i < n && 0 <= j < m implies
            repr@[(#[trigger] t.trans@[i]@[j]) as int] == repr@[t.trans@[repr@[i] as int]@[j] as int] by {
            let ri = repr@[i] as int;
            assert(o[ri] == o[i]);
            assert(o[t.trans@[i]@[j] as int] == o[t.trans@[ri]@[j] as int]);
            assert(t.trans@[i]@[j] < n && t.trans@[ri]@[j] < n);
        }
        assert forall|i: int| 0 <= i < n implies t.accepting@[i] == t.accepting@[(#[trigger] repr@[i]) as int] by {
            assert(o[repr@[i] as int] == o[i]);
        }
    }
    repr
}


/// A state of a deterministic document automaton steps as its table row says.
proof fn lemma_row_step(a: &Automaton, t: &DfaTables, i: int, sym: Symbol)
    requires
        a.wf(),
        is_document_dfa(a),
        t.wf(),
        t.trans@.len() == a.states@.len(),
        t.dead_id == 0,
        0 <= i < a.states@.len(),
        forall|s: DocSym| syms_view(t.alphabet@).contains(s) <==> in_alphabet(a, s),
        forall|q: int, j: int| 0 <= q < a.states@.len() && 0 <= j < t.alphabet@.len()
            ==> (syms_view(t.alphabet@)[j] matches DocSym::Member(l)
            ==> #[trigger] t.trans@[q]@[j] == member_target(a.states@[q].member_transitions@, l, 0)),
        forall|q: int, j: int| 0 <= q < a.states@.len() && 0 <= j < t.alphabet@.len()
            && syms_view(t.alphabet@)[j] == DocSym::List
            ==> #[trigger] t.trans@[q]@[j] == (if a.states@[q].array_transitions@.len() > 0 {
                a.states@[q].array_transitions@[0].target
            } else {
                0usize
            }),
    ensures
        t.step(i, doc_sym(sym)) == a.states@[i].step(sym) as int,
{
    let v = syms_view(t.alphabet@);
    let st = a.states@[i];
    assert(st.fallback_state == 0 && clean_arrays(st));
    match sym {
        Symbol::Member(l) => {
            if v.contains(DocSym::Member(l)) {
                let j = position_of(v, DocSym::Member(l));
                assert(t.trans@[i]@[j] == member_target(st.member_transitions@, l, 0));
            } else {
                assert(!has_member_label(st.member_transitions@, l)) by {
                    if has_member_label(st.member_transitions@, l) {
                        let k = choose|k: int| 0 <= k < st.member_transitions@.len() && (#[trigger] st.member_transitions@[k]).0@ == l;
                        assert(in_alphabet(a, DocSym::Member(l)));
                    }
                }
                lemma_member_target_absent(st.member_transitions@, l, 0);
            }
        },
        Symbol::Index(idx) => {
            if v.contains(DocSym::List) {
                let j = position_of(v, DocSym::List);
                if st.array_transitions@.len() > 0 {
                    assert(crate::automaton::label_matches(st.array_transitions@[0].label, idx)) by {
                        assert((idx - 0int) % 1int == 0) by (nonlinear_arith);
                    }
                } else {
                    assert(st.array_transitions@ =~= Seq::<crate::automaton::ArrayTransition>::empty());
                }
            } else {
                assert(st.array_transitions@.len() == 0) by {
                    if st.array_transitions@.len() > 0 {
                        assert(in_alphabet(a, DocSym::List));
                    }
                }
                assert(st.array_transitions@ =~= Seq::<crate::automaton::ArrayTransition>::empty());
            }
        },
    }
}

/// The tables of a deterministic document automaton follow its runs.
proof fn lemma_rows_run(a: &Automaton, t: &DfaTables, w: Seq<Symbol>)
    requires
        a.wf(),
        is_document_dfa(a),
        t.wf(),
        t.trans@.len() == a.states@.len(),
        t.dead_id == 0,
        t.initial_id == 1,
        forall|s: DocSym| syms_view(t.alphabet@).contains(s) <==> in_alphabet(a, s),
        forall|q: int, j: int| 0 <= q < a.states@.len() && 0 <= j < t.alphabet@.len()
            ==> (syms_view(t.alphabet@)[j] matches DocSym::Member(l)
            ==> #[trigger] t.trans@[q]@[j] == member_target(a.states@[q].member_transitions@, l, 0)),
        forall|q: int, j: int| 0 <= q < a.states@.len() && 0 <= j < t.alphabet@.len()
            && syms_view(t.alphabet@)[j] == DocSym::List
            ==> #[trigger] t.trans@[q]@[j] == (if a.states@[q].array_transitions@.len() > 0 {
                a.states@[q].array_transitions@[0].target
            } else {
                0usize
            }),
    ensures
        t.run(doc_word(w)) == a.run(w) as int,
    decreases w.len(),
{
    if w.len() == 0 {
        assert(doc_word(w) =~= Seq::<DocSym>::empty());
    } else {
        lemma_rows_run(a, t, w.drop_last());
        lemma_doc_word_push(w);
        crate::automaton::lemma_run_in_range(a, 1, w.drop_last());
        lemma_row_step(a, t, a.run(w.drop_last()) as int, w.last());
    }
}

/// Dense tables of a deterministic document automaton: each row holds,
/// for each alphabet symbol, the target of the first transition reading it,
/// or state 0 when there is none.
fn automaton_to_dfa_tables(automaton: &Automaton) -> (t: DfaTables)
    requires
        automaton.wf(),
        is_document_dfa(automaton),
    ensures
        t.wf(),
        t.initial_id == 1,
        t.dead_id == 0,
        dead_absorbing(&t),
        t.trans@.len() == automaton.states@.len(),
        forall|w: Seq<Symbol>| #[trigger] t.accepts(doc_word(w)) == automaton.accepts(w),
        forall|w: Seq<Symbol>| #[trigger] t.run(doc_word(w)) == automaton.run(w) as int,
{
    let alphabet = alphabet_from_automaton(automaton);
    let n = automaton.num_states();
    let m = alphabet.len();
    let ghost v = syms_view(alphabet@);
    let mut trans: Vec<Vec<usize>> = Vec::new();
    let mut accepting: Vec<bool> = Vec::new();
    let mut from: usize = 0;
    while from < n
        invariant
            automaton.wf(),
            is_document_dfa(automaton),
            n == automaton.states@.len(),
            m == alphabet@.len(),
            v == syms_view(alphabet@),
            from <= n,
            trans@.len() == from,
            accepting@.len() == from,
            forall|q: int| 0 <= q < from ==> #[trigger] accepting@[q] == automaton.states@[q].accepting,
            forall|q: int| 0 <= q < from ==> (#[trigger] trans@[q])@.len() == m,
            forall|q: int, j: int| 0 <= q < from && 0 <= j < m ==> #[trigger] trans@[q]@[j] < n,
            forall|q: int, j: int| 0 <= q < from && 0 <= j < m ==> (v[j] matches DocSym::Member(l)
                ==> #[trigger] trans@[q]@[j] == member_target(automaton.states@[q].member_transitions@, l, 0)),
            forall|q: int, j: int| 0 <= q < from && 0 <= j < m && v[j] == DocSym::List
                ==> #[trigger] trans@[q]@[j] == (if automaton.states@[q].array_transitions@.len() > 0 {
                    automaton.states@[q].array_transitions@[0].target
                } else {
                    0usize
                }),
        decreases n - from,
    {
        accepting.push(automaton.is_accepting(from));
        let mut row: Vec<usize> = Vec::new();
        let mut j: usize = 0;
        while j < m
            invariant
                automaton.wf(),
                is_document_dfa(automaton),
                n == automaton.states@.len(),
                m == alphabet@.len(),
                v == syms_view(alphabet@),
                from < n,
                j <= m,
                row@.len() == j,
                forall|jj: int| 0 <= jj < j ==> #[trigger] row@[jj] < n,
                forall|jj: int| 0 <= jj < j ==> (v[jj] matches DocSym::Member(l)
                    ==> #[trigger] row@[jj] == member_target(automaton.states@[from as int].member_transitions@, l, 0)),
                forall|jj: int| 0 <= jj < j && v[jj] == DocSym::List
                    ==> #[trigger] row@[jj] == (if automaton.states@[from as int].array_transitions@.len() > 0 {
                        automaton.states@[from as int].array_transitions@[0].target
                    } else {
                        0usize
                    }),
            decreases m - j,
        {
            let succs = document_successors(automaton, from, &alphabet[j]);
            let target = if succs.len() > 0 { succs[0] } else { 0 };
            proof {
                let st = automaton.states@[from as int];
                assert(st.fallback_state == 0);
                assert(v[j as int] == alphabet@[j as int]@);
                if succs@.len() > 0 {
                    assert(succs@[0] < n);
                }
                match alphabet@[j as int] {
                    DocumentSymbol::Member(l) => {
                        if succs@.len() == 0 {
                            lemma_member_target_absent(st.member_transitions@, l@, 0);
                        }
                    },
                    DocumentSymbol::List => {},
                }
            }
            row.push(target);
            j += 1;
        }
        trans.push(row);
        from += 1;
    }
    let t = DfaTables { alphabet, trans, accepting, initial_id: 1, dead_id: 0 };
    proof {
        assert forall|j: int| 0 <= j < m implies #[trigger] t.trans@[0]@[j] == 0 by {
            assert(is_dumpster(automaton.states@[0]));
            match v[j] {
                DocSym::Member(l) => {
                    assert(automaton.states@[0].member_transitions@ =~= Seq::<MemberTransition>::empty());
                    assert(t.trans@[0]@[j] == member_target(automaton.states@[0].member_transitions@, l, 0));
                },
                DocSym::List => {},
            }
        }
        assert forall|w: Seq<Symbol>| #[trigger] t.accepts(doc_word(w)) == automaton.accepts(w) by {
            lemma_rows_run(automaton, &t, w);
            crate::automaton::lemma_run_in_range(automaton, 1, w);
            assert(t.accepting@[automaton.run(w) as int] == automaton.states@[automaton.run(w) as int].accepting);
        }
        assert forall|w: Seq<Symbol>| #[trigger] t.run(doc_word(w)) == automaton.run(w) as int by {
            lemma_rows_run(automaton, &t, w);
        }
    }
    t
}

/// Hopcroft minimisation of a deterministic document automaton.
fn hopcroft_minimize(dfa: &Automaton) -> (a: Automaton)
    requires
        dfa.wf(),
        is_document_dfa(dfa),
    ensures
        a.wf(),
        is_document_dfa(&a),
        a.states@.len() <= dfa.states@.len(),
        forall|w: Seq<Symbol>| #[trigger] a.accepts(w) == dfa.accepts(w),
        (exists|w: Seq<Symbol>| #[trigger] a.accepts(w)) ==> is_reduced(&a),
        crate::automaton::all_reachable(dfa) && (exists|w: Seq<Symbol>| #[trigger] a.accepts(w))
            ==> crate::automaton::all_reachable(&a),
{
    let tables = automaton_to_dfa_tables(dfa);
    let repr = hopcroft_minimize_tables(&tables);
    let a = emit_dfa_automaton(&tables, &repr);
    proof {
        assert forall|w: Seq<Symbol>| #[trigger] a.accepts(w) == dfa.accepts(w) by {
            assert(a.accepts(w) == tables.accepts(doc_word(w)));
            assert(tables.accepts(doc_word(w)) == dfa.accepts(w));
        }
        if exists|w: Seq<Symbol>| #[trigger] a.accepts(w) {
            let w = choose|w: Seq<Symbol>| #[trigger] a.accepts(w);
            assert(tables.accepts(doc_word(w)));
            if repr@[tables.initial_id as int] == repr@[tables.dead_id as int] {
                lemma_dead_class_run(&tables, repr@, doc_word(w));
            }
            let out = choose|out: Seq<Option<usize>>| emitted_classes(&tables, repr@, out, &a);
            lemma_emitted_reduced(&tables, repr@, out, &a);
            if crate::automaton::all_reachable(dfa) {
                assert forall|k: int| 0 <= k < tables.trans@.len() implies #[trigger] tables_reach(&tables, k) by {
                    assert(crate::automaton::reachable(dfa, k as usize));
                    let v = choose|v: Seq<Symbol>| dfa.run(v) == k as usize;
                    assert(tables.run(doc_word(v)) == k);
                }
            }
        }
    }
    a
}


/// The automaton that selects the root and nothing else: a dumpster, and an
/// accepting initial state without transitions.
pub open spec fn is_scalar_root(a: &Automaton) -> bool {
    &&& a.states@.len() == 2
    &&& is_dumpster(a.states@[0])
    &&& a.states@[1].accepting
    &&& a.states@[1].member_transitions@.len() == 0
    &&& a.states@[1].array_transitions@.len() == 0
    &&& a.states@[1].fallback_state == 0
}

/// The scalar root automaton accepts exactly the empty path.
proof fn lemma_scalar_root_run(a: &Automaton, w: Seq<Symbol>)
    requires
        is_scalar_root(a),
    ensures
        a.run(w) == (if w.len() == 0 { 1usize } else { 0usize }),
    decreases w.len(),
{
    if w.len() > 0 {
        lemma_scalar_root_run(a, w.drop_last());
        let st = a.states@[a.run(w.drop_last()) as int];
        assert(st.member_transitions@ =~= Seq::<MemberTransition>::empty());
        assert(st.array_transitions@ =~= Seq::<crate::automaton::ArrayTransition>::empty());
    }
}

/// The automaton of a document without members or array elements: it selects the root only.
fn scalar_root_automaton() -> (a: Automaton)
    ensures
        a.wf(),
        is_document_dfa(&a),
        is_scalar_root(&a),
        forall|w: Seq<Symbol>| #[trigger] a.accepts(w) == (w.len() == 0),
{
    let mut states: Vec<StateTable> = Vec::new();
    states.push(new_dumpster_state());
    states.push(StateTable::new(true, Vec::new(), Vec::new(), 0));
    let a = Automaton::from_states(states);
    proof {
        assert forall|w: Seq<Symbol>| #[trigger] a.accepts(w) == (w.len() == 0) by {
            lemma_scalar_root_run(&a, w);
        }
        assert forall|q: int| 0 <= q < a.states@.len() implies table_targets_below(#[trigger] a.states@[q], a.states@.len()) by {}
    }
    a
}

/// From the dumpster every path stays in the dumpster.
proof fn lemma_dumpster_run(a: &Automaton, v: Seq<Symbol>)
    requires
        a.wf(),
        is_document_dfa(a),
    ensures
        a.run_from(0, v) == 0,
    decreases v.len(),
{
    if v.len() > 0 {
        lemma_dumpster_run(a, v.drop_last());
        let st = a.states@[0];
        match v.last() {
            Symbol::Member(l) => {
                assert(st.member_transitions@ =~= Seq::<MemberTransition>::empty());
            },
            Symbol::Index(i) => {
                assert(st.array_transitions@ =~= Seq::<crate::automaton::ArrayTransition>::empty());
            },
        }
    }
}

/// From a state other than 0 of a reduced document automaton some path
/// leads to an accepting state.
proof fn lemma_live_state(a: &Automaton, s: usize) -> (v: Seq<Symbol>)
    requires
        a.wf(),
        is_document_dfa(a),
        is_reduced(a),
        0 < s < a.states@.len(),
    ensures
        a.states@[a.run_from(s, v) as int].accepting,
{
    assert(states_distinguishable(a, s, 0));
    let v = choose|v: Seq<Symbol>| a.states@[a.run_from(s, v) as int].accepting != a.states@[a.run_from(0, v) as int].accepting;
    lemma_dumpster_run(a, v);
    v
}

/// Some path that starts with `sym` leads from `s` to an accepting state.
pub open spec fn leads_to_acceptance(a: &Automaton, s: usize, sym: Symbol) -> bool {
    exists|v: Seq<Symbol>| a.states@[a.run_from(s, seq![sym] + v) as int].accepting
}

/// Every transition leads on to an accepting state along some path: a
/// member transition from `s` by its label, an array transition by any index.
pub open spec fn live_transitions(a: &Automaton) -> bool {
    &&& forall|s: int, k: int| 0 <= s < a.states@.len() && 0 <= k < a.states@[s].member_transitions@.len() ==>
        leads_to_acceptance(a, s as usize, Symbol::Member((#[trigger] a.states@[s].member_transitions@[k]).0@))
    &&& forall|s: int, i: nat| 0 <= s < a.states@.len() && a.states@[s].array_transitions@.len() > 0 ==>
        #[trigger] leads_to_acceptance(a, s as usize, Symbol::Index(i))
}

/// The member step of a state by the label of its `k`-th member transition,
/// when labels are distinct.
proof fn lemma_member_step(st: StateTable, k: int)
    requires
        clean_transitions(st),
        0 <= k < st.member_transitions@.len(),
    ensures
        st.step(Symbol::Member(st.member_transitions@[k].0@)) == st.member_transitions@[k].1,
{
    let l = st.member_transitions@[k].0@;
    assert forall|k1: int| 0 <= k1 < k implies (#[trigger] st.member_transitions@[k1]).0@ != l by {}
    lemma_member_target_first(st.member_transitions@, l, st.fallback_state, k);
}

/// The array step of a document state that has an array transition.
proof fn lemma_array_step(st: StateTable, i: nat)
    requires
        clean_arrays(st),
        st.array_transitions@.len() > 0,
    ensures
        st.step(Symbol::Index(i)) == st.array_transitions@[0].target,
{
    assert(crate::automaton::label_matches(st.array_transitions@[0].label, i)) by {
        assert((i - 0int) % 1int == 0) by (nonlinear_arith);
    }
}

/// A path of one step.
proof fn lemma_one_step(a: &Automaton, s: usize, sym: Symbol)
    ensures
        a.run_from(s, seq![sym]) == a.states@[s as int].step(sym),
{
    assert(seq![sym].drop_last() =~= Seq::<Symbol>::empty());
    assert(a.run_from(s, seq![sym].drop_last()) == s);
    assert(seq![sym].last() == sym);
}

/// In a reduced document automaton every transition leads on to acceptance.
pub proof fn lemma_reduced_live(a: &Automaton)
    requires
        a.wf(),
        is_document_dfa(a),
        is_reduced(a),
    ensures
        live_transitions(a),
{
    assert(a.states.len() == a.states@.len());
    assert forall|s: int, k: int| 0 <= s < a.states@.len() && 0 <= k < a.states@[s].member_transitions@.len() implies
        leads_to_acceptance(a, s as usize, Symbol::Member((#[trigger] a.states@[s].member_transitions@[k]).0@)) by {
        let st = a.states@[s];
        let m = Symbol::Member(st.member_transitions@[k].0@);
        lemma_member_step(st, k);
        lemma_one_step(a, s as usize, m);
        let t = st.member_transitions@[k].1;
        assert(table_targets_below(st, a.states@.len()));
        let v = lemma_live_state(a, t);
        crate::automaton::lemma_run_from_concat(a, s as usize, seq![m], v);
        assert(a.states@[a.run_from(s as usize, seq![m] + v) as int].accepting);
    }
    assert forall|s: int, i: nat| 0 <= s < a.states@.len() && a.states@[s].array_transitions@.len() > 0 implies
        #[trigger] leads_to_acceptance(a, s as usize, Symbol::Index(i)) by {
        let st = a.states@[s];
        lemma_array_step(st, i);
        lemma_one_step(a, s as usize, Symbol::Index(i));
        let t = st.array_transitions@[0].target;
        assert(table_targets_below(st, a.states@.len()));
        let v = lemma_live_state(a, t);
        crate::automaton::lemma_run_from_concat(a, s as usize, seq![Symbol::Index(i)], v);
        assert(a.states@[a.run_from(s as usize, seq![Symbol::Index(i)] + v) as int].accepting);
    }
}

/// A minimal document automaton that accepts only the empty path is the
/// automaton that selects the root only.
pub proof fn lemma_root_only(a: &Automaton)
    requires
        a.wf(),
        is_document_dfa(a),
        is_minimal(a),
        forall|w: Seq<Symbol>| #[trigger] a.accepts(w) == (w.len() == 0),
    ensures
        is_scalar_root(a),
{
    assert forall|s: usize| 0 < s < a.states@.len() && #[trigger] crate::automaton::reachable(a, s) implies s == 1 by {
        let w = choose|w: Seq<Symbol>| a.run(w) == s;
        let v = lemma_live_state(a, s);
        crate::automaton::lemma_run_from_concat(a, 1, w, v);
        assert(a.accepts(w + v));
        assert(w.len() == 0);
    }
    if a.states@.len() > 2 {
        assert(crate::automaton::reachable(a, 2));
    }
    let st = a.states@[1];
    let e = Seq::<Symbol>::empty();
    assert(a.accepts(e));
    assert(a.run(e) == 1);
    if st.member_transitions@.len() > 0 {
        let m = Symbol::Member(st.member_transitions@[0].0@);
        lemma_member_step(st, 0);
        lemma_one_step(a, 1, m);
        assert(table_targets_below(st, a.states@.len()));
        assert(a.accepts(seq![m]));
    }
    if st.array_transitions@.len() > 0 {
        lemma_array_step(st, 0);
        lemma_one_step(a, 1, Symbol::Index(0));
        assert(table_targets_below(st, a.states@.len()));
        assert(a.accepts(seq![Symbol::Index(0)]));
    }
}

/// Turns a nondeterministic document automaton into a minimal deterministic one.
#[derive(Debug, Default)]
pub struct NfaMinimizer;

impl NfaMinimizer {
    /// Determinises `nfa` by the subset construction over its document
    /// alphabet, then minimises the result with Hopcroft's algorithm. An
    /// automaton without any transition becomes the automaton that selects
    /// the root only.
    pub fn minimize(&self, nfa: &Automaton) -> (r: Automaton)
        requires
            nfa.wf(),
            (exists|s: DocSym| in_alphabet(nfa, s)) ==> reaches_empty_subset(nfa, 1),
        ensures
            r.wf(),
            is_document_dfa(&r),
            (exists|s: DocSym| in_alphabet(nfa, s)) ==> forall|w: Seq<Symbol>| #[trigger] r.accepts(w) == nfa_accepts(nfa, w),
            !(exists|s: DocSym| in_alphabet(nfa, s)) ==> is_scalar_root(&r),
            !(exists|s: DocSym| in_alphabet(nfa, s)) ==> forall|w: Seq<Symbol>| #[trigger] r.accepts(w) == (w.len() == 0),
            (exists|w: Seq<Symbol>| #[trigger] r.accepts(w)) ==> is_minimal(&r),
            (exists|w: Seq<Symbol>| #[trigger] r.accepts(w)) ==> live_transitions(&r),
            (forall|w: Seq<Symbol>| #[trigger] r.accepts(w) == (w.len() == 0)) ==> is_scalar_root(&r),
    {
        let alphabet = alphabet_from_automaton(nfa);
        if alphabet.len() == 0 {
            proof {
                assert forall|s: DocSym| !in_alphabet(nfa, s) by {
                    if in_alphabet(nfa, s) {
                        assert(syms_view(alphabet@).contains(s));
                    }
                }
            }
            let r = scalar_root_automaton();
            proof {
                assert forall|p: usize, q: usize| p < r.states@.len() && q < r.states@.len() && p != q
                    implies #[trigger] states_distinguishable(&r, p, q) by {
                    let e = Seq::<Symbol>::empty();
                    assert(r.run_from(p, e) == p && r.run_from(q, e) == q);
                }
                assert forall|st: usize| st < r.states@.len() implies #[trigger] crate::automaton::reachable(&r, st) by {
                    let e = Seq::<Symbol>::empty();
                    let one = seq![Symbol::Index(0)];
                    assert(one.drop_last() =~= e);
                    assert(r.states@[1].array_transitions@ =~= Seq::<crate::automaton::ArrayTransition>::empty());
                    assert(r.run(e) == 1);
                    assert(r.run(one) == 0);
                }
                lemma_reduced_live(&r);
            }
            return r;
        }
        proof {
            assert(syms_view(alphabet@).contains(syms_view(alphabet@)[0]));
            assert(in_alphabet(nfa, syms_view(alphabet@)[0]));
        }
        let dfa = determinize(nfa, &alphabet);
        let r = hopcroft_minimize(&dfa);
        proof {
            if exists|w: Seq<Symbol>| #[trigger] r.accepts(w) {
                assert(crate::automaton::all_reachable(&r));
                lemma_reduced_live(&r);
            }
            if forall|w: Seq<Symbol>| #[trigger] r.accepts(w) == (w.len() == 0) {
                assert(r.accepts(Seq::<Symbol>::empty()));
                lemma_root_only(&r);
            }
        }
        proof {
            assert forall|w: Seq<Symbol>| #[trigger] r.accepts(w) == nfa_accepts(nfa, w) by {
                assert(r.accepts(w) == dfa.accepts(w));
                assert(dfa.accepts(w) == nfa_accepts(nfa, w));
            }
        }
        r
    }
}


/// The minimised automaton of a document automaton has no more states than
/// any deterministic automaton that accepts the same paths, the one of the
/// subset construction included: `r` is what `minimize` returns for `nfa`
/// (a non-empty alphabet, some path accepted), `b` any such automaton.
pub proof fn lemma_minimized_no_larger(nfa: &Automaton, r: &Automaton, b: &Automaton)
    requires
        r.wf(),
        b.wf(),
        is_minimal(r),
        forall|w: Seq<Symbol>| #[trigger] r.accepts(w) == nfa_accepts(nfa, w),
        forall|w: Seq<Symbol>| #[trigger] b.accepts(w) == nfa_accepts(nfa, w),
    ensures
        r.states@.len() <= b.states@.len(),
{
    assert forall|w: Seq<Symbol>| #[trigger] r.accepts(w) == b.accepts(w) by {
        assert(r.accepts(w) == nfa_accepts(nfa, w));
        assert(b.accepts(w) == nfa_accepts(nfa, w));
    }
    crate::automaton::lemma_minimal_is_smallest(r, b);
}

/// Some run of the automaton, read nondeterministically, goes from `q` to `x` along `d`.
pub open spec fn nfa_reaches(a: &Automaton, q: usize, d: Seq<DocSym>, x: usize) -> bool
    decreases d.len(),
{
    if d.len() == 0 {
        q == x
    } else {
        exists|q2: usize| #[trigger] nfa_successors(a, q, d[0]).contains(q2) && nfa_reaches(a, q2, d.drop_first(), x)
    }
}

/// A run along `d` is a run along all of `d` but its last symbol, and one more step.
pub proof fn lemma_reaches_last(a: &Automaton, q: usize, d: Seq<DocSym>, x: usize)
    requires
        d.len() > 0,
    ensures
        nfa_reaches(a, q, d, x) <==> exists|y: usize| nfa_reaches(a, q, d.drop_last(), y) && #[trigger] nfa_successors(a, y, d.last()).contains(x),
    decreases d.len(),
{
    if d.len() == 1 {
        assert(d.drop_first() =~= Seq::<DocSym>::empty());
        assert(d.drop_last() =~= Seq::<DocSym>::empty());
        assert(d.last() == d[0]);
        if nfa_reaches(a, q, d, x) {
            let q2 = choose|q2: usize| #[trigger] nfa_successors(a, q, d[0]).contains(q2) && nfa_reaches(a, q2, d.drop_first(), x);
            assert(q2 == x);
            assert(nfa_reaches(a, q, d.drop_last(), q));
        }
        if exists|y: usize| nfa_reaches(a, q, d.drop_last(), y) && #[trigger] nfa_successors(a, y, d.last()).contains(x) {
            let y = choose|y: usize| nfa_reaches(a, q, d.drop_last(), y) && #[trigger] nfa_successors(a, y, d.last()).contains(x);
            assert(y == q);
            assert(nfa_reaches(a, x, d.drop_first(), x));
        }
    } else {
        let t = d.drop_first();
        assert(t.drop_last() =~= d.drop_last().drop_first());
        assert(t.last() == d.last());
        assert(d.drop_last()[0] == d[0]);
        if nfa_reaches(a, q, d, x) {
            let q2 = choose|q2: usize| #[trigger] nfa_successors(a, q, d[0]).contains(q2) && nfa_reaches(a, q2, t, x);
            lemma_reaches_last(a, q2, t, x);
            let y = choose|y: usize| nfa_reaches(a, q2, t.drop_last(), y) && #[trigger] nfa_successors(a, y, t.last()).contains(x);
            assert(nfa_reaches(a, q, d.drop_last(), y));
        }
        if exists|y: usize| nfa_reaches(a, q, d.drop_last(), y) && #[trigger] nfa_successors(a, y, d.last()).contains(x) {
            let y = choose|y: usize| nfa_reaches(a, q, d.drop_last(), y) && #[trigger] nfa_successors(a, y, d.last()).contains(x);
            let q2 = choose|q2: usize| #[trigger] nfa_successors(a, q, d.drop_last()[0]).contains(q2) && nfa_reaches(a, q2, d.drop_last().drop_first(), y);
            lemma_reaches_last(a, q2, t, x);
            assert(nfa_reaches(a, q2, t, x));
        }
    }
}

/// The subset run from `init` holds exactly the states that some run reaches.
pub proof fn lemma_subset_run_reaches(a: &Automaton, init: usize, d: Seq<DocSym>, x: usize)
    ensures
        subset_run_from(a, init, d).contains(x) <==> nfa_reaches(a, init, d, x),
    decreases d.len(),
{
    if d.len() > 0 {
        lemma_reaches_last(a, init, d, x);
        assert forall|y: usize| subset_run_from(a, init, d.drop_last()).contains(y) <==> nfa_reaches(a, init, d.drop_last(), y) by {
            lemma_subset_run_reaches(a, init, d.drop_last(), y);
        }
    }
}

} // verus!
