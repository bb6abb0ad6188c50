//! The product of two query automata and a document automaton, and the
//! check whether the queries disagree on some path that the document allows.

use vstd::prelude::*;
use vstd::arithmetic::div_mod::{
    lemma_fundamental_div_mod, lemma_fundamental_div_mod_converse, lemma_mod_multiples_vanish,
    lemma_mod_pos_bound,
};
use vstd::set_lib::{lemma_int_range, lemma_len_subset, set_int_range};

use crate::arith::{gcd, lcm, lemma_divides_trans, lemma_gcd_divides, lemma_lcm_multiple, lemma_multiple_ge, spec_lcm};
use crate::automaton::{
    array_target, has_member_label, label_matches, lemma_member_target_absent, lemma_step_in_range, member_target,
    ArrayLabel, ArrayTransition, Automaton, MemberTransition, StateTable, Symbol, JSON_UINT_MAX,
};

verus! {

/// A state of the product: one state of each of the three automata.
#[derive(Clone, Copy, Debug, PartialEq, Eq, Hash, Structural)]
pub struct ProductState {
    pub q1: usize,
    pub q2: usize,
    pub d: usize,
}

/// The product state that all three automata start in.
pub open spec fn product_initial() -> ProductState {
    ProductState { q1: 1, q2: 1, d: 1 }
}

/// Each component is a state of its automaton.
pub open spec fn valid_product(q1: &Automaton, q2: &Automaton, d: &Automaton, t: ProductState) -> bool {
    &&& t.q1 < q1.states@.len()
    &&& t.q2 < q2.states@.len()
    &&& t.d < d.states@.len()
}

/// All three automata take the step `sym`.
pub open spec fn product_step(
    q1: &Automaton,
    q2: &Automaton,
    d: &Automaton,
    t: ProductState,
    sym: Symbol,
) -> ProductState {
    ProductState {
        q1: q1.states@[t.q1 as int].step(sym),
        q2: q2.states@[t.q2 as int].step(sym),
        d: d.states@[t.d as int].step(sym),
    }
}

/// The product state reached along `w`.
pub open spec fn product_run(q1: &Automaton, q2: &Automaton, d: &Automaton, w: Seq<Symbol>) -> ProductState
    decreases w.len(),
{
    if w.len() == 0 {
        product_initial()
    } else {
        product_step(q1, q2, d, product_run(q1, q2, d, w.drop_last()), w.last())
    }
}

/// Exactly one of the queries accepts, and the document accepts.
pub open spec fn disagrees(q1: &Automaton, q2: &Automaton, d: &Automaton, t: ProductState) -> bool {
    (q1.states@[t.q1 as int].accepting != q2.states@[t.q2 as int].accepting) && d.states@[t.d as int].accepting
}

pub open spec fn max_int(a: int, b: int) -> int {
    if a >= b { a } else { b }
}

/// The largest index bound seen after also looking at `t`.
pub open spec fn boundary_after(b: int, t: ArrayTransition) -> int {
    match t.label {
        ArrayLabel::Index(i) => max_int(b, i as int),
        ArrayLabel::Slice { start, end, step } => match end {
            Some(e) => max_int(max_int(b, start as int), e as int),
            None => max_int(b, start as int),
        },
    }
}

/// The common period after also looking at `t`: slices with a positive step enter the lcm.
pub open spec fn period_after(p: nat, t: ArrayTransition) -> nat {
    match t.label {
        ArrayLabel::Slice { start, end, step } => if step > 0 {
            spec_lcm(p, step as nat)
        } else {
            p
        },
        ArrayLabel::Index(_) => p,
    }
}

pub open spec fn fold_boundary(ts: Seq<ArrayTransition>, b: int) -> int
    decreases ts.len(),
{
    if ts.len() == 0 {
        b
    } else {
        boundary_after(fold_boundary(ts.drop_last(), b), ts.last())
    }
}

pub open spec fn fold_period(ts: Seq<ArrayTransition>, p: nat) -> nat
    decreases ts.len(),
{
    if ts.len() == 0 {
        p
    } else {
        period_after(fold_period(ts.drop_last(), p), ts.last())
    }
}

/// Largest index or slice bound among three lists of array transitions (at least 1).
pub open spec fn scan_boundary(a1: Seq<ArrayTransition>, a2: Seq<ArrayTransition>, a3: Seq<ArrayTransition>) -> int {
    fold_boundary(a3, fold_boundary(a2, fold_boundary(a1, 1)))
}

/// Common period (lcm) of the positive slice steps among three lists of array transitions.
pub open spec fn scan_period(a1: Seq<ArrayTransition>, a2: Seq<ArrayTransition>, a3: Seq<ArrayTransition>) -> nat {
    fold_period(a3, fold_period(a2, fold_period(a1, 1)))
}

/// The last array index that is scanned for three lists of array transitions.
pub open spec fn scan_limit(a1: Seq<ArrayTransition>, a2: Seq<ArrayTransition>, a3: Seq<ArrayTransition>) -> int {
    scan_boundary(a1, a2, a3) + scan_period(a1, a2, a3)
}

/// The scan limit at `t` is an index that a JSON array can have.
pub open spec fn scan_fits(q1: &Automaton, q2: &Automaton, d: &Automaton, t: ProductState) -> bool {
    scan_limit(
        q1.states@[t.q1 as int].array_transitions@,
        q2.states@[t.q2 as int].array_transitions@,
        d.states@[t.d as int].array_transitions@,
    ) <= JSON_UINT_MAX
}

/// The scan limit fits at every product state that a path reaches without
/// passing a disagreement, where the search may have to scan array indices.
pub open spec fn scan_fits_along_paths(q1: &Automaton, q2: &Automaton, d: &Automaton) -> bool {
    forall|w: Seq<Symbol>| #[trigger] clean_path(q1, q2, d, w) ==> scan_fits(q1, q2, d, product_run(q1, q2, d, w))
}

/// No product state before the end of `w` shows a disagreement.
pub open spec fn clean_prefixes(q1: &Automaton, q2: &Automaton, d: &Automaton, w: Seq<Symbol>) -> bool {
    forall|i: int| 0 <= i < w.len() ==> !disagrees(q1, q2, d, #[trigger] product_run(q1, q2, d, w.take(i)))
}

/// No product state along `w`, its end included, shows a disagreement: the
/// paths along which the search goes on.
pub open spec fn clean_path(q1: &Automaton, q2: &Automaton, d: &Automaton, w: Seq<Symbol>) -> bool {
    clean_prefixes(q1, q2, d, w) && !disagrees(q1, q2, d, product_run(q1, q2, d, w))
}

/// Every index and slice bound of `t` is at most `b`.
pub open spec fn bounded_by(t: ArrayTransition, b: int) -> bool {
    match t.label {
        ArrayLabel::Index(i) => i <= b,
        ArrayLabel::Slice { start, end, step } => start <= b && (match end {
            Some(e) => e <= b,
            None => true,
        }),
    }
}

/// A positive slice step of `t` divides `p`.
pub open spec fn step_divides(t: ArrayTransition, p: nat) -> bool {
    match t.label {
        ArrayLabel::Slice { start, end, step } => step > 0 ==> p % (step as nat) == 0,
        ArrayLabel::Index(_) => true,
    }
}

pub proof fn lemma_fold_boundary_split(ts: Seq<ArrayTransition>, i: int, b: int)
    requires
        0 <= i <= ts.len(),
    ensures
        fold_boundary(ts, b) == fold_boundary(ts.subrange(i, ts.len() as int), fold_boundary(ts.take(i), b)),
    decreases ts.len(),
{
    if i == ts.len() {
        assert(ts.take(i) =~= ts);
        assert(ts.subrange(i, ts.len() as int) =~= Seq::<ArrayTransition>::empty());
    } else {
        let dl = ts.drop_last();
        lemma_fold_boundary_split(dl, i, b);
        assert(ts.subrange(i, ts.len() as int).drop_last() =~= dl.subrange(i, dl.len() as int));
        assert(dl.take(i) =~= ts.take(i));
    }
}

pub proof fn lemma_fold_period_split(ts: Seq<ArrayTransition>, i: int, p: nat)
    requires
        0 <= i <= ts.len(),
    ensures
        fold_period(ts, p) == fold_period(ts.subrange(i, ts.len() as int), fold_period(ts.take(i), p)),
    decreases ts.len(),
{
    if i == ts.len() {
        assert(ts.take(i) =~= ts);
        assert(ts.subrange(i, ts.len() as int) =~= Seq::<ArrayTransition>::empty());
    } else {
        let dl = ts.drop_last();
        lemma_fold_period_split(dl, i, p);
        assert(ts.subrange(i, ts.len() as int).drop_last() =~= dl.subrange(i, dl.len() as int));
        assert(dl.take(i) =~= ts.take(i));
    }
}

/// The boundary fold is at least its start and bounds every transition.
pub proof fn lemma_fold_boundary_bounds(ts: Seq<ArrayTransition>, b: int)
    ensures
        fold_boundary(ts, b) >= b,
        forall|k: int| 0 <= k < ts.len() ==> bounded_by(#[trigger] ts[k], fold_boundary(ts, b)),
    decreases ts.len(),
{
    if ts.len() > 0 {
        let dl = ts.drop_last();
        lemma_fold_boundary_bounds(dl, b);
        let f = fold_boundary(ts, b);
        assert(f >= fold_boundary(dl, b));
        assert forall|k: int| 0 <= k < ts.len() implies bounded_by(#[trigger] ts[k], f) by {
            if k < ts.len() - 1 {
                assert(ts[k] == dl[k]);
                assert(bounded_by(dl[k], fold_boundary(dl, b)));
            }
        }
    }
}

/// The period fold is a positive multiple of its start and of every positive step.
pub proof fn lemma_fold_period_divides(ts: Seq<ArrayTransition>, p: nat)
    requires
        p > 0,
    ensures
        fold_period(ts, p) > 0,
        fold_period(ts, p) % p == 0,
        forall|k: int| 0 <= k < ts.len() ==> step_divides(#[trigger] ts[k], fold_period(ts, p)),
    decreases ts.len(),
{
    if ts.len() == 0 {
        vstd::arithmetic::div_mod::lemma_mod_self_0(p as int);
    } else {
        let dl = ts.drop_last();
        lemma_fold_period_divides(dl, p);
        let f0 = fold_period(dl, p);
        let f = fold_period(ts, p);
        // f is a positive multiple of f0
        assert(f > 0 && f % f0 == 0) by {
            match ts.last().label {
                ArrayLabel::Slice { start, end, step } => {
                    if step > 0 {
                        lemma_lcm_multiple(f0, step as nat);
                    } else {
                        vstd::arithmetic::div_mod::lemma_mod_self_0(f0 as int);
                    }
                },
                ArrayLabel::Index(_) => {
                    vstd::arithmetic::div_mod::lemma_mod_self_0(f0 as int);
                },
            }
        }
        lemma_divides_trans(p as int, f0 as int, f as int);
        assert forall|k: int| 0 <= k < ts.len() implies step_divides(#[trigger] ts[k], f) by {
            if k < ts.len() - 1 {
                assert(ts[k] == dl[k]);
                assert(step_divides(dl[k], f0));
                match ts[k].label {
                    ArrayLabel::Slice { start, end, step } => {
                        if step > 0 {
                            lemma_divides_trans(step as int, f0 as int, f as int);
                        }
                    },
                    ArrayLabel::Index(_) => {},
                }
            } else {
                match ts[k].label {
                    ArrayLabel::Slice { start, end, step } => {
                        if step > 0 {
                            lemma_lcm_multiple(f0, step as nat);
                        }
                    },
                    ArrayLabel::Index(_) => {},
                }
            }
        }
    }
}

/// The boundary and period of three lists bound and divide every one of their transitions.
pub proof fn lemma_scan_covers(a1: Seq<ArrayTransition>, a2: Seq<ArrayTransition>, a3: Seq<ArrayTransition>)
    ensures
        scan_boundary(a1, a2, a3) >= 1,
        scan_period(a1, a2, a3) > 0,
        forall|k: int| 0 <= k < a1.len() ==> bounded_by(#[trigger] a1[k], scan_boundary(a1, a2, a3)) && step_divides(a1[k], scan_period(a1, a2, a3)),
        forall|k: int| 0 <= k < a2.len() ==> bounded_by(#[trigger] a2[k], scan_boundary(a1, a2, a3)) && step_divides(a2[k], scan_period(a1, a2, a3)),
        forall|k: int| 0 <= k < a3.len() ==> bounded_by(#[trigger] a3[k], scan_boundary(a1, a2, a3)) && step_divides(a3[k], scan_period(a1, a2, a3)),
{
    let b1 = fold_boundary(a1, 1);
    let b2 = fold_boundary(a2, b1);
    let b3 = fold_boundary(a3, b2);
    lemma_fold_boundary_bounds(a1, 1);
    lemma_fold_boundary_bounds(a2, b1);
    lemma_fold_boundary_bounds(a3, b2);
    let p1 = fold_period(a1, 1);
    lemma_fold_period_divides(a1, 1);
    let p2 = fold_period(a2, p1);
    lemma_fold_period_divides(a2, p1);
    let p3 = fold_period(a3, p2);
    lemma_fold_period_divides(a3, p2);
    lemma_divides_trans(p1 as int, p2 as int, p3 as int);
    assert forall|k: int| 0 <= k < a1.len() implies bounded_by(#[trigger] a1[k], b3) && step_divides(a1[k], p3) by {
        assert(bounded_by(a1[k], b1));
        assert(step_divides(a1[k], p1));
        match a1[k].label {
            ArrayLabel::Slice { start, end, step } => {
                if step > 0 {
                    lemma_divides_trans(step as int, p1 as int, p3 as int);
                }
            },
            ArrayLabel::Index(_) => {},
        }
    }
    assert forall|k: int| 0 <= k < a2.len() implies bounded_by(#[trigger] a2[k], b3) && step_divides(a2[k], p3) by {
        assert(bounded_by(a2[k], b2));
        assert(step_divides(a2[k], p2));
        match a2[k].label {
            ArrayLabel::Slice { start, end, step } => {
                if step > 0 {
                    lemma_divides_trans(step as int, p2 as int, p3 as int);
                }
            },
            ArrayLabel::Index(_) => {},
        }
    }
}

/// Array steps agree on two indices past every bound whose distance is a multiple of every step.
pub proof fn lemma_array_target_periodic(
    ts: Seq<ArrayTransition>,
    f: usize,
    i: nat,
    j: nat,
    m: nat,
    b: int,
    p: nat,
)
    requires
        forall|k: int| 0 <= k < ts.len() ==> bounded_by(#[trigger] ts[k], b) && step_divides(ts[k], p),
        b < i,
        b < j,
        p > 0,
        i == j + m * p,
    ensures
        array_target(ts, i, f) == array_target(ts, j, f),
    decreases ts.len(),
{
    if ts.len() > 0 {
        let t = ts[0];
        assert(bounded_by(t, b) && step_divides(t, p));
        assert(label_matches(t.label, i) == label_matches(t.label, j)) by {
            match t.label {
                ArrayLabel::Slice { start, end, step } => {
                    if step > 0 && end is None {
                        lemma_fundamental_div_mod(p as int, step as int);
                        let q = p as int / step as int;
                        assert((i - start) == (step as int) * (m * q) + (j - start)) by (nonlinear_arith)
                            requires
                                i == j + m * p,
                                p as int == (step as int) * q + 0,
                        ;
                        lemma_mod_multiples_vanish(m * q, j - start, step as int);
                    }
                },
                ArrayLabel::Index(_) => {},
            }
        }
        assert forall|k: int| 0 <= k < ts.drop_first().len() implies bounded_by(#[trigger] ts.drop_first()[k], b) && step_divides(ts.drop_first()[k], p) by {
            assert(ts.drop_first()[k] == ts[k + 1]);
        }
        lemma_array_target_periodic(ts.drop_first(), f, i, j, m, b, p);
    }
}


/// `x` is reached from `t` by one step of all three automata.
pub open spec fn reached_by_step(q1: &Automaton, q2: &Automaton, d: &Automaton, t: ProductState, x: ProductState) -> bool {
    exists|sym: Symbol| #[trigger] product_step(q1, q2, d, t, sym) == x
}

/// Some member name among `ls` equals `l`.
pub open spec fn list_has_label(ls: Seq<String>, l: Seq<char>) -> bool {
    exists|k: int| 0 <= k < ls.len() && (#[trigger] ls[k])@ == l
}

/// Sum of the lengths of the names in `ls`.
pub open spec fn total_len(ls: Seq<String>) -> nat
    decreases ls.len(),
{
    if ls.len() == 0 {
        0
    } else {
        total_len(ls.drop_last()) + ls.last()@.len()
    }
}

proof fn lemma_total_len_bounds(ls: Seq<String>)
    ensures
        forall|k: int| 0 <= k < ls.len() ==> (#[trigger] ls[k])@.len() <= total_len(ls),
    decreases ls.len(),
{
    if ls.len() > 0 {
        lemma_total_len_bounds(ls.drop_last());
        assert forall|k: int| 0 <= k < ls.len() implies (#[trigger] ls[k])@.len() <= total_len(ls) by {
            if k < ls.len() - 1 {
                assert(ls[k] == ls.drop_last()[k]);
            }
        }
    }
}

/// Some member name is not among `ls`.
proof fn lemma_fresh_label(ls: Seq<String>) -> (l: Seq<char>)
    ensures
        !list_has_label(ls, l),
{
    lemma_total_len_bounds(ls);
    let l = Seq::new(total_len(ls) + 1, |i: int| 'a');
    assert forall|k: int| 0 <= k < ls.len() implies (#[trigger] ls[k])@ != l by {
        assert(ls[k]@.len() <= total_len(ls));
    }
    l
}

/// The product run follows the run of each automaton.
pub proof fn lemma_product_run_components(q1: &Automaton, q2: &Automaton, d: &Automaton, w: Seq<Symbol>)
    ensures
        product_run(q1, q2, d, w) == (ProductState { q1: q1.run(w), q2: q2.run(w), d: d.run(w) }),
    decreases w.len(),
{
    if w.len() > 0 {
        lemma_product_run_components(q1, q2, d, w.drop_last());
    }
}

proof fn lemma_product_step_valid(q1: &Automaton, q2: &Automaton, d: &Automaton, t: ProductState, sym: Symbol)
    requires
        q1.wf(),
        q2.wf(),
        d.wf(),
        valid_product(q1, q2, d, t),
    ensures
        valid_product(q1, q2, d, product_step(q1, q2, d, t, sym)),
{
    lemma_step_in_range(q1, t.q1 as int, sym);
    lemma_step_in_range(q2, t.q2 as int, sym);
    lemma_step_in_range(d, t.d as int, sym);
}

/// Position of a product state in the box of all product states.
pub open spec fn encode_state(n2: int, n3: int, t: ProductState) -> int {
    t.q1 * (n2 * n3) + t.q2 * n3 + t.d
}

proof fn lemma_encode_state(n1: int, n2: int, n3: int, a: ProductState, b: ProductState)
    requires
        a.q1 < n1,
        a.q2 < n2,
        a.d < n3,
        b.q1 < n1,
        b.q2 < n2,
        b.d < n3,
    ensures
        0 <= encode_state(n2, n3, a) < n1 * (n2 * n3),
        encode_state(n2, n3, a) == encode_state(n2, n3, b) ==> a == b,
{
    let m = n2 * n3;
    let xa = a.q2 * n3 + a.d;
    let xb = b.q2 * n3 + b.d;
    assert(0 <= xa < m && 0 <= xb < m) by (nonlinear_arith)
        requires
            xa == a.q2 * n3 + a.d,
            xb == b.q2 * n3 + b.d,
            m == n2 * n3,
            0 <= a.q2 < n2,
            0 <= a.d < n3,
            0 <= b.q2 < n2,
            0 <= b.d < n3,
    ;
    assert(0 <= a.q1 * m + xa < n1 * m) by (nonlinear_arith)
        requires
            0 <= a.q1 < n1,
            0 <= xa < m,
    ;
    lemma_fundamental_div_mod_converse(a.q1 * m + xa, m, a.q1 as int, xa);
    lemma_fundamental_div_mod_converse(b.q1 * m + xb, m, b.q1 as int, xb);
    lemma_fundamental_div_mod_converse(xa, n3, a.q2 as int, a.d as int);
    lemma_fundamental_div_mod_converse(xb, n3, b.q2 as int, b.d as int);
}

/// Distinct product states all lie in a box of `n1 * n2 * n3` states.
proof fn lemma_distinct_states_bounded(n1: int, n2: int, n3: int, s: Seq<ProductState>)
    requires
        n1 >= 1,
        n2 >= 1,
        n3 >= 1,
        s.no_duplicates(),
        forall|k: int| 0 <= k < s.len() ==> (#[trigger] s[k]).q1 < n1 && s[k].q2 < n2 && s[k].d < n3,
    ensures
        s.len() <= n1 * (n2 * n3),
{
    let e = s.map_values(|t: ProductState| encode_state(n2, n3, t));
    assert forall|i: int, j: int| 0 <= i < e.len() && 0 <= j < e.len() && i != j implies e[i] != e[j] by {
        lemma_encode_state(n1, n2, n3, s[i], s[j]);
    }
    let n = n1 * (n2 * n3);
    assert(n >= 1) by (nonlinear_arith)
        requires
            n1 >= 1,
            n2 >= 1,
            n3 >= 1,
            n == n1 * (n2 * n3),
    ;
    assert(e.to_set().subset_of(set_int_range(0, n))) by {
        assert forall|x: int| e.to_set().contains(x) implies set_int_range(0, n).contains(x) by {
            let k = choose|k: int| 0 <= k < e.len() && e[k] == x;
            lemma_encode_state(n1, n2, n3, s[k], s[k]);
        }
    }
    lemma_int_range(0, n);
    lemma_len_subset(e.to_set(), set_int_range(0, n));
    e.unique_seq_to_set();
}

/// Target of the first member transition of `table` labelled `label`, else the fallback.
fn next_member_state(table: &StateTable, label: &String) -> (r: usize)
    ensures
        r == member_target(table.member_transitions@, label@, table.fallback_state),
{
    let ts = &table.member_transitions;
    let ghost f = table.fallback_state;
    let mut i: usize = 0;
    assert(ts@.subrange(0, ts@.len() as int) =~= ts@);
    while i < ts.len()
        invariant
            i <= ts@.len(),
            ts@ == table.member_transitions@,
            f == table.fallback_state,
            member_target(ts@.subrange(i as int, ts@.len() as int), label@, f) == member_target(ts@, label@, f),
        decreases ts@.len() - i,
    {
        proof {
            let s = ts@.subrange(i as int, ts@.len() as int);
            assert(s.drop_first() =~= ts@.subrange(i + 1, ts@.len() as int));
            assert(s[0] == ts@[i as int]);
        }
        if ts[i].0 == *label {
            let ghost s = ts@.subrange(i as int, ts@.len() as int);
            assert(s.len() > 0 && s[0] == ts@[i as int]);
            assert(s[0].0@ == label@);
            assert(member_target(s, label@, f) == s[0].1);
            return ts[i].1;
        }
        i += 1;
    }
    assert(ts@.subrange(i as int, ts@.len() as int) =~= Seq::<MemberTransition>::empty());
    table.fallback_state
}

/// Target of the first array transition of `table` that selects `index`, else the fallback.
fn next_array_state(table: &StateTable, index: u64) -> (r: usize)
    ensures
        r == array_target(table.array_transitions@, index as nat, table.fallback_state),
{
    let ts = &table.array_transitions;
    let ghost f = table.fallback_state;
    let mut i: usize = 0;
    assert(ts@.subrange(0, ts@.len() as int) =~= ts@);
    while i < ts.len()
        invariant
            i <= ts@.len(),
            ts@ == table.array_transitions@,
            f == table.fallback_state,
            array_target(ts@.subrange(i as int, ts@.len() as int), index as nat, f) == array_target(ts@, index as nat, f),
        decreases ts@.len() - i,
    {
        proof {
            let s = ts@.subrange(i as int, ts@.len() as int);
            assert(s.drop_first() =~= ts@.subrange(i + 1, ts@.len() as int));
            assert(s[0] == ts@[i as int]);
        }
        if ts[i].matches(index) {
            assert(ts@.subrange(i as int, ts@.len() as int)[0] == ts@[i as int]);
            return ts[i].target;
        }
        i += 1;
    }
    assert(ts@.subrange(i as int, ts@.len() as int) =~= Seq::<ArrayTransition>::empty());
    table.fallback_state
}

/// Whether a name equal to `label` is among `labels`.
fn contains_label(labels: &Vec<String>, label: &String) -> (r: bool)
    ensures
        r == list_has_label(labels@, label@),
{
    let mut i: usize = 0;
    while i < labels.len()
        invariant
            i <= labels@.len(),
            forall|k: int| 0 <= k < i ==> (#[trigger] labels@[k])@ != label@,
        decreases labels@.len() - i,
    {
        if labels[i] == *label {
            return true;
        }
        i += 1;
    }
    false
}

/// Appends to `labels` the member names of `table` that it does not hold yet.
fn collect_member_labels(table: &StateTable, labels: &mut Vec<String>)
    ensures
        forall|l: Seq<char>| list_has_label(final(labels)@, l) <==> (list_has_label(old(labels)@, l)
            || has_member_label(table.member_transitions@, l)),
{
    let ts = &table.member_transitions;
    let mut i: usize = 0;
    while i < ts.len()
        invariant
            i <= ts@.len(),
            forall|l: Seq<char>| list_has_label(labels@, l) <==> (list_has_label(old(labels)@, l)
                || has_member_label(ts@.take(i as int), l)),
        decreases ts@.len() - i,
    {
        let ghost before = labels@;
        if !contains_label(labels, &ts[i].0) {
            labels.push(ts[i].0.clone());
        }
        proof {
            assert forall|l: Seq<char>| list_has_label(labels@, l) <==> (list_has_label(old(labels)@, l)
                || has_member_label(ts@.take(i + 1), l)) by {
                if has_member_label(ts@.take(i + 1), l) && !has_member_label(ts@.take(i as int), l) {
                    let k = choose|k: int| 0 <= k < i + 1 && (#[trigger] ts@.take(i + 1)[k]).0@ == l;
                    if k < i {
                        assert(ts@.take(i as int)[k] == ts@.take(i + 1)[k]);
                    }
                    assert(ts@[i as int].0@ == l);
                    if list_has_label(before, l) {
                        let j = choose|j: int| 0 <= j < before.len() && (#[trigger] before[j])@ == l;
                        assert(labels@[j] == before[j]);
                    } else {
                        assert(labels@[labels@.len() - 1]@ == l);
                    }
                }
                if has_member_label(ts@.take(i as int), l) {
                    let k = choose|k: int| 0 <= k < i && (#[trigger] ts@.take(i as int)[k]).0@ == l;
                    assert(ts@.take(i + 1)[k] == ts@.take(i as int)[k]);
                }
                if list_has_label(before, l) {
                    let j = choose|j: int| 0 <= j < before.len() && (#[trigger] before[j])@ == l;
                    assert(labels@[j] == before[j]);
                }
                if list_has_label(labels@, l) {
                    let j = choose|j: int| 0 <= j < labels@.len() && (#[trigger] labels@[j])@ == l;
                    if j < before.len() {
                        assert(labels@[j] == before[j]);
                    } else {
                        assert(ts@.take(i + 1)[i as int] == ts@[i as int]);
                    }
                }
            }
        }
        i += 1;
    }
    assert(ts@.take(ts@.len() as int) =~= ts@);
}


/// Number representable as a JSON array index, through `rsonpath_syntax`.
///
/// Calls `rsonpath_syntax::num::JsonUInt::try_from(u64)`, which succeeds
/// exactly on values up to `2^53 - 1`, and reads the value back with `as_u64`.
#[verifier::external_body]
fn json_array_index(value: u64) -> (r: Option<u64>)
    ensures
        r == (if value <= JSON_UINT_MAX { Some(value) } else { None::<u64> }),
{
    match rsonpath_syntax::num::JsonUInt::try_from(value) {
        Ok(index) => Some(index.as_u64()),
        Err(_) => None,
    }
}

/// Updates the running bound and period with one array transition.
fn update_scan_parameters(transition: &ArrayTransition, max_boundary: &mut u64, period: &mut u64)
    requires
        period_after(*old(period) as nat, *transition) <= u64::MAX,
    ensures
        *final(max_boundary) as int == boundary_after(*old(max_boundary) as int, *transition),
        *final(period) as nat == period_after(*old(period) as nat, *transition),
{
    match transition.label {
        ArrayLabel::Index(index) => {
            if index > *max_boundary {
                *max_boundary = index;
            }
        },
        ArrayLabel::Slice { start, end, step } => {
            if start > *max_boundary {
                *max_boundary = start;
            }
            match end {
                Some(e) => {
                    if e > *max_boundary {
                        *max_boundary = e;
                    }
                },
                None => {},
            }
            if step > 0 {
                *period = lcm(*period, step);
            }
        },
    }
}

/// Folds one list of array transitions into the running bound and period.
fn scan_transitions(ts: &Vec<ArrayTransition>, max_boundary: &mut u64, period: &mut u64)
    requires
        *old(period) > 0,
        fold_period(ts@, *old(period) as nat) <= u64::MAX,
    ensures
        *final(max_boundary) as int == fold_boundary(ts@, *old(max_boundary) as int),
        *final(period) as nat == fold_period(ts@, *old(period) as nat),
{
    let ghost b0 = *max_boundary as int;
    let ghost p0 = *period as nat;
    let mut i: usize = 0;
    assert(ts@.take(0) =~= Seq::<ArrayTransition>::empty());
    while i < ts.len()
        invariant
            i <= ts@.len(),
            p0 > 0,
            fold_period(ts@, p0) <= u64::MAX,
            *max_boundary as int == fold_boundary(ts@.take(i as int), b0),
            *period as nat == fold_period(ts@.take(i as int), p0),
        decreases ts@.len() - i,
    {
        proof {
            assert(ts@.take(i + 1).drop_last() =~= ts@.take(i as int));
            let next = fold_period(ts@.take(i + 1), p0);
            lemma_fold_period_split(ts@, i + 1, p0);
            lemma_fold_period_divides(ts@.take(i + 1), p0);
            lemma_fold_period_divides(ts@.subrange(i + 1, ts@.len() as int), next);
            lemma_multiple_ge(next as int, fold_period(ts@, p0) as int);
        }
        update_scan_parameters(&ts[i], max_boundary, period);
        i += 1;
    }
    assert(ts@.take(ts@.len() as int) =~= ts@);
}

/// The last array index to scan for three lists of array transitions: the
/// largest bound plus one full common period of the slice steps, or
/// `u64::MAX` when that sum does not fit.
fn array_scan_limit(a1: &Vec<ArrayTransition>, a2: &Vec<ArrayTransition>, a3: &Vec<ArrayTransition>) -> (r: u64)
    requires
        scan_period(a1@, a2@, a3@) <= u64::MAX,
    ensures
        r as int == (if scan_limit(a1@, a2@, a3@) <= u64::MAX { scan_limit(a1@, a2@, a3@) } else { u64::MAX as int }),
{
    let mut max_boundary: u64 = 1;
    let mut period: u64 = 1;
    proof {
        lemma_fold_period_divides(a1@, 1);
        let p1 = fold_period(a1@, 1);
        lemma_fold_period_divides(a2@, p1);
        let p2 = fold_period(a2@, p1);
        lemma_fold_period_divides(a3@, p2);
        let p3 = fold_period(a3@, p2);
        lemma_fold_boundary_bounds(a1@, 1);
        lemma_fold_boundary_bounds(a2@, fold_boundary(a1@, 1));
        lemma_fold_boundary_bounds(a3@, fold_boundary(a2@, fold_boundary(a1@, 1)));
        lemma_multiple_ge(p2 as int, p3 as int);
        lemma_multiple_ge(p1 as int, p2 as int);
    }
    scan_transitions(a1, &mut max_boundary, &mut period);
    scan_transitions(a2, &mut max_boundary, &mut period);
    scan_transitions(a3, &mut max_boundary, &mut period);
    max_boundary.saturating_add(period)
}

/// Product states reached by member steps: one for every member name that
/// one of the three states names, and one for any other name.
fn member_successors(q1: &Automaton, q2: &Automaton, d: &Automaton, state: ProductState) -> (r: Vec<ProductState>)
    requires
        q1.wf(),
        q2.wf(),
        d.wf(),
        valid_product(q1, q2, d, state),
    ensures
        forall|k: int| 0 <= k < r@.len() ==> reached_by_step(q1, q2, d, state, #[trigger] r@[k]),
        forall|k: int| 0 <= k < r@.len() ==> valid_product(q1, q2, d, #[trigger] r@[k]),
        forall|l: Seq<char>| r@.contains(#[trigger] product_step(q1, q2, d, state, Symbol::Member(l))),
{
    let t1 = &q1.states[state.q1];
    let t2 = &q2.states[state.q2];
    let t3 = &d.states[state.d];

    let mut labels: Vec<String> = Vec::new();
    collect_member_labels(t1, &mut labels);
    collect_member_labels(t2, &mut labels);
    collect_member_labels(t3, &mut labels);

    let mut result: Vec<ProductState> = Vec::new();
    let mut i: usize = 0;
    while i < labels.len()
        invariant
            i <= labels@.len(),
            result@.len() == i,
            t1 == q1.states@[state.q1 as int],
            t2 == q2.states@[state.q2 as int],
            t3 == d.states@[state.d as int],
            q1.wf(),
            q2.wf(),
            d.wf(),
            valid_product(q1, q2, d, state),
            forall|k: int| 0 <= k < i ==> #[trigger] result@[k] == product_step(q1, q2, d, state, Symbol::Member(labels@[k]@)),
        decreases labels@.len() - i,
    {
        let next = ProductState {
            q1: next_member_state(t1, &labels[i]),
            q2: next_member_state(t2, &labels[i]),
            d: next_member_state(t3, &labels[i]),
        };
        result.push(next);
        i += 1;
    }
    let ghost n = result@.len();
    result.push(ProductState { q1: t1.fallback_state(), q2: t2.fallback_state(), d: t3.fallback_state() });
    proof {
        let fresh = lemma_fresh_label(labels@);
        lemma_member_target_absent(t1.member_transitions@, fresh, t1.fallback_state);
        lemma_member_target_absent(t2.member_transitions@, fresh, t2.fallback_state);
        lemma_member_target_absent(t3.member_transitions@, fresh, t3.fallback_state);
        assert(result@[n as int] == product_step(q1, q2, d, state, Symbol::Member(fresh)));
        assert forall|k: int| 0 <= k < result@.len() implies reached_by_step(q1, q2, d, state, #[trigger] result@[k]) by {
            if k < n {
                assert(result@[k] == product_step(q1, q2, d, state, Symbol::Member(labels@[k]@)));
            } else {
                assert(result@[k] == product_step(q1, q2, d, state, Symbol::Member(fresh)));
            }
        }
        assert forall|k: int| 0 <= k < result@.len() implies valid_product(q1, q2, d, #[trigger] result@[k]) by {
            let sym = choose|sym: Symbol| #[trigger] product_step(q1, q2, d, state, sym) == result@[k];
            lemma_product_step_valid(q1, q2, d, state, sym);
        }
        assert forall|l: Seq<char>| result@.contains(#[trigger] product_step(q1, q2, d, state, Symbol::Member(l))) by {
            if list_has_label(labels@, l) {
                let k = choose|k: int| 0 <= k < labels@.len() && (#[trigger] labels@[k])@ == l;
                assert(result@[k] == product_step(q1, q2, d, state, Symbol::Member(l)));
            } else {
                lemma_member_target_absent(t1.member_transitions@, l, t1.fallback_state);
                lemma_member_target_absent(t2.member_transitions@, l, t2.fallback_state);
                lemma_member_target_absent(t3.member_transitions@, l, t3.fallback_state);
                assert(result@[n as int] == product_step(q1, q2, d, state, Symbol::Member(l)));
            }
        }
    }
    result
}

/// Product states reached by array steps: one for every index up to the scan limit.
fn array_successors(q1: &Automaton, q2: &Automaton, d: &Automaton, state: ProductState) -> (r: Vec<ProductState>)
    requires
        q1.wf(),
        q2.wf(),
        d.wf(),
        valid_product(q1, q2, d, state),
        scan_fits(q1, q2, d, state),
    ensures
        forall|k: int| 0 <= k < r@.len() ==> reached_by_step(q1, q2, d, state, #[trigger] r@[k]),
        forall|k: int| 0 <= k < r@.len() ==> valid_product(q1, q2, d, #[trigger] r@[k]),
        forall|i: nat| r@.contains(#[trigger] product_step(q1, q2, d, state, Symbol::Index(i))),
{
    let t1 = &q1.states[state.q1];
    let t2 = &q2.states[state.q2];
    let t3 = &d.states[state.d];

    let limit = array_scan_limit(&t1.array_transitions, &t2.array_transitions, &t3.array_transitions);

    let mut result: Vec<ProductState> = Vec::new();
    let mut idx: u64 = 0;
    while idx <= limit
        invariant
            limit <= JSON_UINT_MAX,
            idx <= limit + 1,
            result@.len() == idx,
            t1 == q1.states@[state.q1 as int],
            t2 == q2.states@[state.q2 as int],
            t3 == d.states@[state.d as int],
            forall|k: int| 0 <= k < idx ==> #[trigger] result@[k] == product_step(q1, q2, d, state, Symbol::Index(k as nat)),
        decreases limit + 1 - idx,
    {
        let index = json_array_index(idx).unwrap();
        result.push(ProductState {
            q1: next_array_state(t1, index),
            q2: next_array_state(t2, index),
            d: next_array_state(t3, index),
        });
        idx += 1;
    }
    proof {
        let a1 = t1.array_transitions@;
        let a2 = t2.array_transitions@;
        let a3 = t3.array_transitions@;
        let b = scan_boundary(a1, a2, a3);
        let p = scan_period(a1, a2, a3);
        lemma_scan_covers(a1, a2, a3);
        assert forall|k: int| 0 <= k < result@.len() implies reached_by_step(q1, q2, d, state, #[trigger] result@[k]) by {
            assert(result@[k] == product_step(q1, q2, d, state, Symbol::Index(k as nat)));
        }
        assert forall|k: int| 0 <= k < result@.len() implies valid_product(q1, q2, d, #[trigger] result@[k]) by {
            lemma_product_step_valid(q1, q2, d, state, Symbol::Index(k as nat));
        }
        assert forall|i: nat| result@.contains(#[trigger] product_step(q1, q2, d, state, Symbol::Index(i))) by {
            if i <= limit {
                assert(result@[i as int] == product_step(q1, q2, d, state, Symbol::Index(i)));
            } else {
                lemma_fundamental_div_mod(i - b - 1, p as int);
                lemma_mod_pos_bound(i - b - 1, p as int);
                let m = (i - b - 1) / (p as int);
                let j = b + 1 + (i - b - 1) % (p as int);
                assert(m >= 0) by (nonlinear_arith)
                    requires
                        i - b - 1 == (p as int) * m + (i - b - 1) % (p as int),
                        0 <= (i - b - 1) % (p as int) < p,
                        i - b - 1 >= 0,
                ;
                assert(i == j + m * p) by (nonlinear_arith)
                    requires
                        i - b - 1 == (p as int) * m + (i - b - 1) % (p as int),
                        j == b + 1 + (i - b - 1) % (p as int),
                ;
                lemma_array_target_periodic(a1, t1.fallback_state, i, j as nat, m as nat, b, p);
                lemma_array_target_periodic(a2, t2.fallback_state, i, j as nat, m as nat, b, p);
                lemma_array_target_periodic(a3, t3.fallback_state, i, j as nat, m as nat, b, p);
                assert(result@[j] == product_step(q1, q2, d, state, Symbol::Index(j as nat)));
                assert(product_step(q1, q2, d, state, Symbol::Index(j as nat)) == product_step(q1, q2, d, state, Symbol::Index(i)));
            }
        }
    }
    result
}


/// A period fold is at least the period it starts from.
proof fn lemma_fold_period_ge(ts: Seq<ArrayTransition>, p: nat)
    requires
        p > 0,
    ensures
        fold_period(ts, p) >= p,
{
    lemma_fold_period_divides(ts, p);
    lemma_multiple_ge(p as int, fold_period(ts, p) as int);
}

/// The period fold of a prefix is at most that of the whole list.
proof fn lemma_fold_period_prefix_le(ts: Seq<ArrayTransition>, i: int, p: nat)
    requires
        0 <= i <= ts.len(),
        p > 0,
    ensures
        fold_period(ts.take(i), p) <= fold_period(ts, p),
{
    lemma_fold_period_split(ts, i, p);
    lemma_fold_period_divides(ts.take(i), p);
    lemma_fold_period_ge(ts.subrange(i, ts.len() as int), fold_period(ts.take(i), p));
}

/// The period fold of `ts` from `p`, when it stays within `cap`; `None`
/// when it goes beyond.
fn checked_fold_period(ts: &Vec<ArrayTransition>, p: u64, cap: u64) -> (r: Option<u64>)
    requires
        0 < p <= cap,
    ensures
        match r {
            Some(x) => x as nat == fold_period(ts@, p as nat) && 0 < x <= cap,
            None => fold_period(ts@, p as nat) > cap,
        },
{
    let mut cur = p;
    let mut i: usize = 0;
    proof {
        assert(ts@.take(0) =~= Seq::<ArrayTransition>::empty());
    }
    while i < ts.len()
        invariant
            i <= ts@.len(),
            0 < cur <= cap,
            0 < p <= cap,
            cur as nat == fold_period(ts@.take(i as int), p as nat),
        decreases ts@.len() - i,
    {
        proof {
            assert(ts@.take(i + 1).drop_last() =~= ts@.take(i as int));
            assert(ts@.take(i + 1).last() == ts@[i as int]);
        }
        match &ts[i].label {
            ArrayLabel::Slice { start, end, step } => {
                if *step > 0 {
                    let g = gcd(cur, *step);
                    proof {
                        lemma_gcd_divides(cur as nat, *step as nat);
                        lemma_lcm_multiple(cur as nat, *step as nat);
                    }
                    match (cur / g).checked_mul(*step) {
                        Some(l) => {
                            proof {
                                assert(l as nat == spec_lcm(cur as nat, *step as nat));
                                assert(l as nat == fold_period(ts@.take(i + 1), p as nat));
                            }
                            if l > cap {
                                proof {
                                    lemma_fold_period_prefix_le(ts@, i + 1, p as nat);
                                }
                                return None;
                            }
                            cur = l;
                        },
                        None => {
                            proof {
                                assert(fold_period(ts@.take(i + 1), p as nat) > u64::MAX);
                                lemma_fold_period_prefix_le(ts@, i + 1, p as nat);
                            }
                            return None;
                        },
                    }
                }
            },
            ArrayLabel::Index(_) => {},
        }
        i += 1;
    }
    proof {
        assert(ts@.take(ts@.len() as int) =~= ts@);
    }
    Some(cur)
}

/// Whether the scan limit of three lists of array transitions is an index
/// that a JSON array can have.
fn scan_limit_fits(a1: &Vec<ArrayTransition>, a2: &Vec<ArrayTransition>, a3: &Vec<ArrayTransition>) -> (r: bool)
    ensures
        r == (scan_limit(a1@, a2@, a3@) <= JSON_UINT_MAX),
{
    proof {
        lemma_fold_boundary_bounds(a1@, 1);
        lemma_fold_boundary_bounds(a2@, fold_boundary(a1@, 1));
        lemma_fold_boundary_bounds(a3@, fold_boundary(a2@, fold_boundary(a1@, 1)));
    }
    match checked_fold_period(a1, 1, JSON_UINT_MAX) {
        None => {
            proof {
                lemma_fold_period_ge(a2@, fold_period(a1@, 1));
                lemma_fold_period_ge(a3@, fold_period(a2@, fold_period(a1@, 1)));
            }
            false
        },
        Some(p1) => match checked_fold_period(a2, p1, JSON_UINT_MAX) {
            None => {
                proof {
                    lemma_fold_period_ge(a3@, fold_period(a2@, p1 as nat));
                }
                false
            },
            Some(p2) => match checked_fold_period(a3, p2, JSON_UINT_MAX) {
                None => false,
                Some(_) => {
                    let limit = array_scan_limit(a1, a2, a3);
                    limit <= JSON_UINT_MAX
                },
            },
        },
    }
}

/// Whether `states` holds `state`.
fn contains_state(states: &Vec<ProductState>, state: ProductState) -> (r: bool)
    ensures
        r == states@.contains(state),
{
    let mut i: usize = 0;
    while i < states.len()
        invariant
            i <= states@.len(),
            forall|k: int| 0 <= k < i ==> states@[k] != state,
        decreases states@.len() - i,
    {
        if states[i] == state {
            return true;
        }
        i += 1;
    }
    false
}

/// All product states reached from `state` in one step, each once.
fn successors(q1: &Automaton, q2: &Automaton, d: &Automaton, state: ProductState) -> (r: Vec<ProductState>)
    requires
        q1.wf(),
        q2.wf(),
        d.wf(),
        valid_product(q1, q2, d, state),
        scan_fits(q1, q2, d, state),
    ensures
        r@.no_duplicates(),
        forall|k: int| 0 <= k < r@.len() ==> reached_by_step(q1, q2, d, state, #[trigger] r@[k]),
        forall|k: int| 0 <= k < r@.len() ==> valid_product(q1, q2, d, #[trigger] r@[k]),
        forall|sym: Symbol| r@.contains(#[trigger] product_step(q1, q2, d, state, sym)),
{
    let mut all = member_successors(q1, q2, d, state);
    let arrays = array_successors(q1, q2, d, state);
    let ghost members = all@;
    let mut j: usize = 0;
    while j < arrays.len()
        invariant
            j <= arrays@.len(),
            all@ == members + arrays@.take(j as int),
        decreases arrays@.len() - j,
    {
        all.push(arrays[j]);
        j += 1;
        assert(all@ =~= members + arrays@.take(j as int));
    }
    assert(arrays@.take(arrays@.len() as int) =~= arrays@);

    let mut result: Vec<ProductState> = Vec::new();
    let mut i: usize = 0;
    while i < all.len()
        invariant
            i <= all@.len(),
            result@.no_duplicates(),
            forall|x: ProductState| result@.contains(x) <==> all@.take(i as int).contains(x),
        decreases all@.len() - i,
    {
        let candidate = all[i];
        let ghost before = result@;
        if !contains_state(&result, candidate) {
            result.push(candidate);
        }
        proof {
            assert forall|x: ProductState| result@.contains(x) <==> all@.take(i + 1).contains(x) by {
                if all@.take(i + 1).contains(x) {
                    let k = choose|k: int| 0 <= k < i + 1 && #[trigger] all@.take(i + 1)[k] == x;
                    if k < i {
                        assert(all@.take(i as int)[k] == x);
                    } else if before.contains(x) {
                        let m = choose|m: int| 0 <= m < before.len() && #[trigger] before[m] == x;
                        assert(result@[m] == x);
                    } else {
                        assert(result@[result@.len() - 1] == x);
                    }
                }
                if before.contains(x) {
                    let m = choose|m: int| 0 <= m < before.len() && #[trigger] before[m] == x;
                    assert(result@[m] == x);
                    let k = choose|k: int| 0 <= k < i && #[trigger] all@.take(i as int)[k] == x;
                    assert(all@.take(i + 1)[k] == x);
                }
                if result@.contains(x) {
                    let m = choose|m: int| 0 <= m < result@.len() && #[trigger] result@[m] == x;
                    if m < before.len() {
                        assert(before[m] == x);
                        let k = choose|k: int| 0 <= k < i && #[trigger] all@.take(i as int)[k] == x;
                        assert(all@.take(i + 1)[k] == x);
                    } else {
                        assert(all@.take(i + 1)[i as int] == x);
                    }
                }
            }
        }
        i += 1;
    }
    proof {
        assert(all@.take(all@.len() as int) =~= all@);
        assert forall|k: int| 0 <= k < result@.len() implies reached_by_step(q1, q2, d, state, #[trigger] result@[k])
            && valid_product(q1, q2, d, result@[k]) by {
            assert(result@.contains(result@[k]));
            let m = choose|m: int| 0 <= m < all@.len() && #[trigger] all@[m] == result@[k];
            if m < members.len() {
                assert(all@[m] == members[m]);
            } else {
                assert(all@[m] == arrays@[m - members.len()]);
            }
        }
        assert forall|sym: Symbol| result@.contains(#[trigger] product_step(q1, q2, d, state, sym)) by {
            let x = product_step(q1, q2, d, state, sym);
            match sym {
                Symbol::Member(l) => {
                    assert(members.contains(product_step(q1, q2, d, state, Symbol::Member(l))));
                    let m = choose|m: int| 0 <= m < members.len() && #[trigger] members[m] == x;
                    assert(all@[m] == x);
                },
                Symbol::Index(n) => {
                    assert(arrays@.contains(product_step(q1, q2, d, state, Symbol::Index(n))));
                    let m = choose|m: int| 0 <= m < arrays@.len() && #[trigger] arrays@[m] == x;
                    assert(all@[members.len() + m] == x);
                },
            }
            assert(all@.contains(x));
        }
    }
    result
}

/// Whether exactly one query accepts at `state` while the document accepts.
fn is_accepting(q1: &Automaton, q2: &Automaton, d: &Automaton, state: ProductState) -> (r: bool)
    requires
        valid_product(q1, q2, d, state),
    ensures
        r == disagrees(q1, q2, d, state),
{
    (q1.is_accepting(state.q1) != q2.is_accepting(state.q2)) && d.is_accepting(state.d)
}

/// Every run stays in a set of product states that holds the initial state
/// and is closed under steps.
proof fn lemma_closed_holds_runs(q1: &Automaton, q2: &Automaton, d: &Automaton, seen: Seq<ProductState>, w: Seq<Symbol>)
    requires
        seen.contains(product_initial()),
        forall|k: int, sym: Symbol| 0 <= k < seen.len() ==> seen.contains(#[trigger] product_step(q1, q2, d, seen[k], sym)),
    ensures
        seen.contains(product_run(q1, q2, d, w)),
    decreases w.len(),
{
    if w.len() > 0 {
        lemma_closed_holds_runs(q1, q2, d, seen, w.drop_last());
        let prev = product_run(q1, q2, d, w.drop_last());
        let k = choose|k: int| 0 <= k < seen.len() && #[trigger] seen[k] == prev;
        assert(seen.contains(product_step(q1, q2, d, seen[k], w.last())));
    }
}

/// The breadth-first search of the product of `q1`, `q2` and `d` from the
/// initial states, which stops at the first disagreement it finds: `Some`
/// with whether one was found, or `None` when it comes to expand a product
/// state whose array scan goes beyond the indices a JSON array can have.
fn search_product(q1: &Automaton, q2: &Automaton, d: &Automaton) -> (r: Option<bool>)
    requires
        q1.wf(),
        q2.wf(),
        d.wf(),
    ensures
        match r {
            Some(b) => b == exists|w: Seq<Symbol>| (q1.accepts(w) != q2.accepts(w)) && d.accepts(w),
            None => exists|w: Seq<Symbol>| #[trigger] clean_path(q1, q2, d, w) && !scan_fits(q1, q2, d, product_run(q1, q2, d, w)),
        },
{
    let initial = ProductState { q1: q1.initial_state(), q2: q2.initial_state(), d: d.initial_state() };
    let ghost n1 = q1.states@.len() as int;
    let ghost n2 = q2.states@.len() as int;
    let ghost n3 = d.states@.len() as int;
    let ghost bound = n1 * (n2 * n3);

    let mut seen: Vec<ProductState> = Vec::new();
    seen.push(initial);
    let ghost mut witnesses: Seq<Seq<Symbol>> = seq![Seq::<Symbol>::empty()];
    let mut head: usize = 0;
    proof {
        lemma_distinct_states_bounded(n1, n2, n3, seen@);
        assert(clean_prefixes(q1, q2, d, witnesses[0]));
    }

    while head < seen.len()
        invariant
            q1.wf(),
            q2.wf(),
            d.wf(),
            n1 == q1.states@.len(),
            n2 == q2.states@.len(),
            n3 == d.states@.len(),
            bound == n1 * (n2 * n3),
            head <= seen@.len(),
            seen@.len() <= bound,
            seen@.len() > 0,
            seen@[0] == product_initial(),
            seen@.no_duplicates(),
            forall|k: int| 0 <= k < seen@.len() ==> valid_product(q1, q2, d, #[trigger] seen@[k]),
            witnesses.len() == seen@.len(),
            forall|k: int| 0 <= k < seen@.len() ==> #[trigger] product_run(q1, q2, d, witnesses[k]) == seen@[k],
            forall|k: int| 0 <= k < seen@.len() ==> #[trigger] clean_prefixes(q1, q2, d, witnesses[k]),
            forall|k: int| 0 <= k < head ==> !disagrees(q1, q2, d, #[trigger] seen@[k]),
            forall|k: int, sym: Symbol| 0 <= k < head ==> seen@.contains(#[trigger] product_step(q1, q2, d, seen@[k], sym)),
        decreases bound - head,
    {
        let current = seen[head];
        proof {
            assert(product_run(q1, q2, d, witnesses[head as int]) == current);
            assert(clean_prefixes(q1, q2, d, witnesses[head as int]));
        }
        if is_accepting(q1, q2, d, current) {
            proof {
                let w = witnesses[head as int];
                lemma_product_run_components(q1, q2, d, w);
                assert((q1.accepts(w) != q2.accepts(w)) && d.accepts(w));
            }
            return Some(true);
        }
        proof {
            assert(clean_path(q1, q2, d, witnesses[head as int]));
        }
        if !scan_limit_fits(
            &q1.states[current.q1].array_transitions,
            &q2.states[current.q2].array_transitions,
            &d.states[current.d].array_transitions,
        ) {
            proof {
                assert(!scan_fits(q1, q2, d, product_run(q1, q2, d, witnesses[head as int])));
            }
            return None;
        }

        let next_states = successors(q1, q2, d, current);
        let mut j: usize = 0;
        while j < next_states.len()
            invariant
                q1.wf(),
                q2.wf(),
                d.wf(),
                n1 == q1.states@.len(),
                n2 == q2.states@.len(),
                n3 == d.states@.len(),
                bound == n1 * (n2 * n3),
                j <= next_states@.len(),
                head < seen@.len(),
                seen@[head as int] == current,
                seen@.len() <= bound,
                seen@[0] == product_initial(),
                seen@.no_duplicates(),
                forall|k: int| 0 <= k < seen@.len() ==> valid_product(q1, q2, d, #[trigger] seen@[k]),
                witnesses.len() == seen@.len(),
                forall|k: int| 0 <= k < seen@.len() ==> #[trigger] product_run(q1, q2, d, witnesses[k]) == seen@[k],
                forall|k: int| 0 <= k < seen@.len() ==> #[trigger] clean_prefixes(q1, q2, d, witnesses[k]),
                !disagrees(q1, q2, d, current),
                forall|k: int| 0 <= k < head ==> !disagrees(q1, q2, d, #[trigger] seen@[k]),
                forall|k: int, sym: Symbol| 0 <= k < head ==> seen@.contains(#[trigger] product_step(q1, q2, d, seen@[k], sym)),
                forall|k: int| 0 <= k < j ==> seen@.contains(#[trigger] next_states@[k]),
                forall|k: int| 0 <= k < next_states@.len() ==> reached_by_step(q1, q2, d, current, #[trigger] next_states@[k]),
                forall|k: int| 0 <= k < next_states@.len() ==> valid_product(q1, q2, d, #[trigger] next_states@[k]),
            decreases next_states@.len() - j,
        {
            let next = next_states[j];
            let ghost before = seen@;
            if !contains_state(&seen, next) {
                seen.push(next);
                proof {
                    assert(reached_by_step(q1, q2, d, current, next_states@[j as int]));
                    let sym = choose|sym: Symbol| #[trigger] product_step(q1, q2, d, current, sym) == next;
                    let w = witnesses[head as int];
                    let w2 = w.push(sym);
                    assert(w2.drop_last() =~= w);
                    assert(w2.last() == sym);
                    assert(product_run(q1, q2, d, w) == current);
                    assert(product_run(q1, q2, d, w2) == product_step(q1, q2, d, product_run(q1, q2, d, w), sym));
                    witnesses = witnesses.push(w2);
                    assert(product_run(q1, q2, d, witnesses[witnesses.len() - 1]) == next);
                    assert forall|k: int| 0 <= k < seen@.len() implies valid_product(q1, q2, d, #[trigger] seen@[k]) by {
                        if k < before.len() {
                            assert(seen@[k] == before[k]);
                        }
                    }
                    assert forall|k: int| 0 <= k < seen@.len() implies #[trigger] product_run(q1, q2, d, witnesses[k]) == seen@[k] by {
                        if k < before.len() {
                            assert(seen@[k] == before[k]);
                        }
                    }
                    assert(clean_prefixes(q1, q2, d, w));
                    assert forall|i: int| 0 <= i < w2.len() implies !disagrees(q1, q2, d, #[trigger] product_run(q1, q2, d, w2.take(i))) by {
                        if i < w.len() {
                            assert(w2.take(i) =~= w.take(i));
                        } else {
                            assert(w2.take(i) =~= w);
                        }
                    }
                    assert(clean_prefixes(q1, q2, d, w2));
                    assert forall|k: int| 0 <= k < seen@.len() implies #[trigger] clean_prefixes(q1, q2, d, witnesses[k]) by {
                        if k == seen@.len() - 1 {
                            assert(witnesses[k] == w2);
                        }
                    }
                    lemma_distinct_states_bounded(n1, n2, n3, seen@);
                }
            }
            proof {
                assert forall|k: int| 0 <= k < before.len() implies seen@[k] == #[trigger] before[k] by {}
                assert forall|x: ProductState| before.contains(x) implies seen@.contains(x) by {
                    let m = choose|m: int| 0 <= m < before.len() && #[trigger] before[m] == x;
                    assert(seen@[m] == x);
                }
                assert forall|k: int, sym: Symbol| 0 <= k < head implies seen@.contains(#[trigger] product_step(q1, q2, d, seen@[k], sym)) by {
                    assert(seen@[k] == before[k]);
                    assert(before.contains(product_step(q1, q2, d, before[k], sym)));
                }
                assert forall|k: int| 0 <= k < head implies !disagrees(q1, q2, d, #[trigger] seen@[k]) by {
                    assert(seen@[k] == before[k]);
                }
                assert(seen@.contains(next));
                assert forall|k: int| 0 <= k < j + 1 implies seen@.contains(#[trigger] next_states@[k]) by {
                    if k < j {
                        assert(before.contains(next_states@[k]));
                    }
                }
            }
            j += 1;
        }
        proof {
            assert forall|sym: Symbol| seen@.contains(#[trigger] product_step(q1, q2, d, current, sym)) by {
                assert(next_states@.contains(product_step(q1, q2, d, current, sym)));
                let m = choose|m: int| 0 <= m < next_states@.len() && #[trigger] next_states@[m] == product_step(q1, q2, d, current, sym);
                assert(seen@.contains(next_states@[m]));
            }
            assert forall|k: int, sym: Symbol| 0 <= k < head + 1 implies seen@.contains(#[trigger] product_step(q1, q2, d, seen@[k], sym)) by {
                if k == head {
                    assert(seen@.contains(product_step(q1, q2, d, current, sym)));
                }
            }
        }
        head += 1;
    }
    proof {
        assert(seen@.contains(product_initial())) by {
            assert(seen@[0] == product_initial());
        }
        assert forall|w: Seq<Symbol>| !((q1.accepts(w) != q2.accepts(w)) && d.accepts(w)) by {
            lemma_closed_holds_runs(q1, q2, d, seen@, w);
            lemma_product_run_components(q1, q2, d, w);
            let m = choose|m: int| 0 <= m < seen@.len() && #[trigger] seen@[m] == product_run(q1, q2, d, w);
            assert(!disagrees(q1, q2, d, seen@[m]));
        }
    }
    Some(false)
}

/// Check whether `(q1 △ q2) ∩ d` accepts any word: whether there is a path
/// that the document automaton `d` accepts and on which exactly one of the
/// query automata `q1` and `q2` accepts. A result of `false` means that the
/// two queries are equivalent on every path that `d` allows.
///
/// The product is explored breadth-first from the initial states. From a
/// product state, member steps are tried for every member name that one of
/// the three states names and for one name that none of them names; array
/// steps are tried for every index up to the largest index or slice bound
/// among the three states plus one common period of their slice steps.
/// That index must be one a JSON array can have at every product state the
/// search expands; [`try_has_nonempty_intersection_of_symmetric_difference`]
/// runs the same search on any input and says when it is not.
pub fn has_nonempty_intersection_of_symmetric_difference(q1: &Automaton, q2: &Automaton, d: &Automaton) -> (r: bool)
    requires
        q1.wf(),
        q2.wf(),
        d.wf(),
        scan_fits_along_paths(q1, q2, d),
    ensures
        r == exists|w: Seq<Symbol>| (q1.accepts(w) != q2.accepts(w)) && d.accepts(w),
{
    match search_product(q1, q2, d) {
        Some(b) => b,
        None => {
            proof {
                let w = choose|w: Seq<Symbol>| #[trigger] clean_path(q1, q2, d, w) && !scan_fits(q1, q2, d, product_run(q1, q2, d, w));
                assert(false);
            }
            false
        },
    }
}

/// The same search on any three automata: `Some` with whether `(q1 △ q2) ∩ d`
/// accepts a word, or `None` when the search, which stops at the first
/// disagreement it finds, comes to expand a product state whose array scan
/// goes beyond the indices a JSON array can have. That happens only where
/// the scan limit does not fit at some product state reached without
/// passing a disagreement.
pub fn try_has_nonempty_intersection_of_symmetric_difference(q1: &Automaton, q2: &Automaton, d: &Automaton) -> (r: Option<bool>)
    requires
        q1.wf(),
        q2.wf(),
        d.wf(),
    ensures
        match r {
            Some(b) => b == exists|w: Seq<Symbol>| (q1.accepts(w) != q2.accepts(w)) && d.accepts(w),
            None => !scan_fits_along_paths(q1, q2, d),
        },
        scan_fits_along_paths(q1, q2, d) ==> r is Some,
{
    search_product(q1, q2, d)
}

/// The check does not depend on the order of the two queries: what
/// `has_nonempty_intersection_of_symmetric_difference` returns for `q1, q2`
/// it returns for `q2, q1`.
pub proof fn lemma_symmetric_difference_commutes(q1: &Automaton, q2: &Automaton, d: &Automaton)
    ensures
        (exists|w: Seq<Symbol>| (q1.accepts(w) != q2.accepts(w)) && d.accepts(w))
            == (exists|w: Seq<Symbol>| (q2.accepts(w) != q1.accepts(w)) && d.accepts(w)),
{
    if exists|w: Seq<Symbol>| (q1.accepts(w) != q2.accepts(w)) && d.accepts(w) {
        let w = choose|w: Seq<Symbol>| (q1.accepts(w) != q2.accepts(w)) && d.accepts(w);
        assert((q2.accepts(w) != q1.accepts(w)) && d.accepts(w));
    }
    if exists|w: Seq<Symbol>| (q2.accepts(w) != q1.accepts(w)) && d.accepts(w) {
        let w = choose|w: Seq<Symbol>| (q2.accepts(w) != q1.accepts(w)) && d.accepts(w);
        assert((q1.accepts(w) != q2.accepts(w)) && d.accepts(w));
    }
}

/// A query never disagrees with itself: for `q, q` the check returns `false`
/// on every document automaton.
pub proof fn lemma_query_agrees_with_itself(q: &Automaton, d: &Automaton)
    ensures
        !(exists|w: Seq<Symbol>| (q.accepts(w) != q.accepts(w)) && d.accepts(w)),
{
}

} // verus!
