//! Greatest common divisor and least common multiple on `u64`, with the
//! divisibility facts that the array-index scan relies on.

use vstd::prelude::*;
use vstd::arithmetic::div_mod::{
    lemma_fundamental_div_mod, lemma_mod_multiples_basic, lemma_mod_multiples_vanish,
    lemma_mod_pos_bound, lemma_mod_self_0,
};

verus! {

/// Euclid's greatest common divisor.
pub open spec fn spec_gcd(a: nat, b: nat) -> nat
    decreases b,
{
    if b == 0 {
        a
    } else {
        proof {
            lemma_mod_pos_bound(a as int, b as int);
        }
        spec_gcd(b, a % b)
    }
}

/// Least common multiple, written as `a / gcd(a, b) * b`; zero when either argument is.
pub open spec fn spec_lcm(a: nat, b: nat) -> nat {
    if a == 0 || b == 0 {
        0
    } else {
        (a / spec_gcd(a, b)) * b
    }
}

/// A combination `q * x + y` of two multiples of `g` is a multiple of `g`.
pub proof fn lemma_multiple_combination(x: int, y: int, q: int, g: int)
    requires
        g > 0,
        x % g == 0,
        y % g == 0,
    ensures
        (q * x + y) % g == 0,
{
    lemma_fundamental_div_mod(x, g);
    lemma_fundamental_div_mod(y, g);
    let kx = x / g;
    let ky = y / g;
    assert(q * x + y == g * (q * kx + ky) + 0) by (nonlinear_arith)
        requires
            x == g * kx,
            y == g * ky,
    ;
    lemma_mod_multiples_vanish(q * kx + ky, 0, g);
}

/// The gcd of two numbers, not both zero, is positive and divides both.
pub proof fn lemma_gcd_divides(a: nat, b: nat)
    requires
        a > 0 || b > 0,
    ensures
        spec_gcd(a, b) > 0,
        a % spec_gcd(a, b) == 0,
        b % spec_gcd(a, b) == 0,
    decreases b,
{
    if b == 0 {
        lemma_mod_self_0(a as int);
    } else {
        lemma_mod_pos_bound(a as int, b as int);
        let r = a % b;
        lemma_gcd_divides(b, r);
        let g = spec_gcd(b, r);
        lemma_fundamental_div_mod(a as int, b as int);
        let q = a as int / b as int;
        assert(a as int == q * (b as int) + (r as int)) by (nonlinear_arith)
            requires
                a as int == (b as int) * q + (a as int % b as int),
                r == a % b,
        ;
        lemma_multiple_combination(b as int, r as int, q, g as int);
    }
}

/// A positive multiple of `d` is at least `d`.
pub proof fn lemma_multiple_ge(d: int, n: int)
    requires
        d > 0,
        n > 0,
        n % d == 0,
    ensures
        d <= n,
        n / d >= 1,
{
    lemma_fundamental_div_mod(n, d);
    let k = n / d;
    assert(k >= 1 && d <= n) by (nonlinear_arith)
        requires
            n == d * k + 0,
            d > 0,
            n > 0,
    ;
}

/// Divisibility is transitive.
pub proof fn lemma_divides_trans(a: int, b: int, c: int)
    requires
        a > 0,
        b > 0,
        b % a == 0,
        c % b == 0,
    ensures
        c % a == 0,
{
    lemma_fundamental_div_mod(b, a);
    lemma_fundamental_div_mod(c, b);
    let kb = b / a;
    let kc = c / b;
    assert(c == (kb * kc) * a) by (nonlinear_arith)
        requires
            b == a * kb + 0,
            c == b * kc + 0,
    ;
    lemma_mod_multiples_basic(kb * kc, a);
}

/// The least common multiple of two positive numbers is positive and a multiple of both.
pub proof fn lemma_lcm_multiple(a: nat, b: nat)
    requires
        a > 0,
        b > 0,
    ensures
        spec_lcm(a, b) > 0,
        spec_lcm(a, b) % a == 0,
        spec_lcm(a, b) % b == 0,
{
    lemma_gcd_divides(a, b);
    let g = spec_gcd(a, b) as int;
    lemma_multiple_ge(g, a as int);
    lemma_fundamental_div_mod(a as int, g);
    lemma_fundamental_div_mod(b as int, g);
    let ka = a as int / g;
    let kb = b as int / g;
    assert(spec_lcm(a, b) == ka * (b as int));
    assert(ka * (b as int) == kb * (a as int) && ka * (b as int) > 0) by (nonlinear_arith)
        requires
            a as int == g * ka + 0,
            b as int == g * kb + 0,
            ka >= 1,
            b > 0,
    ;
    lemma_mod_multiples_basic(ka, b as int);
    lemma_mod_multiples_basic(kb, a as int);
}

/// Greatest common divisor by Euclid's algorithm.
pub fn gcd(a: u64, b: u64) -> (r: u64)
    ensures
        r == spec_gcd(a as nat, b as nat),
{
    let mut x = a;
    let mut y = b;
    while y != 0
        invariant
            spec_gcd(x as nat, y as nat) == spec_gcd(a as nat, b as nat),
        decreases y,
    {
        proof {
            lemma_mod_pos_bound(x as int, y as int);
        }
        let tmp = x % y;
        x = y;
        y = tmp;
    }
    x
}

/// Least common multiple; zero when either argument is zero.
pub fn lcm(a: u64, b: u64) -> (r: u64)
    requires
        spec_lcm(a as nat, b as nat) <= u64::MAX,
    ensures
        r == spec_lcm(a as nat, b as nat),
{
    if a == 0 || b == 0 {
        0
    } else {
        let g = gcd(a, b);
        proof {
            lemma_gcd_divides(a as nat, b as nat);
            lemma_multiple_ge(g as int, a as int);
            assert((a / g) as int == a as int / g as int);
        }
        a / g * b
    }
}

} // verus!
