//! Greatest common divisors: the definition and the facts that reduction of
//! fractions rests on.
use vstd::arithmetic::div_mod::{
    lemma_fundamental_div_mod, lemma_fundamental_div_mod_converse, lemma_mod_multiples_basic,
    lemma_truncate_middle,
};
use vstd::prelude::*;

verus! {

/// The absolute value of an integer.
pub open spec fn abs(x: int) -> nat {
    if x < 0 {
        (-x) as nat
    } else {
        x as nat
    }
}

/// The greatest common divisor, by Euclid's algorithm; `gcd(0, 0) == 0`.
pub open spec fn gcd(a: nat, b: nat) -> nat
    decreases b,
{
    if b == 0 {
        a
    } else {
        gcd(b, a % b)
    }
}

/// `g` divides `x`.
pub open spec fn divides(g: int, x: int) -> bool {
    x % g == 0
}

/// A common divisor of `b` and `r` divides `q * b + r`.
proof fn lemma_divides_sum(g: int, q: int, b: int, r: int)
    requires
        g > 0,
        divides(g, b),
        divides(g, r),
    ensures
        divides(g, q * b + r),
{
    lemma_fundamental_div_mod(b, g);
    lemma_fundamental_div_mod(r, g);
    let x = b / g;
    let y = r / g;
    assert(q * b + r == (q * x + y) * g) by (nonlinear_arith)
        requires
            b == g * x,
            r == g * y,
    ;
    lemma_mod_multiples_basic(q * x + y, g);
}

/// A greatest common divisor with a positive second argument is positive and
/// divides both arguments.
pub proof fn lemma_gcd_divides(a: nat, b: nat)
    requires
        b > 0,
    ensures
        gcd(a, b) > 0,
        divides(gcd(a, b) as int, a as int),
        divides(gcd(a, b) as int, b as int),
    decreases b,
{
    let r = a % b;
    if r == 0 {
        assert(gcd(r, 0) == r);
        assert(gcd(b, r) == b);
        lemma_mod_multiples_basic(1, b as int);
    } else {
        lemma_gcd_divides(b, r);
        let g = gcd(a, b) as int;
        lemma_fundamental_div_mod(a as int, b as int);
        lemma_divides_sum(g, (a / b) as int, b as int, r as int);
        assert(a as int == (a / b) as int * b + r) by (nonlinear_arith)
            requires
                a as int == b * (a as int / b as int) + r,
        ;
    }
}

/// Scaling both arguments scales the greatest common divisor.
pub proof fn lemma_gcd_scale(k: nat, a: nat, b: nat)
    requires
        k > 0,
    ensures
        gcd(k * a, k * b) == k * gcd(a, b),
    decreases b,
{
    if b == 0 {
        assert(k * b == 0) by (nonlinear_arith)
            requires
                b == 0,
        ;
    } else {
        assert(k * b > 0) by (nonlinear_arith)
            requires
                k > 0,
                b > 0,
        ;
        lemma_truncate_middle(a as int, k as int, b as int);
        assert((k * a) % (k * b) == k * (a % b));
        lemma_gcd_scale(k, b, a % b);
    }
}

/// Dividing both arguments by their greatest common divisor leaves
/// arguments whose greatest common divisor is one.
pub proof fn lemma_gcd_reduced(a: nat, b: nat)
    requires
        b > 0,
    ensures
        gcd(a / gcd(a, b), b / gcd(a, b)) == 1,
{
    lemma_gcd_divides(a, b);
    let g = gcd(a, b);
    let a1 = a / g;
    let b1 = b / g;
    lemma_fundamental_div_mod(a as int, g as int);
    lemma_fundamental_div_mod(b as int, g as int);
    assert(g * a1 == a && g * b1 == b);
    lemma_gcd_scale(g, a1, b1);
    assert(g * gcd(a1, b1) == g * 1);
    assert(gcd(a1, b1) == 1) by (nonlinear_arith)
        requires
            g * gcd(a1, b1) == g * 1,
            g > 0,
    ;
}

/// A greatest common divisor with a positive second argument is at most
/// that argument.
pub proof fn lemma_gcd_le(a: nat, b: nat)
    requires
        b > 0,
    ensures
        gcd(a, b) <= b,
{
    lemma_gcd_divides(a, b);
    let g = gcd(a, b) as int;
    lemma_fundamental_div_mod(b as int, g);
    assert(g <= b) by (nonlinear_arith)
        requires
            b as int == g * (b as int / g),
            g > 0,
            b > 0,
    ;
}

} // verus!
