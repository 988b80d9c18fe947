//! Greatest common divisors, and the facts about fractions in lowest terms
//! that exact rational arithmetic rests on.

use vstd::arithmetic::div_mod::{
    lemma_fundamental_div_mod, lemma_mod_multiples_basic, lemma_small_mod,
};
use vstd::prelude::*;

verus! {

/// The greatest common divisor of `a` and `b`, by Euclid's recursion.
/// `gcd(0, 0)` is `0`.
pub open spec fn gcd(a: nat, b: nat) -> nat
    decreases b,
{
    if b == 0 {
        a
    } else {
        gcd(b, a % b)
    }
}

/// The absolute value of an integer.
pub open spec fn magnitude(n: int) -> nat {
    if n < 0 {
        (-n) as nat
    } else {
        n as nat
    }
}

/// A multiple of `g` leaves no remainder.
pub proof fn lemma_multiple_has_no_remainder(k: int, g: int)
    requires
        g > 0,
    ensures
        (k * g) % g == 0,
{
    lemma_mod_multiples_basic(k, g);
}

/// What leaves no remainder is a multiple: `x == (x / g) * g`.
pub proof fn lemma_no_remainder_is_multiple(x: int, g: int)
    requires
        g > 0,
        x % g == 0,
    ensures
        x == (x / g) * g,
{
    lemma_fundamental_div_mod(x, g);
    assert(g * (x / g) == (x / g) * g) by (nonlinear_arith);
}

/// A divisor of `x` and `y` divides `x * k + y`.
pub proof fn lemma_divides_combination(g: int, x: int, k: int, y: int)
    requires
        g > 0,
        x % g == 0,
        y % g == 0,
    ensures
        (x * k + y) % g == 0,
{
    lemma_no_remainder_is_multiple(x, g);
    lemma_no_remainder_is_multiple(y, g);
    let xq = x / g;
    let yq = y / g;
    assert(x * k + y == (xq * k + yq) * g) by (nonlinear_arith)
        requires
            x == xq * g,
            y == yq * g,
    ;
    lemma_multiple_has_no_remainder(xq * k + yq, g);
}

/// The gcd is positive unless both arguments are zero.
pub proof fn lemma_gcd_positive(a: nat, b: nat)
    requires
        a > 0 || b > 0,
    ensures
        gcd(a, b) > 0,
    decreases b,
{
    if b != 0 {
        lemma_gcd_positive(b, a % b);
    }
}

/// One is coprime to everything.
pub proof fn lemma_gcd_with_one(m: nat)
    ensures
        gcd(1, m) == 1,
{
    if m == 0 {
    } else if m == 1 {
        assert(1nat % 1nat == 0);
        assert(gcd(1, 1) == gcd(1, 0));
    } else {
        lemma_small_mod(1, m);
        assert(m % 1 == 0);
        assert(gcd(1, m) == gcd(m, 1));
        assert(gcd(m, 1) == gcd(1, 0));
    }
}

/// The gcd divides both of its arguments.
pub proof fn lemma_gcd_divides(a: nat, b: nat)
    requires
        a > 0 || b > 0,
    ensures
        gcd(a, b) > 0,
        a % gcd(a, b) == 0,
        b % gcd(a, b) == 0,
    decreases b,
{
    lemma_gcd_positive(a, b);
    let g = gcd(a, b) as int;
    if b == 0 {
        lemma_multiple_has_no_remainder(1, g);
        lemma_multiple_has_no_remainder(0, g);
    } else {
        lemma_gcd_divides(b, a % b);
        lemma_fundamental_div_mod(a as int, b as int);
        let r = (a % b) as int;
        let k = (a as int) / (b as int);
        lemma_divides_combination(g, b as int, k, r);
        assert((b as int) * k + r == a as int) by (nonlinear_arith)
            requires
                a as int == (b as int) * k + r,
        ;
    }
}

/// Bezout's identity: the gcd is an integer combination of its arguments.
pub proof fn lemma_bezout(a: nat, b: nat) -> (c: (int, int))
    ensures
        a * c.0 + b * c.1 == gcd(a, b),
    decreases b,
{
    if b == 0 {
        assert(a * 1 + b * 0 == a) by (nonlinear_arith)
            requires
                b == 0,
        ;
        (1, 0)
    } else {
        let r = a % b;
        let k = (a as int) / (b as int);
        let (x, y) = lemma_bezout(b, r);
        lemma_fundamental_div_mod(a as int, b as int);
        let g = gcd(a, b) as int;
        assert(a * y + b * (x - k * y) == g) by (nonlinear_arith)
            requires
                b * x + r * y == g,
                a as int == (b as int) * k + (r as int),
        ;
        (y, x - k * y)
    }
}

/// Euclid's lemma: what is coprime to `b` and divides `b * c` divides `c`.
pub proof fn lemma_coprime_divides_product(a: nat, b: nat, c: int)
    requires
        a > 0,
        gcd(a, b) == 1,
        (b * c) % (a as int) == 0,
    ensures
        c % (a as int) == 0,
{
    let (x, y) = lemma_bezout(a, b);
    let ai = a as int;
    let bc = b * c;
    lemma_no_remainder_is_multiple(bc, ai);
    let m = bc / ai;
    assert(c == (x * c + m * y) * ai) by (nonlinear_arith)
        requires
            ai * x + b * y == 1,
            bc == b * c,
            bc == m * ai,
    ;
    lemma_multiple_has_no_remainder(x * c + m * y, ai);
}

/// Dividing both arguments by their gcd leaves them coprime.
pub proof fn lemma_quotients_coprime(a: nat, b: nat)
    requires
        a > 0 || b > 0,
    ensures
        gcd(a, b) > 0,
        gcd(a / gcd(a, b), b / gcd(a, b)) == 1,
{
    lemma_gcd_divides(a, b);
    let g = gcd(a, b) as int;
    let (x, y) = lemma_bezout(a, b);
    lemma_no_remainder_is_multiple(a as int, g);
    lemma_no_remainder_is_multiple(b as int, g);
    let a1 = (a as int) / g;
    let b1 = (b as int) / g;
    assert(a1 >= 0 && b1 >= 0 && (a1 > 0 || b1 > 0)) by (nonlinear_arith)
        requires
            a as int == a1 * g,
            b as int == b1 * g,
            a > 0 || b > 0,
            g > 0,
    ;
    assert(a1 * x + b1 * y == 1) by (nonlinear_arith)
        requires
            a * x + b * y == g,
            a as int == a1 * g,
            b as int == b1 * g,
            g > 0,
    ;
    lemma_gcd_divides(a1 as nat, b1 as nat);
    let h = gcd(a1 as nat, b1 as nat) as int;
    lemma_no_remainder_is_multiple(a1, h);
    lemma_no_remainder_is_multiple(b1, h);
    let a2 = a1 / h;
    let b2 = b1 / h;
    assert((a2 * x + b2 * y) * h == 1) by (nonlinear_arith)
        requires
            a1 * x + b1 * y == 1,
            a1 == a2 * h,
            b1 == b2 * h,
    ;
    assert(h == 1) by (nonlinear_arith)
        requires
            (a2 * x + b2 * y) * h == 1,
            h > 0,
    ;
}

/// A fraction in lowest terms has the smallest numerator and denominator of
/// all fractions of its value: any equal fraction `n / d` is `n0 / d0` with
/// both parts scaled by one positive factor.
pub proof fn lemma_lowest_terms_least(n0: int, d0: int, n: int, d: int)
    requires
        d0 > 0,
        d > 0,
        gcd(d0 as nat, magnitude(n0)) == 1,
        n * d0 == n0 * d,
    ensures
        d0 <= d,
        magnitude(n0) <= magnitude(n),
{
    let m0 = magnitude(n0) as int;
    let m = magnitude(n) as int;
    assert(m * d0 == m0 * d) by (nonlinear_arith)
        requires
            n * d0 == n0 * d,
            m0 == if n0 < 0 { -n0 } else { n0 },
            m == if n < 0 { -n } else { n },
            d0 > 0,
            d > 0,
    ;
    lemma_multiple_has_no_remainder(m, d0);
    lemma_coprime_divides_product(d0 as nat, m0 as nat, d);
    lemma_no_remainder_is_multiple(d, d0);
    let k = d / d0;
    assert(k >= 1 && m == m0 * k) by (nonlinear_arith)
        requires
            d == k * d0,
            d > 0,
            d0 > 0,
            m * d0 == m0 * d,
    ;
    assert(d0 <= d && m0 <= m) by (nonlinear_arith)
        requires
            k >= 1,
            d == k * d0,
            m == m0 * k,
            d0 > 0,
            m0 >= 0,
    ;
}

/// Two fractions in lowest terms with the same value are the same fraction.
pub proof fn lemma_lowest_terms_unique(n1: int, d1: int, n2: int, d2: int)
    requires
        d1 > 0,
        d2 > 0,
        gcd(d1 as nat, magnitude(n1)) == 1,
        gcd(d2 as nat, magnitude(n2)) == 1,
        n1 * d2 == n2 * d1,
    ensures
        n1 == n2,
        d1 == d2,
{
    lemma_lowest_terms_least(n1, d1, n2, d2);
    lemma_lowest_terms_least(n2, d2, n1, d1);
    assert(n1 == n2) by (nonlinear_arith)
        requires
            n1 * d2 == n2 * d1,
            d1 == d2,
            d1 > 0,
    ;
}

/// Computes the greatest common divisor.
pub fn gcd_u128(a: u128, b: u128) -> (g: u128)
    ensures
        g == gcd(a as nat, b as nat),
{
    let mut x: u128 = a;
    let mut y: u128 = b;
    while y != 0
        invariant
            gcd(x as nat, y as nat) == gcd(a as nat, b as nat),
        decreases y,
    {
        let r: u128 = x % y;
        x = y;
        y = r;
    }
    x
}

} // verus!
