//! Exact rational numbers in 64 bits.
//!
//! A [`Ratio`] is a fraction in lowest terms whose numerator and denominator
//! fit in an `i64`. Its view is the real number it denotes. Every operation
//! either returns the exact result or reports that the result is not such a
//! fraction; nothing is rounded.

use crate::gcd::{
    gcd, gcd_u128, lemma_gcd_divides, lemma_gcd_with_one, lemma_lowest_terms_least,
    lemma_lowest_terms_unique, lemma_no_remainder_is_multiple, lemma_quotients_coprime,
    magnitude,
};
use vstd::arithmetic::div_mod::lemma_fundamental_div_mod;
use vstd::prelude::*;

verus! {

/// The real number `n / d`.
pub open spec fn quot(n: int, d: int) -> real {
    n as real / d as real
}

/// The numerators and denominators that a [`Ratio`] can hold.
pub open spec fn in_range(n: int, d: int) -> bool {
    -i64::MAX <= n <= i64::MAX && 0 < d <= i64::MAX
}

/// Whether `q` is a fraction of two 64-bit integers, that is, whether some
/// [`Ratio`] denotes it.
pub open spec fn fits(q: real) -> bool {
    exists|n: int, d: int| in_range(n, d) && q == #[trigger] quot(n, d)
}

/// The integer nearest to `q` between `q` and zero.
pub open spec fn truncation(q: real) -> int {
    if q >= 0real {
        q.floor()
    } else {
        -((-q).floor())
    }
}

/// What is left of `q` when its truncation is taken away; it has the sign of `q`.
pub open spec fn fraction(q: real) -> real {
    q - truncation(q) as real
}

/// The product of two integers is the same among the reals.
pub proof fn lemma_int_product_as_real(a: int, b: int)
    ensures
        (a as real) * (b as real) == ((a * b) as real),
{
    assert((a as real) * (b as real) == ((a * b) as real)) by (nonlinear_arith);
}

/// Two fractions are equal exactly when their cross products are.
pub proof fn lemma_quot_eq(a: int, b: int, c: int, d: int)
    requires
        b > 0,
        d > 0,
    ensures
        (quot(a, b) == quot(c, d)) <==> (a * d == c * b),
{
    let ar = a as real;
    let br = b as real;
    let cr = c as real;
    let dr = d as real;
    assert((ar / br == cr / dr) <==> (ar * dr == cr * br)) by (nonlinear_arith)
        requires
            br > 0real,
            dr > 0real,
    ;
    lemma_int_product_as_real(a, d);
    lemma_int_product_as_real(c, b);
}

/// Fractions are ordered as their cross products are.
pub proof fn lemma_quot_lt(a: int, b: int, c: int, d: int)
    requires
        b > 0,
        d > 0,
    ensures
        (quot(a, b) < quot(c, d)) <==> (a * d < c * b),
        (quot(a, b) <= quot(c, d)) <==> (a * d <= c * b),
{
    let ar = a as real;
    let br = b as real;
    let cr = c as real;
    let dr = d as real;
    assert((ar / br < cr / dr) <==> (ar * dr < cr * br)) by (nonlinear_arith)
        requires
            br > 0real,
            dr > 0real,
    ;
    assert((ar / br <= cr / dr) <==> (ar * dr <= cr * br)) by (nonlinear_arith)
        requires
            br > 0real,
            dr > 0real,
    ;
    lemma_int_product_as_real(a, d);
    lemma_int_product_as_real(c, b);
}

/// A fraction has the sign of its numerator, and a fraction over one is its
/// numerator.
pub proof fn lemma_quot_sign(a: int, b: int)
    requires
        b > 0,
    ensures
        (quot(a, b) == 0real) <==> a == 0,
        (quot(a, b) < 0real) <==> a < 0,
        (quot(a, b) > 0real) <==> a > 0,
        quot(a, 1) == a as real,
{
    let ar = a as real;
    let br = b as real;
    assert(((ar / br == 0real) <==> ar == 0real) && ((ar / br < 0real) <==> ar < 0real) && ((ar
        / br > 0real) <==> ar > 0real)) by (nonlinear_arith)
        requires
            br > 0real,
    ;
    assert(ar / 1real == ar) by (nonlinear_arith);
}

/// The sum and the difference of two fractions, over the product of their
/// denominators.
pub proof fn lemma_quot_add(a: int, b: int, c: int, d: int)
    requires
        b > 0,
        d > 0,
    ensures
        b * d > 0,
        quot(a, b) + quot(c, d) == quot(a * d + c * b, b * d),
        quot(a, b) - quot(c, d) == quot(a * d - c * b, b * d),
{
    let ar = a as real;
    let br = b as real;
    let cr = c as real;
    let dr = d as real;
    assert(b * d > 0) by (nonlinear_arith)
        requires
            b > 0,
            d > 0,
    ;
    assert(ar / br + cr / dr == (ar * dr + cr * br) / (br * dr)) by (nonlinear_arith)
        requires
            br > 0real,
            dr > 0real,
    ;
    assert(ar / br - cr / dr == (ar * dr - cr * br) / (br * dr)) by (nonlinear_arith)
        requires
            br > 0real,
            dr > 0real,
    ;
    lemma_int_product_as_real(a, d);
    lemma_int_product_as_real(c, b);
    lemma_int_product_as_real(b, d);
}

/// The product of two fractions.
pub proof fn lemma_quot_mul(a: int, b: int, c: int, d: int)
    requires
        b > 0,
        d > 0,
    ensures
        b * d > 0,
        quot(a, b) * quot(c, d) == quot(a * c, b * d),
{
    let ar = a as real;
    let br = b as real;
    let cr = c as real;
    let dr = d as real;
    assert(b * d > 0) by (nonlinear_arith)
        requires
            b > 0,
            d > 0,
    ;
    assert((ar / br) * (cr / dr) == (ar * cr) / (br * dr)) by (nonlinear_arith)
        requires
            br > 0real,
            dr > 0real,
    ;
    lemma_int_product_as_real(a, c);
    lemma_int_product_as_real(b, d);
}

/// The quotient of two fractions, for a divisor of either sign.
pub proof fn lemma_quot_div(a: int, b: int, c: int, d: int)
    requires
        b > 0,
        d > 0,
        c > 0,
    ensures
        b * c > 0,
        quot(a, b) / quot(c, d) == quot(a * d, b * c),
        quot(a, b) / quot(-c, d) == quot(-(a * d), b * c),
{
    let ar = a as real;
    let br = b as real;
    let cr = c as real;
    let dr = d as real;
    let mr = (-c) as real;
    assert(b * c > 0) by (nonlinear_arith)
        requires
            b > 0,
            c > 0,
    ;
    assert((ar / br) / (cr / dr) == (ar * dr) / (br * cr)) by (nonlinear_arith)
        requires
            br > 0real,
            dr > 0real,
            cr > 0real,
    ;
    assert((ar / br) / (mr / dr) == (-(ar * dr)) / (br * cr)) by (nonlinear_arith)
        requires
            br > 0real,
            dr > 0real,
            cr > 0real,
            mr == -cr,
    ;
    lemma_int_product_as_real(a, d);
    lemma_int_product_as_real(b, c);
}

/// The whole part and the rest of a fraction that is not negative.
pub proof fn lemma_fraction_of_quotient(m: int, d: int, k: int, rest: int)
    requires
        d > 0,
        m >= 0,
        0 <= rest < d,
        m == d * k + rest,
    ensures
        truncation(quot(m, d)) == k,
        fraction(quot(m, d)) == quot(rest, d),
        truncation(-quot(m, d)) == -k,
        fraction(-quot(m, d)) == -quot(rest, d),
{
    let mr = m as real;
    let dr = d as real;
    let kr = k as real;
    let rr = rest as real;
    lemma_int_product_as_real(d, k);
    assert(mr == dr * kr + rr);
    assert(mr / dr == kr + rr / dr && 0real <= rr / dr < 1real) by (nonlinear_arith)
        requires
            mr == dr * kr + rr,
            dr > 0real,
            0real <= rr < dr,
    ;
    let q = quot(m, d);
    assert(kr <= q < kr + 1real);
    assert(k >= 0) by (nonlinear_arith)
        requires
            m == d * k + rest,
            m >= 0,
            d > 0,
            rest < d,
    ;
    assert(q >= 0real);
    assert(q.floor() == k);
    if q == 0real {
        assert(-q == 0real);
    }
}

/// A fraction in lowest terms fits exactly when its own parts are in range.
pub proof fn lemma_fits_lowest_terms(n0: int, d0: int)
    requires
        d0 > 0,
        gcd(d0 as nat, magnitude(n0)) == 1,
    ensures
        fits(quot(n0, d0)) <==> in_range(n0, d0),
{
    if fits(quot(n0, d0)) {
        let (n, d) = choose|n: int, d: int| in_range(n, d) && quot(n0, d0) == #[trigger] quot(n, d);
        lemma_quot_eq(n, d, n0, d0);
        lemma_lowest_terms_least(n0, d0, n, d);
    }
    if in_range(n0, d0) {
        assert(quot(n0, d0) == quot(n0, d0));
    }
}

/// A rational number: a fraction in lowest terms with a positive denominator.
#[derive(Clone, Copy, Debug, PartialEq, Eq, Structural)]
pub struct Ratio {
    num: i64,
    den: i64,
}

impl View for Ratio {
    type V = real;

    closed spec fn view(&self) -> real {
        quot(self.num as int, self.den as int)
    }
}

impl Ratio {
    /// The validity of the representation: parts in range and in lowest terms.
    #[verifier::type_invariant]
    pub closed spec fn well_formed(self) -> bool {
        &&& in_range(self.num as int, self.den as int)
        &&& gcd(self.den as nat, magnitude(self.num as int)) == 1
    }

    /// The numerator of the fraction in lowest terms.
    pub closed spec fn spec_numerator(self) -> int {
        self.num as int
    }

    /// The denominator of the fraction in lowest terms.
    pub closed spec fn spec_denominator(self) -> int {
        self.den as int
    }

    /// What a well-formed value denotes, and that it fits.
    pub proof fn lemma_well_formed(self)
        requires
            self.well_formed(),
        ensures
            fits(self@),
            in_range(self.spec_numerator(), self.spec_denominator()),
            self@ == quot(self.spec_numerator(), self.spec_denominator()),
    {
    }

    /// Equal values have equal representations.
    pub proof fn lemma_same_value_same_ratio(self, other: Ratio)
        requires
            self.well_formed(),
            other.well_formed(),
            self@ == other@,
        ensures
            self == other,
    {
        lemma_quot_eq(self.num as int, self.den as int, other.num as int, other.den as int);
        lemma_lowest_terms_unique(
            self.num as int,
            self.den as int,
            other.num as int,
            other.den as int,
        );
    }

    /// Reduces `n / d` to lowest terms, if the result fits.
    fn from_parts(n: i128, d: i128) -> (r: Option<Ratio>)
        requires
            d > 0,
            n > i128::MIN,
        ensures
            r is Some <==> fits(quot(n as int, d as int)),
            r matches Some(x) ==> x@ == quot(n as int, d as int),
    {
        let negative = n < 0;
        let m: u128 = if negative {
            (-n) as u128
        } else {
            n as u128
        };
        let du: u128 = d as u128;
        let g: u128 = gcd_u128(du, m);
        proof {
            lemma_gcd_divides(du as nat, m as nat);
            lemma_quotients_coprime(du as nat, m as nat);
        }
        let m0: u128 = m / g;
        let d0: u128 = du / g;
        proof {
            lemma_no_remainder_is_multiple(m as int, g as int);
            lemma_no_remainder_is_multiple(du as int, g as int);
            let n0: int = if negative {
                -(m0 as int)
            } else {
                m0 as int
            };
            assert(d0 > 0 && n0 * d == n * d0) by (nonlinear_arith)
                requires
                    m as int == m0 * g,
                    du as int == d0 * g,
                    du as int == d as int,
                    d > 0,
                    g > 0,
                    n0 == if negative { -(m0 as int) } else { m0 as int },
                    n as int == if negative { -(m as int) } else { m as int },
            ;
            assert(magnitude(n0) == m0 as nat);
            lemma_quot_eq(n0, d0 as int, n as int, d as int);
            lemma_fits_lowest_terms(n0, d0 as int);
        }
        if m0 > i64::MAX as u128 || d0 > i64::MAX as u128 {
            None
        } else {
            let num: i64 = if negative {
                -(m0 as i64)
            } else {
                m0 as i64
            };
            Some(Ratio { num, den: d0 as i64 })
        }
    }

    /// The fraction `num / den`, if `den` is not zero and the fraction fits.
    pub fn new(num: i64, den: i64) -> (r: Option<Ratio>)
        ensures
            r is Some <==> den != 0 && fits(quot(num as int, den as int)),
            r matches Some(x) ==> x@ == quot(num as int, den as int),
    {
        if den == 0 {
            None
        } else if den > 0 {
            Ratio::from_parts(num as i128, den as i128)
        } else {
            proof {
                let nr = num as real;
                let dr = den as real;
                assert((-nr) / (-dr) == nr / dr) by (nonlinear_arith)
                    requires
                        dr < 0real,
                ;
            }
            Ratio::from_parts(-(num as i128), -(den as i128))
        }
    }

    /// The integer `n` as a fraction.
    pub fn from_int(n: i32) -> (r: Ratio)
        ensures
            r@ == n as real,
    {
        proof {
            lemma_quot_sign(n as int, 1);
            lemma_gcd_with_one(magnitude(n as int));
        }
        Ratio { num: n as i64, den: 1 }
    }

    /// The natural number `n` as a fraction.
    pub fn from_u32(n: u32) -> (r: Ratio)
        ensures
            r@ == n as real,
    {
        proof {
            lemma_quot_sign(n as int, 1);
            lemma_gcd_with_one(magnitude(n as int));
        }
        Ratio { num: n as i64, den: 1 }
    }

    /// Zero.
    pub fn zero() -> (r: Ratio)
        ensures
            r@ == 0real,
    {
        Ratio::from_int(0)
    }

    /// The numerator and the denominator of the fraction in lowest terms.
    pub fn parts(&self) -> (r: (i64, i64))
        ensures
            r.0 == self.spec_numerator(),
            r.1 == self.spec_denominator(),
            in_range(r.0 as int, r.1 as int),
            gcd(r.1 as nat, magnitude(r.0 as int)) == 1,
            self@ == quot(r.0 as int, r.1 as int),
    {
        proof {
            use_type_invariant(self);
        }
        (self.num, self.den)
    }

    /// The sum, if it fits.
    pub fn checked_add(&self, other: &Ratio) -> (r: Option<Ratio>)
        ensures
            r is Some <==> fits(self@ + other@),
            r matches Some(x) ==> x@ == self@ + other@,
    {
        proof {
            use_type_invariant(self);
            use_type_invariant(other);
            lemma_quot_add(self.num as int, self.den as int, other.num as int, other.den as int);
        }
        let a: i128 = self.num as i128;
        let b: i128 = self.den as i128;
        let c: i128 = other.num as i128;
        let d: i128 = other.den as i128;
        assert(-0x4000_0000_0000_0000_0000_0000_0000_0000 < a * d
            < 0x4000_0000_0000_0000_0000_0000_0000_0000 && 
            -0x4000_0000_0000_0000_0000_0000_0000_0000 < c * b
            < 0x4000_0000_0000_0000_0000_0000_0000_0000 && 0 < b * d
            < 0x4000_0000_0000_0000_0000_0000_0000_0000) by (nonlinear_arith)
            requires
                -0x8000_0000_0000_0000 < a < 0x8000_0000_0000_0000,
                -0x8000_0000_0000_0000 < c < 0x8000_0000_0000_0000,
                0 < b < 0x8000_0000_0000_0000,
                0 < d < 0x8000_0000_0000_0000,
        ;
        Ratio::from_parts(a * d + c * b, b * d)
    }

    /// The difference, if it fits.
    pub fn checked_sub(&self, other: &Ratio) -> (r: Option<Ratio>)
        ensures
            r is Some <==> fits(self@ - other@),
            r matches Some(x) ==> x@ == self@ - other@,
    {
        proof {
            use_type_invariant(self);
            use_type_invariant(other);
            lemma_quot_add(self.num as int, self.den as int, other.num as int, other.den as int);
        }
        let a: i128 = self.num as i128;
        let b: i128 = self.den as i128;
        let c: i128 = other.num as i128;
        let d: i128 = other.den as i128;
        assert(-0x4000_0000_0000_0000_0000_0000_0000_0000 < a * d
            < 0x4000_0000_0000_0000_0000_0000_0000_0000 && 
            -0x4000_0000_0000_0000_0000_0000_0000_0000 < c * b
            < 0x4000_0000_0000_0000_0000_0000_0000_0000 && 0 < b * d
            < 0x4000_0000_0000_0000_0000_0000_0000_0000) by (nonlinear_arith)
            requires
                -0x8000_0000_0000_0000 < a < 0x8000_0000_0000_0000,
                -0x8000_0000_0000_0000 < c < 0x8000_0000_0000_0000,
                0 < b < 0x8000_0000_0000_0000,
                0 < d < 0x8000_0000_0000_0000,
        ;
        Ratio::from_parts(a * d - c * b, b * d)
    }

    /// The product, if it fits.
    pub fn checked_mul(&self, other: &Ratio) -> (r: Option<Ratio>)
        ensures
            r is Some <==> fits(self@ * other@),
            r matches Some(x) ==> x@ == self@ * other@,
    {
        proof {
            use_type_invariant(self);
            use_type_invariant(other);
            lemma_quot_mul(self.num as int, self.den as int, other.num as int, other.den as int);
        }
        let a: i128 = self.num as i128;
        let b: i128 = self.den as i128;
        let c: i128 = other.num as i128;
        let d: i128 = other.den as i128;
        assert(-0x4000_0000_0000_0000_0000_0000_0000_0000 < a * c
            < 0x4000_0000_0000_0000_0000_0000_0000_0000 && 0 < b * d
            < 0x4000_0000_0000_0000_0000_0000_0000_0000) by (nonlinear_arith)
            requires
                -0x8000_0000_0000_0000 < a < 0x8000_0000_0000_0000,
                -0x8000_0000_0000_0000 < c < 0x8000_0000_0000_0000,
                0 < b < 0x8000_0000_0000_0000,
                0 < d < 0x8000_0000_0000_0000,
        ;
        Ratio::from_parts(a * c, b * d)
    }

    /// The quotient, if the divisor is not zero and the quotient fits.
    pub fn checked_div(&self, other: &Ratio) -> (r: Option<Ratio>)
        ensures
            r is Some <==> other@ != 0real && fits(self@ / other@),
            r matches Some(x) ==> x@ == self@ / other@,
    {
        proof {
            use_type_invariant(self);
            use_type_invariant(other);
            lemma_quot_sign(other.num as int, other.den as int);
        }
        let a: i128 = self.num as i128;
        let b: i128 = self.den as i128;
        let c: i128 = other.num as i128;
        let d: i128 = other.den as i128;
        if other.num == 0 {
            None
        } else if other.num > 0 {
            assert(-0x4000_0000_0000_0000_0000_0000_0000_0000 < a * d
                < 0x4000_0000_0000_0000_0000_0000_0000_0000 && 0 < b * c
                < 0x4000_0000_0000_0000_0000_0000_0000_0000) by (nonlinear_arith)
                requires
                    -0x8000_0000_0000_0000 < a < 0x8000_0000_0000_0000,
                    0 < c < 0x8000_0000_0000_0000,
                    0 < b < 0x8000_0000_0000_0000,
                    0 < d < 0x8000_0000_0000_0000,
            ;
            proof {
                lemma_quot_div(a as int, b as int, c as int, d as int);
            }
            Ratio::from_parts(a * d, b * c)
        } else {
            let e: i128 = -c;
            assert(-0x4000_0000_0000_0000_0000_0000_0000_0000 < a * d
                < 0x4000_0000_0000_0000_0000_0000_0000_0000 && 0 < b * e
                < 0x4000_0000_0000_0000_0000_0000_0000_0000) by (nonlinear_arith)
                requires
                    -0x8000_0000_0000_0000 < a < 0x8000_0000_0000_0000,
                    0 < e < 0x8000_0000_0000_0000,
                    0 < b < 0x8000_0000_0000_0000,
                    0 < d < 0x8000_0000_0000_0000,
            ;
            proof {
                lemma_quot_div(a as int, b as int, e as int, d as int);
            }
            Ratio::from_parts(-(a * d), b * e)
        }
    }

    /// Whether `self` is less than `other`.
    pub fn lt(&self, other: &Ratio) -> (r: bool)
        ensures
            r == (self@ < other@),
    {
        proof {
            use_type_invariant(self);
            use_type_invariant(other);
            lemma_quot_lt(self.num as int, self.den as int, other.num as int, other.den as int);
        }
        let a: i128 = self.num as i128;
        let b: i128 = self.den as i128;
        let c: i128 = other.num as i128;
        let d: i128 = other.den as i128;
        assert(-0x4000_0000_0000_0000_0000_0000_0000_0000 < a * d
            < 0x4000_0000_0000_0000_0000_0000_0000_0000 && 
            -0x4000_0000_0000_0000_0000_0000_0000_0000 < c * b
            < 0x4000_0000_0000_0000_0000_0000_0000_0000) by (nonlinear_arith)
            requires
                -0x8000_0000_0000_0000 < a < 0x8000_0000_0000_0000,
                -0x8000_0000_0000_0000 < c < 0x8000_0000_0000_0000,
                0 < b < 0x8000_0000_0000_0000,
                0 < d < 0x8000_0000_0000_0000,
        ;
        a * d < c * b
    }

    /// Whether `self` is at most `other`.
    pub fn le(&self, other: &Ratio) -> (r: bool)
        ensures
            r == (self@ <= other@),
    {
        !other.lt(self)
    }

    /// Whether `self` and `other` are the same number.
    pub fn equals(&self, other: &Ratio) -> (r: bool)
        ensures
            r == (self@ == other@),
    {
        proof {
            use_type_invariant(self);
            use_type_invariant(other);
            lemma_quot_eq(self.num as int, self.den as int, other.num as int, other.den as int);
        }
        let a: i128 = self.num as i128;
        let b: i128 = self.den as i128;
        let c: i128 = other.num as i128;
        let d: i128 = other.den as i128;
        assert(-0x4000_0000_0000_0000_0000_0000_0000_0000 < a * d
            < 0x4000_0000_0000_0000_0000_0000_0000_0000 && 
            -0x4000_0000_0000_0000_0000_0000_0000_0000 < c * b
            < 0x4000_0000_0000_0000_0000_0000_0000_0000) by (nonlinear_arith)
            requires
                -0x8000_0000_0000_0000 < a < 0x8000_0000_0000_0000,
                -0x8000_0000_0000_0000 < c < 0x8000_0000_0000_0000,
                0 < b < 0x8000_0000_0000_0000,
                0 < d < 0x8000_0000_0000_0000,
        ;
        a * d == c * b
    }

    /// The fraction `num / den` of two small numbers.
    pub fn from_small(num: i32, den: u32) -> (r: Ratio)
        requires
            den > 0,
        ensures
            r@ == quot(num as int, den as int),
    {
        proof {
            assert(in_range(num as int, den as int));
            assert(quot(num as int, den as int) == quot(num as int, den as int));
            assert(fits(quot(num as int, den as int)));
        }
        match Ratio::from_parts(num as i128, den as i128) {
            Some(r) => r,
            None => Ratio::zero(),
        }
    }

    /// What is left of `self` when the whole number towards zero is taken away.
    pub fn fract(&self) -> (r: Ratio)
        ensures
            r@ == fraction(self@),
    {
        proof {
            use_type_invariant(self);
        }
        let negative = self.num < 0;
        let m: i128 = if negative {
            -(self.num as i128)
        } else {
            self.num as i128
        };
        let d: i128 = self.den as i128;
        let rest: i128 = m % d;
        let signed: i128 = if negative {
            -rest
        } else {
            rest
        };
        proof {
            let k = m / d;
            lemma_fundamental_div_mod(m as int, d as int);
            lemma_fraction_of_quotient(m as int, d as int, k as int, rest as int);
            if negative {
                let q = quot(m as int, d as int);
                assert(self@ == -q) by {
                    let mr = m as real;
                    let dr = d as real;
                    assert((-mr) / dr == -(mr / dr)) by (nonlinear_arith)
                        requires
                            dr > 0real,
                    ;
                }
                let rr = rest as real;
                let dr = d as real;
                assert((-rr) / dr == -(rr / dr)) by (nonlinear_arith)
                    requires
                        dr > 0real,
                ;
                lemma_quot_sign(m as int, d as int);
                lemma_quot_sign(rest as int, d as int);
            } else {
                lemma_quot_sign(m as int, d as int);
            }
            assert(in_range(signed as int, d as int));
            assert(quot(signed as int, d as int) == quot(signed as int, d as int));
            assert(fits(quot(signed as int, d as int)));
        }
        match Ratio::from_parts(signed, d) {
            Some(r) => r,
            None => Ratio::zero(),
        }
    }

    /// Whether `self` is zero.
    pub fn is_zero(&self) -> (r: bool)
        ensures
            r == (self@ == 0real),
    {
        proof {
            use_type_invariant(self);
            lemma_quot_sign(self.num as int, self.den as int);
        }
        self.num == 0
    }

    /// Whether `self` is greater than zero.
    pub fn is_positive(&self) -> (r: bool)
        ensures
            r == (self@ > 0real),
    {
        proof {
            use_type_invariant(self);
            lemma_quot_sign(self.num as int, self.den as int);
        }
        self.num > 0
    }
}

/// The value of the element of `values` at index `i`.
pub open spec fn value_at(values: Seq<Ratio>, i: usize) -> real {
    values[i as int]@
}

} // verus!
