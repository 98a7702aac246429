//! Exact non-negative fractions.

use vstd::prelude::*;

verus! {

/// The fraction `num / den`.
#[derive(Clone, Copy, Debug, PartialEq, Eq, Structural)]
pub struct Ratio {
    pub num: u32,
    pub den: u32,
}

/// `|a - b| < tol` as fractions.
pub open spec fn closer_than(a: Ratio, b: Ratio, tol: Ratio) -> bool {
    let diff = a.num * b.den - b.num * a.den;
    let mag = if diff < 0 {
        -diff
    } else {
        diff
    };
    mag * tol.den < tol.num * (a.den * b.den)
}

/// A product of two factors up to `bound`.
proof fn lemma_product_bound(a: int, b: int, bound: int)
    requires
        0 <= a <= bound,
        0 <= b <= bound,
    ensures
        0 <= a * b <= bound * bound,
{
    assert(0 <= a * b <= bound * bound) by (nonlinear_arith)
        requires
            0 <= a <= bound,
            0 <= b <= bound,
    ;
}

/// A fraction is close to itself.
pub proof fn lemma_close_to_itself(a: Ratio, tol: Ratio)
    requires
        a.valid(),
        tol.num > 0,
    ensures
        closer_than(a, a, tol),
{
    let scale = a.den * a.den;
    assert(scale > 0) by (nonlinear_arith)
        requires
            scale == a.den * a.den,
            a.den > 0,
    ;
    assert(0 * tol.den < tol.num * scale) by (nonlinear_arith)
        requires
            scale > 0,
            tol.num > 0,
    ;
}

/// Two fractions have the same value.
pub open spec fn same_value(a: Ratio, b: Ratio) -> bool {
    a.num * b.den == b.num * a.den
}

impl Ratio {
    /// Whether this fraction and `other` have the same value.
    pub fn is_same(self, other: Self) -> (same: bool)
        ensures
            same == same_value(self, other),
    {
        proof {
            lemma_product_bound(self.num as int, other.den as int, 0xFFFF_FFFF);
            lemma_product_bound(other.num as int, self.den as int, 0xFFFF_FFFF);
        }
        self.num as u64 * other.den as u64 == other.num as u64 * self.den as u64
    }

    /// The denominator is not zero.
    pub open spec fn valid(self) -> bool {
        self.den > 0
    }

    /// The fraction `num / den`.
    pub fn new(num: u32, den: u32) -> (r: Self)
        requires
            den > 0,
        ensures
            r.num == num,
            r.den == den,
    {
        Ratio { num, den }
    }

    /// Whether this fraction and `other` differ by less than `tol`.
    pub fn is_close(self, other: Self, tol: Self) -> (close: bool)
        ensures
            close == closer_than(self, other, tol),
    {
        proof {
            lemma_product_bound(self.num as int, other.den as int, 0xFFFF_FFFF);
            lemma_product_bound(other.num as int, self.den as int, 0xFFFF_FFFF);
            lemma_product_bound(self.den as int, other.den as int, 0xFFFF_FFFF);
        }
        let x: u128 = self.num as u128 * other.den as u128;
        let y: u128 = other.num as u128 * self.den as u128;
        let scale: u128 = self.den as u128 * other.den as u128;
        let mag: u128 = if x < y { y - x } else { x - y };
        proof {
            lemma_product_bound(mag as int, tol.den as int, 0xFFFF_FFFE_0000_0001);
            lemma_product_bound(tol.num as int, scale as int, 0xFFFF_FFFE_0000_0001);
        }
        mag * (tol.den as u128) < tol.num as u128 * scale
    }
}

/// Fractions with one denominator are closer than a third one exactly where their numerators
/// are.
pub proof fn law_closeness_compares_numerators(x: u32, y: u32, t: u32, d: u32)
    requires
        d > 0,
    ensures
        closer_than(
            Ratio { num: x, den: d },
            Ratio { num: y, den: d },
            Ratio { num: t, den: d },
        ) <==> -(t as int) < x - y < t,
{
    let diff = x * d - y * d;
    let gap = if x < y {
        y - x
    } else {
        x - y
    };
    let dd = d * d;
    assert(diff == (x - y) * d) by (nonlinear_arith)
        requires
            diff == x * d - y * d,
    ;
    assert((if diff < 0 {
        -diff
    } else {
        diff
    }) == gap * d) by (nonlinear_arith)
        requires
            diff == (x - y) * d,
            d > 0,
            gap == if x < y {
                y - x
            } else {
                x - y
            },
    ;
    assert((gap * d) * d < t * dd <==> gap < t) by (nonlinear_arith)
        requires
            dd == d * d,
            d > 0,
    ;
}

/// Two fractions have the same value exactly where both are fractions of one unit with the
/// same numerator; enlarging a fraction does not change its value.
pub proof fn law_enlarging_keeps_the_value(a: Ratio, b: Ratio, k: int, m: int)
    requires
        a.den > 0,
        b.den > 0,
        k > 0,
        m > 0,
        k * a.den == m * b.den,
    ensures
        same_value(a, b) <==> k * a.num == m * b.num,
{
    let (an, ad, bn, bd) = (a.num as int, a.den as int, b.num as int, b.den as int);
    assert(an * bd == bn * ad <==> k * an == m * bn) by (nonlinear_arith)
        requires
            k * ad == m * bd,
            k > 0,
            m > 0,
            ad > 0,
            bd > 0,
    ;
}

} // verus!
