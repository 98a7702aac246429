//! Rings of points in fixed point.

use vstd::arithmetic::power2;
use vstd::prelude::*;

use crate::symbol::{self, Symbol, ONE};

verus! {

/// Cosines of multiples of `pi / 4`, in units of `1 / ONE`.
pub const COS_4: [i64; 3] = [9007199254740992, 6369051672525773, 0];

/// Cosines of multiples of `pi / 8`.
pub const COS_8: [i64; 5] = [
    9007199254740992,
    8321567036706118,
    6369051672525773,
    3446905926800561,
    0,
];

/// Cosines of multiples of `pi / 12`.
pub const COS_12: [i64; 7] = [
    9007199254740992,
    8700286382685973,
    7800463371553962,
    6369051672525773,
    4503599627370496,
    2331234710160200,
    0,
];

/// Cosines of multiples of `pi / 20`.
pub const COS_20: [i64; 11] = [
    9007199254740992,
    8896305685324892,
    8566355544790271,
    8025473300638829,
    7286977268806824,
    6369051672525773,
    5294298886396510,
    4089182890913536,
    2783377641436328,
    1409036396926173,
    0,
];

/// Cosines of multiples of `pi / 28`.
pub const COS_28: [i64; 15] = [
    9007199254740992,
    8950563876377439,
    8781369964030313,
    8501745229315974,
    8115206115515505,
    7626613576260164,
    7042111946219083,
    6369051672525773,
    5615896878640593,
    4792118923087242,
    3908077291623905,
    2974889320699135,
    2004290390495585,
    1008486345715180,
    0,
];

/// Divisors of `pi` that have a table.
pub open spec fn known_divisor(den: int) -> bool {
    den == 4 || den == 8 || den == 12 || den == 20 || den == 28
}

/// Cosine of `k * pi / den` for an angle in the first quadrant.
pub open spec fn cosine_of(k: int, den: int) -> i64 {
    if den == 4 {
        COS_4@[k]
    } else if den == 8 {
        COS_8@[k]
    } else if den == 12 {
        COS_12@[k]
    } else if den == 20 {
        COS_20@[k]
    } else {
        COS_28@[k]
    }
}

/// Point of the unit circle at angle `num * pi / den`.
pub open spec fn direction_of(num: int, den: int) -> Symbol {
    let quarter = den / 2;
    let c = cosine_of(num % quarter, den);
    let s = cosine_of(quarter - num % quarter, den);
    let q = (num / quarter) % 4;
    if q == 0 {
        Symbol { re: c, im: s }
    } else if q == 1 {
        Symbol { re: (-s) as i64, im: c }
    } else if q == 2 {
        Symbol { re: (-c) as i64, im: (-s) as i64 }
    } else {
        Symbol { re: s, im: (-c) as i64 }
    }
}

/// Cosine of `k * pi / den`.
fn cosine(k: usize, den: usize) -> (c: i64)
    requires
        known_divisor(den as int),
        k <= den / 2,
    ensures
        c == cosine_of(k as int, den as int),
        0 <= c <= ONE,
{
    proof {
        lemma_cosines_are_bounded(k as int, den as int);
    }
    if den == 4 {
        COS_4[k]
    } else if den == 8 {
        COS_8[k]
    } else if den == 12 {
        COS_12[k]
    } else if den == 20 {
        COS_20[k]
    } else {
        COS_28[k]
    }
}

proof fn lemma_cosines_are_bounded(k: int, den: int)
    requires
        known_divisor(den),
        0 <= k <= den / 2,
    ensures
        0 <= cosine_of(k, den) <= ONE,
{
}

/// Point of the unit circle at angle `num * pi / den`.
pub fn direction(num: usize, den: usize) -> (s: Symbol)
    requires
        known_divisor(den as int),
    ensures
        s == direction_of(num as int, den as int),
        -ONE <= s.re <= ONE,
        -ONE <= s.im <= ONE,
{
    let quarter: usize = den / 2;
    let c: i64 = cosine(num % quarter, den);
    let s: i64 = cosine(quarter - num % quarter, den);
    match (num / quarter) % 4 {
        0 => Symbol { re: c, im: s },
        1 => Symbol { re: -s, im: c },
        2 => Symbol { re: -c, im: -s },
        _ => Symbol { re: s, im: -c },
    }
}

/// A point whose distance from the origin is 1, up to the rounding of its coordinates.
pub open spec fn near_unit(s: Symbol) -> bool {
    let norm = s.re * s.re + s.im * s.im;
    &&& -ONE <= s.re <= ONE
    &&& -ONE <= s.im <= ONE
    &&& ONE * ONE - 2 * ONE <= norm <= ONE * ONE + 2 * ONE
}

/// Steps by which the cosines of neighbouring angles differ at least.
pub open spec fn least_gap() -> int {
    0x100_0000_0000
}

/// Cosines fall from one angle to the next, down to zero.
proof fn lemma_cosines_fall(j: int, k: int, den: int)
    requires
        known_divisor(den),
        0 <= j < k <= den / 2,
    ensures
        cosine_of(j, den) >= cosine_of(k, den) + least_gap(),
        cosine_of(den / 2, den) == 0,
        0 <= cosine_of(k, den),
    decreases k - j,
{
    assert(forall|i: int|
        0 <= i < den / 2 ==> #[trigger] cosine_of(i, den) >= cosine_of(i + 1, den) + least_gap());
    assert(cosine_of(j, den) >= cosine_of(j + 1, den) + least_gap());
    if j + 1 < k {
        lemma_cosines_fall(j + 1, k, den);
    }
}

/// Two given coordinates lie on the unit circle.
proof fn lemma_near_unit(c: int, s: int, x: int, y: int)
    requires
        c == x,
        s == y,
        -ONE <= x <= ONE,
        -ONE <= y <= ONE,
        ONE * ONE - 2 * ONE <= x * x + y * y <= ONE * ONE + 2 * ONE,
    ensures
        ONE * ONE - 2 * ONE <= c * c + s * s <= ONE * ONE + 2 * ONE,
{
}

/// The squares of the cosines of an angle and of its complement add up to 1.
proof fn lemma_squares_add_up(k: int, den: int)
    requires
        known_divisor(den),
        0 <= k <= den / 2,
    ensures
        near_unit(Symbol { re: cosine_of(k, den), im: cosine_of(den / 2 - k, den) }),
{
    let c = cosine_of(k, den) as int;
    let s = cosine_of(den / 2 - k, den) as int;
    lemma_cosines_are_bounded(k, den);
    lemma_cosines_are_bounded(den / 2 - k, den);
    if den == 4 {
        if k == 0 {
            lemma_near_unit(c, s, 9007199254740992, 0);
        } else if k == 1 {
            lemma_near_unit(c, s, 6369051672525773, 6369051672525773);
        } else {
            lemma_near_unit(c, s, 0, 9007199254740992);
        }
    } else if den == 8 {
        if k == 0 {
            lemma_near_unit(c, s, 9007199254740992, 0);
        } else if k == 1 {
            lemma_near_unit(c, s, 8321567036706118, 3446905926800561);
        } else if k == 2 {
            lemma_near_unit(c, s, 6369051672525773, 6369051672525773);
        } else if k == 3 {
            lemma_near_unit(c, s, 3446905926800561, 8321567036706118);
        } else {
            lemma_near_unit(c, s, 0, 9007199254740992);
        }
    } else if den == 12 {
        if k == 0 {
            lemma_near_unit(c, s, 9007199254740992, 0);
        } else if k == 1 {
            lemma_near_unit(c, s, 8700286382685973, 2331234710160200);
        } else if k == 2 {
            lemma_near_unit(c, s, 7800463371553962, 4503599627370496);
        } else if k == 3 {
            lemma_near_unit(c, s, 6369051672525773, 6369051672525773);
        } else if k == 4 {
            lemma_near_unit(c, s, 4503599627370496, 7800463371553962);
        } else if k == 5 {
            lemma_near_unit(c, s, 2331234710160200, 8700286382685973);
        } else {
            lemma_near_unit(c, s, 0, 9007199254740992);
        }
    } else if den == 20 {
        if k == 0 {
            lemma_near_unit(c, s, 9007199254740992, 0);
        } else if k == 1 {
            lemma_near_unit(c, s, 8896305685324892, 1409036396926173);
        } else if k == 2 {
            lemma_near_unit(c, s, 8566355544790271, 2783377641436328);
        } else if k == 3 {
            lemma_near_unit(c, s, 8025473300638829, 4089182890913536);
        } else if k == 4 {
            lemma_near_unit(c, s, 7286977268806824, 5294298886396510);
        } else if k == 5 {
            lemma_near_unit(c, s, 6369051672525773, 6369051672525773);
        } else if k == 6 {
            lemma_near_unit(c, s, 5294298886396510, 7286977268806824);
        } else if k == 7 {
            lemma_near_unit(c, s, 4089182890913536, 8025473300638829);
        } else if k == 8 {
            lemma_near_unit(c, s, 2783377641436328, 8566355544790271);
        } else if k == 9 {
            lemma_near_unit(c, s, 1409036396926173, 8896305685324892);
        } else {
            lemma_near_unit(c, s, 0, 9007199254740992);
        }
    } else if den == 28 {
        if k == 0 {
            lemma_near_unit(c, s, 9007199254740992, 0);
        } else if k == 1 {
            lemma_near_unit(c, s, 8950563876377439, 1008486345715180);
        } else if k == 2 {
            lemma_near_unit(c, s, 8781369964030313, 2004290390495585);
        } else if k == 3 {
            lemma_near_unit(c, s, 8501745229315974, 2974889320699135);
        } else if k == 4 {
            lemma_near_unit(c, s, 8115206115515505, 3908077291623905);
        } else if k == 5 {
            lemma_near_unit(c, s, 7626613576260164, 4792118923087242);
        } else if k == 6 {
            lemma_near_unit(c, s, 7042111946219083, 5615896878640593);
        } else if k == 7 {
            lemma_near_unit(c, s, 6369051672525773, 6369051672525773);
        } else if k == 8 {
            lemma_near_unit(c, s, 5615896878640593, 7042111946219083);
        } else if k == 9 {
            lemma_near_unit(c, s, 4792118923087242, 7626613576260164);
        } else if k == 10 {
            lemma_near_unit(c, s, 3908077291623905, 8115206115515505);
        } else if k == 11 {
            lemma_near_unit(c, s, 2974889320699135, 8501745229315974);
        } else if k == 12 {
            lemma_near_unit(c, s, 2004290390495585, 8781369964030313);
        } else if k == 13 {
            lemma_near_unit(c, s, 1008486345715180, 8950563876377439);
        } else {
            lemma_near_unit(c, s, 0, 9007199254740992);
        }
    }
}

/// Every direction lies on the unit circle, up to rounding.
pub proof fn law_directions_lie_on_the_unit_circle(num: int, den: int)
    requires
        known_divisor(den),
        num >= 0,
    ensures
        near_unit(direction_of(num, den)),
{
    let quarter = den / 2;
    let c = cosine_of(num % quarter, den) as int;
    let s = cosine_of(quarter - num % quarter, den) as int;
    lemma_squares_add_up(num % quarter, den);
    assert((-c) * (-c) == c * c && (-s) * (-s) == s * s) by (nonlinear_arith);
}

/// Two points are further apart than rounding can hide.
pub open spec fn apart(a: Symbol, b: Symbol) -> bool {
    ||| a.re >= b.re + least_gap()
    ||| b.re >= a.re + least_gap()
    ||| a.im >= b.im + least_gap()
    ||| b.im >= a.im + least_gap()
}

/// Different angles within one turn have different directions.
pub proof fn law_directions_are_apart(a: int, b: int, den: int)
    requires
        known_divisor(den),
        0 <= a < 2 * den,
        0 <= b < 2 * den,
        a != b,
    ensures
        apart(direction_of(a, den), direction_of(b, den)),
{
    let quarter = den / 2;
    let (x, y) = (a % quarter, b % quarter);
    lemma_cosines_fall(x, quarter, den);
    lemma_cosines_fall(y, quarter, den);
    lemma_cosines_are_bounded(quarter - x, den);
    lemma_cosines_are_bounded(quarter - y, den);
    assert(0 <= a / quarter < 4 && a == quarter * (a / quarter) + x) by (nonlinear_arith)
        requires
            0 <= a < 4 * quarter,
            x == a % quarter,
    ;
    assert(0 <= b / quarter < 4 && b == quarter * (b / quarter) + y) by (nonlinear_arith)
        requires
            0 <= b < 4 * quarter,
            y == b % quarter,
    ;
    if a / quarter == b / quarter {
        if x < y {
            lemma_cosines_fall(x, y, den);
        } else {
            lemma_cosines_fall(y, x, den);
        }
    }
}

/// A direction given in steps of a quarter of `pi` is the same in finer steps.
pub proof fn lemma_finer_steps(num: int, den: int)
    requires
        known_divisor(den),
        0 <= num < 8,
    ensures
        direction_of(num, 4) == direction_of(num * (den / 4), den),
{
    assert(cosine_of(0, den) == cosine_of(0, 4) && cosine_of(den / 4, den) == cosine_of(1, 4)
        && cosine_of(den / 2, den) == cosine_of(2, 4));
    let f = den / 4;
    let (h, odd) = (num / 2, num % 2);
    assert(num * f == (2 * f) * h + odd * f) by (nonlinear_arith)
        requires
            num == 2 * h + odd,
    ;
    assert(0 <= odd * f < 2 * f) by (nonlinear_arith)
        requires
            0 <= odd < 2,
            f >= 1,
    ;
    vstd::arithmetic::div_mod::lemma_fundamental_div_mod_converse(num * f, 2 * f, h, odd * f);
    assert(den / 2 == 2 * f);
    assert(odd * f == if odd == 0 {
        0
    } else {
        f
    }) by (nonlinear_arith)
        requires
            odd == 0 || odd == 1,
    ;
}

/// The QPSK points are directions at odd multiples of a quarter of `pi`.
pub proof fn lemma_diagonals_are_directions(q: int)
    requires
        0 <= q < 4,
    ensures
        direction_of(2 * q + 1, 4) == symbol::diagonal_point(q),
{
    assert(cosine_of(1, 4) == symbol::DIAGONAL);
}

/// A coordinate times a radius, rounded towards zero.
pub open spec fn scaled_coordinate(c: int, r: int) -> int {
    if c >= 0 {
        r * c / ONE as int
    } else {
        -(r * (-c) / ONE as int)
    }
}

/// A point times a radius, rounded towards the origin.
pub open spec fn scaled(s: Symbol, r: int) -> Symbol {
    Symbol {
        re: scaled_coordinate(s.re as int, r) as i64,
        im: scaled_coordinate(s.im as int, r) as i64,
    }
}

fn scale_coordinate(c: i64, r: u64) -> (x: i64)
    requires
        -ONE <= c <= ONE,
        r <= 0x80_0000_0000_0000,
    ensures
        x == scaled_coordinate(c as int, r as int),
        -r <= x <= r,
{
    let m: u128 = if c < 0 { (-c) as u128 } else { c as u128 };
    assert(0 <= r * m <= r * ONE && r * ONE <= 0x80_0000_0000_0000 * 0x20_0000_0000_0000)
        by (nonlinear_arith)
        requires
            0 <= m <= ONE,
            0 <= r <= 0x80_0000_0000_0000,
            ONE == 0x20_0000_0000_0000,
    ;
    let p: u128 = r as u128 * m;
    let y: u128 = p / 9007199254740992u128;
    assert(y <= r);
    if c < 0 {
        -(y as i64)
    } else {
        y as i64
    }
}

/// A point times a radius, rounded towards the origin.
pub fn scale(s: Symbol, r: u64) -> (p: Symbol)
    requires
        -ONE <= s.re <= ONE,
        -ONE <= s.im <= ONE,
        r <= 0x80_0000_0000_0000,
    ensures
        p == scaled(s, r as int),
        p.in_reach(),
{
    Symbol { re: scale_coordinate(s.re, r), im: scale_coordinate(s.im, r) }
}

/// Both coordinates lie between -1 and 1.
pub open spec fn in_unit(s: Symbol) -> bool {
    &&& -ONE <= s.re <= ONE
    &&& -ONE <= s.im <= ONE
}

/// Points times a radius.
pub open spec fn all_scaled(points: Seq<Symbol>, r: int) -> Seq<Symbol> {
    Seq::new(points.len(), |i: int| scaled(points[i], r))
}

/// Points times a radius, rounded towards the origin.
pub fn scale_all(points: &Vec<Symbol>, r: u64) -> (out: Vec<Symbol>)
    requires
        forall|i: int| 0 <= i < points@.len() ==> in_unit(#[trigger] points@[i]),
        r <= 0x80_0000_0000_0000,
    ensures
        out@ == all_scaled(points@, r as int),
{
    let mut out: Vec<Symbol> = Vec::new();
    let mut i: usize = 0;
    while i < points.len()
        invariant
            i <= points@.len(),
            forall|j: int| 0 <= j < points@.len() ==> in_unit(#[trigger] points@[j]),
            r <= 0x80_0000_0000_0000,
            out@.len() == i,
            forall|j: int| 0 <= j < i ==> #[trigger] out@[j] == scaled(points@[j], r as int),
        decreases points@.len() - i,
    {
        assert(in_unit(points@[i as int]));
        out.push(scale(points[i], r));
        i = i + 1;
    }
    assert(out@ =~= all_scaled(points@, r as int));
    out
}

/// The radius 1 leaves points as they are.
pub proof fn law_unit_radius_changes_nothing(s: Symbol)
    ensures
        scaled(s, ONE as int) == s,
{
    lemma_unit_coordinate(s.re as int);
    lemma_unit_coordinate(s.im as int);
}

proof fn lemma_unit_coordinate(c: int)
    ensures
        scaled_coordinate(c, ONE as int) == c,
{
    let one = ONE as int;
    if c >= 0 {
        vstd::arithmetic::div_mod::lemma_div_multiples_vanish(c, one);
    } else {
        vstd::arithmetic::div_mod::lemma_div_multiples_vanish(-c, one);
    }
}

// ---------------------------------------------------------------------------
// Radii
// ---------------------------------------------------------------------------

/// `r / ONE` is the square root of `top / bottom`, rounded down.
pub open spec fn is_root(r: int, top: int, bottom: int) -> bool {
    &&& r >= 0
    &&& r * r * bottom <= top * (ONE * ONE)
    &&& top * (ONE * ONE) < (r + 1) * (r + 1) * bottom
}

/// The square root of `top / bottom` in units of `1 / ONE`, rounded down.
pub open spec fn root_of(top: int, bottom: int) -> int {
    choose|r: int| is_root(r, top, bottom)
}

/// There is one rounded root.
pub proof fn lemma_root_is_unique(a: int, b: int, top: int, bottom: int)
    requires
        bottom > 0,
        is_root(a, top, bottom),
        is_root(b, top, bottom),
    ensures
        a == b,
{
    lemma_root_order(a, b, top, bottom);
    lemma_root_order(b, a, top, bottom);
}

proof fn lemma_root_order(a: int, b: int, top: int, bottom: int)
    requires
        bottom > 0,
        is_root(a, top, bottom),
        is_root(b, top, bottom),
    ensures
        b <= a,
{
    if a < b {
        assert((a + 1) * (a + 1) * bottom <= b * b * bottom) by (nonlinear_arith)
            requires
                0 <= a < b,
                bottom > 0,
        ;
    }
}

/// The integer square root.
fn isqrt(v: u128) -> (r: u128)
    requires
        v < 0x1_0000_0000_0000_0000_0000_0000_0000,
    ensures
        r * r <= v,
        v < (r + 1) * (r + 1),
        r < 0x100_0000_0000_0000,
{
    let mut r: u128 = 0;
    let mut b: u128 = 0x100_0000_0000_0000;
    assert((0 + 2 * b) * (0 + 2 * b) > v) by (nonlinear_arith)
        requires
            b == 0x100_0000_0000_0000,
            v < 0x1_0000_0000_0000_0000_0000_0000_0000,
    ;
    let ghost mut step: nat = 57;
    proof {
        power2::lemma2_to64();
        power2::lemma2_to64_rest();
    }
    while b > 0
        invariant
            r * r <= v,
            b > 0 ==> v < (r + 2 * b) * (r + 2 * b),
            b == 0 ==> v < (r + 1) * (r + 1),
            v < 0x1_0000_0000_0000_0000_0000_0000_0000,
            r < 0x100_0000_0000_0000,
            b <= 0x100_0000_0000_0000,
            b == 0 && step == 0 || b > 0 && step > 0 && b == power2::pow2((step - 1) as nat),
        decreases b,
    {
        let next: u128 = r + b;
        assert(next * next <= 0x1FF_FFFF_FFFF_FFFF * 0x1FF_FFFF_FFFF_FFFF) by (nonlinear_arith)
            requires
                0 <= next <= 0x1FF_FFFF_FFFF_FFFF,
        ;
        if next * next <= v {
            assert(next < 0x100_0000_0000_0000) by (nonlinear_arith)
                requires
                    next * next <= v,
                    v < 0x1_0000_0000_0000_0000_0000_0000_0000,
            ;
            assert(next + b == r + 2 * b);
            r = next;
        }
        proof {
            if step > 1 {
                power2::lemma_pow2_unfold((step - 1) as nat);
                power2::lemma_pow2_pos((step - 2) as nat);
            } else {
                power2::lemma2_to64();
            }
            step = (step - 1) as nat;
        }
        b = b / 2;
    }
    r
}

/// The square root of `s * a / t` in units of `1 / ONE`, rounded down.
pub fn root(s: u128, a: u128, t: u128) -> (r: u64)
    requires
        s <= 16,
        a <= t,
        0 < t < 0x10_0000_0000_0000_0000_0000_0000_0000,
    ensures
        r == root_of(s * a, t as int),
        is_root(r as int, s * a, t as int),
        r <= 0x80_0000_0000_0000,
{
    assert(0 <= s * a <= 16 * t) by (nonlinear_arith)
        requires
            0 <= s <= 16,
            0 <= a <= t,
    ;
    let top: u128 = s * a;
    let mut q: u128 = top / t;
    let mut rest: u128 = top % t;
    let mut i: usize = 0;
    proof {
        vstd::arithmetic::div_mod::lemma_fundamental_div_mod(top as int, t as int);
        assert(q * t == t * q) by (nonlinear_arith);
        assert(q <= 16) by (nonlinear_arith)
            requires
                t * q <= 16 * t,
                t > 0,
        ;
        power2::lemma2_to64();
        power2::lemma2_to64_rest();
        power2::lemma_pow2_adds(53, 53);
    }
    while i < 106
        invariant
            i <= 106,
            top <= 16 * t,
            0 < t < 0x10_0000_0000_0000_0000_0000_0000_0000,
            rest < t,
            q * t + rest == top * power2::pow2(i as nat),
            q <= 16 * power2::pow2(i as nat),
            power2::pow2(i as nat) * power2::pow2((106 - i) as nat) == power2::pow2(106),
            power2::pow2(106) == 0x400_0000_0000_0000_0000_0000_0000,
        decreases 106 - i,
    {
        proof {
            power2::lemma_pow2_unfold((i + 1) as nat);
            power2::lemma_pow2_unfold((106 - i) as nat);
            power2::lemma_pow2_pos((106 - i) as nat);
            power2::lemma_pow2_pos((106 - i - 1) as nat);
            power2::lemma_pow2_pos(i as nat);
            let x = power2::pow2(i as nat) as int;
            let y = power2::pow2((106 - i) as nat) as int;
            let z = power2::pow2((106 - i - 1) as nat) as int;
            assert(x <= 0x400_0000_0000_0000_0000_0000_0000) by (nonlinear_arith)
                requires
                    x * y == 0x400_0000_0000_0000_0000_0000_0000,
                    x > 0,
                    y > 0,
            ;
            assert((2 * x) * z == x * y) by (nonlinear_arith)
                requires
                    y == 2 * z,
            ;
            assert((2 * q) * t == 2 * (q * t)) by (nonlinear_arith);
            assert((2 * q + 1) * t == 2 * (q * t) + t) by (nonlinear_arith);
            assert(top * (2 * x) == 2 * (top * x)) by (nonlinear_arith);
        }
        q = 2 * q;
        rest = 2 * rest;
        if rest >= t {
            q = q + 1;
            rest = rest - t;
            proof {
                lemma_quotient_bound(
                    q as int,
                    t as int,
                    rest as int,
                    top as int,
                    power2::pow2((i + 1) as nat) as int,
                );
            }
        }
        i = i + 1;
    }
    let r: u128 = isqrt(q);
    proof {
        power2::lemma2_to64_rest();
        power2::lemma_pow2_adds(53, 53);
        assert(ONE * ONE == power2::pow2(106));
        let scaled_top = top * (ONE * ONE);
        assert(r * r * t <= q * t) by (nonlinear_arith)
            requires
                r * r <= q,
                t > 0,
        ;
        assert((q + 1) * t <= (r + 1) * (r + 1) * t) by (nonlinear_arith)
            requires
                q + 1 <= (r + 1) * (r + 1),
                t > 0,
        ;
        assert((q + 1) * t == q * t + t) by (nonlinear_arith);
        assert(is_root(r as int, top as int, t as int));
        lemma_root_is_unique(
            r as int,
            root_of(top as int, t as int),
            top as int,
            t as int,
        );
        assert(r <= 0x80_0000_0000_0000) by (nonlinear_arith)
            requires
                r * r <= q,
                q <= 16 * 0x400_0000_0000_0000_0000_0000_0000,
                r >= 0,
        ;
    }
    r as u64
}

proof fn lemma_quotient_bound(q: int, t: int, rest: int, top: int, x: int)
    requires
        q * t + rest == top * x,
        top <= 16 * t,
        rest >= 0,
        t > 0,
        x > 0,
    ensures
        q <= 16 * x,
{
    assert(q * t <= (16 * x) * t) by (nonlinear_arith)
        requires
            q * t + rest == top * x,
            top <= 16 * t,
            rest >= 0,
            x > 0,
    ;
    assert(q <= 16 * x) by (nonlinear_arith)
        requires
            q * t <= (16 * x) * t,
            t > 0,
    ;
}

} // verus!
