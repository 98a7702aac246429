//! Points of the complex plane in fixed point.

use vstd::prelude::*;

verus! {

/// The coordinate 1.
pub const ONE: i64 = 9007199254740992;

/// The coordinate 1 / sqrt(2), rounded to the nearest unit.
pub const DIAGONAL: i64 = 6369051672525773;

/// Bound on coordinates: distances between points within it can be computed.
pub const REACH: i64 = 4611686018427387904;

/// A point with coordinates in units of `1 / ONE`.
#[derive(Clone, Copy, Debug, PartialEq, Eq, Structural)]
pub struct Symbol {
    pub re: i64,
    pub im: i64,
}

/// The QPSK point at angle `pi / 4 + q * pi / 2`.
pub open spec fn diagonal_point(q: int) -> Symbol {
    if q % 4 == 0 {
        Symbol { re: DIAGONAL, im: DIAGONAL }
    } else if q % 4 == 1 {
        Symbol { re: -DIAGONAL as i64, im: DIAGONAL }
    } else if q % 4 == 2 {
        Symbol { re: -DIAGONAL as i64, im: -DIAGONAL as i64 }
    } else {
        Symbol { re: DIAGONAL, im: -DIAGONAL as i64 }
    }
}

/// The QPSK point at angle `q * pi / 2`.
pub open spec fn axis_point(q: int) -> Symbol {
    if q % 4 == 0 {
        Symbol { re: ONE, im: 0 }
    } else if q % 4 == 1 {
        Symbol { re: 0, im: ONE }
    } else if q % 4 == 2 {
        Symbol { re: -ONE as i64, im: 0 }
    } else {
        Symbol { re: 0, im: -ONE as i64 }
    }
}

/// Square of the distance of two points.
pub open spec fn distance2(a: Symbol, b: Symbol) -> int {
    (a.re - b.re) * (a.re - b.re) + (a.im - b.im) * (a.im - b.im)
}

impl Symbol {
    /// Both coordinates lie within `REACH`.
    pub open spec fn in_reach(self) -> bool {
        &&& -REACH <= self.re <= REACH
        &&& -REACH <= self.im <= REACH
    }

    /// The QPSK point at angle `pi / 4 + q * pi / 2`.
    pub fn diagonal(q: usize) -> (s: Self)
        ensures
            s == diagonal_point(q as int),
    {
        let d: i64 = DIAGONAL;
        match q % 4 {
            0 => Symbol { re: d, im: d },
            1 => Symbol { re: -d, im: d },
            2 => Symbol { re: -d, im: -d },
            _ => Symbol { re: d, im: -d },
        }
    }

    /// The QPSK point at angle `q * pi / 2`.
    pub fn axis(q: usize) -> (s: Self)
        ensures
            s == axis_point(q as int),
    {
        let d: i64 = ONE;
        match q % 4 {
            0 => Symbol { re: d, im: 0 },
            1 => Symbol { re: 0, im: d },
            2 => Symbol { re: -d, im: 0 },
            _ => Symbol { re: 0, im: -d },
        }
    }

    /// Square of the distance to `other`.
    pub fn distance2_to(self, other: Self) -> (d: u128)
        requires
            self.in_reach(),
            other.in_reach(),
        ensures
            d == distance2(self, other),
    {
        let dx: i128 = self.re as i128 - other.re as i128;
        let dy: i128 = self.im as i128 - other.im as i128;
        let ax: u128 = if dx < 0 { (-dx) as u128 } else { dx as u128 };
        let ay: u128 = if dy < 0 { (-dy) as u128 } else { dy as u128 };
        assert(ax * ax == dx * dx && 0 <= ax * ax <= 0x8000_0000_0000_0000
            * 0x8000_0000_0000_0000) by (nonlinear_arith)
            requires
                ax == dx || ax == -dx,
                ax <= 0x8000_0000_0000_0000,
        ;
        assert(ay * ay == dy * dy && 0 <= ay * ay <= 0x8000_0000_0000_0000
            * 0x8000_0000_0000_0000) by (nonlinear_arith)
            requires
                ay == dy || ay == -dy,
                ay <= 0x8000_0000_0000_0000,
        ;
        ax * ax + ay * ay
    }
}

/// A distance is never negative, and zero only between equal points.
pub proof fn lemma_distance2(a: Symbol, b: Symbol)
    ensures
        distance2(a, b) >= 0,
        distance2(a, b) == 0 <==> a == b,
{
    let x = a.re - b.re;
    let y = a.im - b.im;
    assert(x * x >= 0 && (x * x == 0 <==> x == 0)) by (nonlinear_arith);
    assert(y * y >= 0 && (y * y == 0 <==> y == 0)) by (nonlinear_arith);
}

/// The points of QPSK follow one another by quarter turns, from 1 or from the middle of the
/// first quarter.
pub proof fn law_points_turn_by_quarters(q: int)
    ensures
        axis_point(0) == (Symbol { re: ONE, im: 0 }),
        axis_point(q + 1).re == -axis_point(q).im,
        axis_point(q + 1).im == axis_point(q).re,
        diagonal_point(0).re == diagonal_point(0).im,
        diagonal_point(0).re > 0,
        diagonal_point(q + 1).re == -diagonal_point(q).im,
        diagonal_point(q + 1).im == diagonal_point(q).re,
{
    assert((q + 1) % 4 == (q % 4 + 1) % 4);
}

} // verus!
