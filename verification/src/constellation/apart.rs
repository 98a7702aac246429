//! Geometry of the APSK constellations: no two labels share a point, the mean power is 1,
//! and the rings stand to each other as their ratios say.

use vstd::prelude::*;

use crate::constellation::apsk::{self, LabelPlace};
use crate::constellation::ring;
use crate::constellation;
use crate::ratio::Ratio;
use crate::symbol::{Symbol, ONE};

verus! {

/// Radius from which on rounding keeps directions on a ring apart.
pub open spec fn least_radius() -> int {
    0x4000
}

/// Coordinates that are apart stay different on a ring.
proof fn lemma_coordinates_stay_apart(c: int, d: int, r: int)
    requires
        c >= d + ring::least_gap(),
        r >= least_radius(),
    ensures
        ring::scaled_coordinate(c, r) > ring::scaled_coordinate(d, r),
{
    let one = ONE as int;
    if d >= 0 {
        assert(r * c >= r * d + one) by (nonlinear_arith)
            requires
                c >= d + 0x100_0000_0000,
                r >= 0x4000,
                one == 0x20_0000_0000_0000,
        ;
        assert(r * d >= 0) by (nonlinear_arith)
            requires
                r >= 0,
                d >= 0,
        ;
    } else if c < 0 {
        assert(r * (-d) >= r * (-c) + one) by (nonlinear_arith)
            requires
                c >= d + 0x100_0000_0000,
                r >= 0x4000,
                one == 0x20_0000_0000_0000,
        ;
        assert(r * (-c) >= 0) by (nonlinear_arith)
            requires
                r >= 0,
                c <= 0,
        ;
    } else {
        assert(r * c >= 0 && r * (-d) >= 0 && (r * c >= one || r * (-d) >= one))
            by (nonlinear_arith)
            requires
                c >= 0,
                d < 0,
                c >= d + 0x100_0000_0000,
                r >= 0x4000,
                one == 0x20_0000_0000_0000,
        ;
    }
}

/// Directions that are apart give different points on a ring.
proof fn lemma_points_stay_apart(a: Symbol, b: Symbol, r: int)
    requires
        ring::apart(a, b),
        ring::near_unit(a),
        ring::near_unit(b),
        least_radius() <= r <= 4 * ONE,
    ensures
        ring::scaled(a, r) != ring::scaled(b, r),
{
    lemma_scaled_fits(a.re as int, r);
    lemma_scaled_fits(b.re as int, r);
    lemma_scaled_fits(a.im as int, r);
    lemma_scaled_fits(b.im as int, r);
    if a.re >= b.re + ring::least_gap() {
        lemma_coordinates_stay_apart(a.re as int, b.re as int, r);
    } else if b.re >= a.re + ring::least_gap() {
        lemma_coordinates_stay_apart(b.re as int, a.re as int, r);
    } else if a.im >= b.im + ring::least_gap() {
        lemma_coordinates_stay_apart(a.im as int, b.im as int, r);
    } else {
        lemma_coordinates_stay_apart(b.im as int, a.im as int, r);
    }
}

/// A scaled coordinate is within the radius, and off by less than one unit.
proof fn lemma_scaled_fits(c: int, r: int)
    requires
        -ONE <= c <= ONE,
        0 <= r <= 4 * ONE,
    ensures
        -4 * ONE <= ring::scaled_coordinate(c, r) <= 4 * ONE,
        -ONE < r * c - ring::scaled_coordinate(c, r) * ONE < ONE,
        -(r * ONE) <= r * c <= r * ONE,
{
    let one = ONE as int;
    let m = if c >= 0 {
        c
    } else {
        -c
    };
    assert(0 <= r * m <= r * one && r * one <= 4 * one * one && r * (-c) == -(r * c))
        by (nonlinear_arith)
        requires
            0 <= m <= one,
            0 <= r <= 4 * one,
    ;
}

/// Points of rings whose radii differ by enough are different.
proof fn lemma_rings_are_apart(a: Symbol, b: Symbol, r: int, big: int)
    requires
        ring::near_unit(a),
        ring::near_unit(b),
        0 <= r,
        big <= 4 * ONE,
        big >= r + 32,
    ensures
        ring::scaled(a, r) != ring::scaled(b, big),
{
    lemma_scaled_fits(a.re as int, r);
    lemma_scaled_fits(a.im as int, r);
    lemma_scaled_fits(b.re as int, big);
    lemma_scaled_fits(b.im as int, big);
    if ring::scaled(a, r) == ring::scaled(b, big) {
        let one = ONE as int;
        let (x, y) = (r * a.re, r * a.im);
        let (u, v) = (big * b.re, big * b.im);
        let sum = r + big;
        assert(-2 * one <= u - x <= 2 * one && -2 * one <= v - y <= 2 * one);
        assert(-(sum * one) <= u + x <= sum * one && -(sum * one) <= v + y <= sum * one)
            by (nonlinear_arith)
            requires
                -(r * one) <= x <= r * one,
                -(r * one) <= y <= r * one,
                -(big * one) <= u <= big * one,
                -(big * one) <= v <= big * one,
                sum == r + big,
        ;
        lemma_squares_are_near(x, u, one, sum);
        lemma_squares_are_near(y, v, one, sum);
        let (p, q) = (a.re * a.re + a.im * a.im, b.re * b.re + b.im * b.im);
        assert(x * x + y * y == (r * r) * p) by (nonlinear_arith)
            requires
                x == r * a.re,
                y == r * a.im,
                p == a.re * a.re + a.im * a.im,
        ;
        assert(u * u + v * v == (big * big) * q) by (nonlinear_arith)
            requires
                u == big * b.re,
                v == big * b.im,
                q == b.re * b.re + b.im * b.im,
        ;
        lemma_norms_differ(r, big, p, q, one);
    }
}

/// Squares of near numbers are near.
proof fn lemma_squares_are_near(x: int, u: int, one: int, sum: int)
    requires
        -2 * one <= u - x <= 2 * one,
        -(sum * one) <= u + x <= sum * one,
        one > 0,
        sum >= 0,
    ensures
        u * u - x * x <= 2 * ((one * one) * sum),
{
    let (d, s) = (u - x, u + x);
    assert(u * u - x * x == d * s) by (nonlinear_arith)
        requires
            d == u - x,
            s == u + x,
    ;
    assert(d * s <= (2 * one) * (sum * one)) by (nonlinear_arith)
        requires
            -2 * one <= d <= 2 * one,
            -(sum * one) <= s <= sum * one,
            one > 0,
            sum >= 0,
    ;
    assert((2 * one) * (sum * one) == 2 * ((one * one) * sum)) by (nonlinear_arith);
}

/// Norms on rings whose radii differ by enough differ by more than rounding hides.
proof fn lemma_norms_differ(r: int, big: int, p: int, q: int, one: int)
    requires
        0 <= r,
        r + 32 <= big <= 4 * one,
        p <= one * one + 2 * one,
        q >= one * one - 2 * one,
        one > 1,
    ensures
        (big * big) * q - (r * r) * p > 4 * ((one * one) * (r + big)),
{
    let sum = r + big;
    let gap = big - r;
    let sq = one * one;
    assert((big * big) * q >= (big * big) * sq - 2 * one * (big * big)) by (nonlinear_arith)
        requires
            q >= sq - 2 * one,
    ;
    assert((r * r) * p <= (r * r) * sq + 2 * one * (r * r)) by (nonlinear_arith)
        requires
            p <= sq + 2 * one,
    ;
    assert(big * big + r * r <= 4 * one * sum) by (nonlinear_arith)
        requires
            0 <= r <= big <= 4 * one,
            sum == r + big,
    ;
    assert(2 * one * (big * big + r * r) <= 8 * sq * sum) by (nonlinear_arith)
        requires
            big * big + r * r <= 4 * one * sum,
            sq == one * one,
            one > 0,
    ;
    assert(2 * one * (big * big + r * r) == 2 * one * (big * big) + 2 * one * (r * r))
        by (nonlinear_arith);
    assert((big * big) * sq - (r * r) * sq == sq * sum * gap) by (nonlinear_arith)
        requires
            sum == r + big,
            gap == big - r,
    ;
    assert(sq * sum > 0) by (nonlinear_arith)
        requires
            sq == one * one,
            one > 0,
            sum > 0,
    ;
    assert(sq * sum * gap >= 32 * (sq * sum)) by (nonlinear_arith)
        requires
            sq * sum > 0,
            gap >= 32,
    ;
    assert(8 * sq * sum == 8 * (sq * sum)) by (nonlinear_arith);
}

// ---------------------------------------------------------------------------
// Radii
// ---------------------------------------------------------------------------

/// Every number has an integer square root.
proof fn lemma_square_root_exists(v: int) -> (r: int)
    requires
        v >= 0,
    ensures
        r >= 0,
        r * r <= v < (r + 1) * (r + 1),
    decreases v,
{
    if v == 0 {
        0
    } else {
        let r = lemma_square_root_exists(v - 1);
        if (r + 1) * (r + 1) <= v {
            assert((r + 2) * (r + 2) > (r + 1) * (r + 1) + 1) by (nonlinear_arith)
                requires
                    r >= 0,
            ;
            r + 1
        } else {
            r
        }
    }
}

/// Every fraction has a rounded root.
proof fn lemma_root_exists(top: int, bottom: int)
    requires
        top >= 0,
        bottom > 0,
    ensures
        ring::is_root(ring::root_of(top, bottom), top, bottom),
{
    let wide = top * (ONE * ONE);
    assert(wide >= 0) by (nonlinear_arith)
        requires
            wide == top * (ONE * ONE),
            top >= 0,
    ;
    let v = wide / bottom;
    vstd::arithmetic::div_mod::lemma_fundamental_div_mod(wide, bottom);
    assert(v >= 0) by (nonlinear_arith)
        requires
            v == wide / bottom,
            wide >= 0,
            bottom > 0,
    ;
    let r = lemma_square_root_exists(v);
    assert(r * r * bottom <= v * bottom) by (nonlinear_arith)
        requires
            r * r <= v,
            bottom > 0,
    ;
    assert((v + 1) * bottom <= (r + 1) * (r + 1) * bottom) by (nonlinear_arith)
        requires
            v + 1 <= (r + 1) * (r + 1),
            bottom > 0,
    ;
    assert(v * bottom == bottom * v && (v + 1) * bottom == bottom * v + bottom) by (nonlinear_arith);
    assert(ring::is_root(r, top, bottom));
}

/// Rings with radii in the proportions `f`, innermost first, of which `s` points' mean
/// power is 1 where `t` is the sum of the squares of the proportions of all of them.
pub open spec fn are_rings(f: Seq<int>, s: int, t: int) -> bool {
    &&& f.len() >= 1
    &&& f[0] >= 1
    &&& forall|i: int, j: int| 0 <= i < j < f.len() ==> f[i] < f[j]
    &&& forall|i: int| 0 <= i < f.len() ==> (#[trigger] f[i]) * f[i] <= t
    &&& f.last() <= 0x1_0000_0000 * f[0]
    &&& 1 <= s <= 16
    &&& t <= s * (f.last() * f.last())
}

/// Radius of ring `i`.
pub open spec fn radius_of(f: Seq<int>, s: int, t: int, i: int) -> int {
    ring::root_of(s * (f[i] * f[i]), t)
}

/// Every radius is large enough for the directions on its ring, and none is too large.
proof fn lemma_radius_bounds(f: Seq<int>, s: int, t: int, i: int)
    requires
        are_rings(f, s, t),
        0 <= i < f.len(),
    ensures
        t > 0,
        ring::is_root(radius_of(f, s, t, i), s * (f[i] * f[i]), t),
        least_radius() <= radius_of(f, s, t, i) <= 4 * ONE,
{
    let u = f[i];
    let m = f.last();
    let one = ONE as int;
    assert(u >= f[0]);
    assert(m == f[f.len() - 1]);
    assert(u * u >= 1) by (nonlinear_arith)
        requires
            u >= 1,
    ;
    assert(u * u <= t);
    assert(s * (u * u) >= 0) by (nonlinear_arith)
        requires
            s >= 1,
            u * u >= 1,
    ;
    lemma_root_exists(s * (u * u), t);
    let r = radius_of(f, s, t, i);
    let x = r + 1;
    // (r + 1) m > u ONE
    assert(x * x * t <= x * x * (s * (m * m))) by (nonlinear_arith)
        requires
            t <= s * (m * m),
    ;
    assert(x * x * (s * (m * m)) == s * ((x * m) * (x * m))) by (nonlinear_arith);
    assert((s * (u * u)) * (one * one) == s * ((u * one) * (u * one))) by (nonlinear_arith);
    assert((x * m) * (x * m) > (u * one) * (u * one)) by (nonlinear_arith)
        requires
            s * ((u * one) * (u * one)) < s * ((x * m) * (x * m)),
            s >= 1,
    ;
    assert(x * m > u * one) by (nonlinear_arith)
        requires
            (x * m) * (x * m) > (u * one) * (u * one),
            x >= 1,
            m >= 1,
            u >= 1,
            one >= 1,
    ;
    assert(x * m <= x * (0x1_0000_0000 * u)) by (nonlinear_arith)
        requires
            m <= 0x1_0000_0000 * u,
            x >= 0,
    ;
    assert(x * 0x1_0000_0000 > one) by (nonlinear_arith)
        requires
            x * (0x1_0000_0000 * u) > u * one,
            u >= 1,
    ;
    // r <= 4 ONE
    assert(s * (u * u) <= 16 * t) by (nonlinear_arith)
        requires
            1 <= s <= 16,
            1 <= u * u <= t,
    ;
    assert((s * (u * u)) * (one * one) <= (16 * t) * (one * one)) by (nonlinear_arith)
        requires
            s * (u * u) <= 16 * t,
    ;
    assert((16 * t) * (one * one) == t * ((4 * one) * (4 * one))) by (nonlinear_arith);
    assert(r <= 4 * one) by (nonlinear_arith)
        requires
            r * r * t <= t * ((4 * one) * (4 * one)),
            t > 0,
            r >= 0,
            one >= 1,
    ;
}

/// Radii of different rings differ by enough.
proof fn lemma_radii_differ(f: Seq<int>, s: int, t: int, i: int, j: int)
    requires
        are_rings(f, s, t),
        f.last() <= 0x1_0000_0000_0000,
        0 <= i < j < f.len(),
    ensures
        radius_of(f, s, t, i) + 32 <= radius_of(f, s, t, j),
{
    lemma_radius_bounds(f, s, t, i);
    lemma_radius_bounds(f, s, t, j);
    let (u, v, m) = (f[i], f[j], f.last());
    let one = ONE as int;
    let r = radius_of(f, s, t, i);
    let e = radius_of(f, s, t, j) + 1 - r;
    assert(f[0] <= u);
    assert(m == f[f.len() - 1]);
    if e <= 32 {
        lemma_wider_step(s, t, u, v, m, r, e, one);
    }
}

/// A step that is small against the rings does not lead from one to the next.
proof fn lemma_wider_step(s: int, t: int, u: int, v: int, m: int, r: int, e: int, one: int)
    requires
        s >= 1,
        t > 0,
        1 <= u < v,
        1 <= m <= 0x1_0000_0000_0000,
        t <= s * (m * m),
        one == 0x20_0000_0000_0000,
        0 <= r,
        r + e >= 0,
        e <= 32,
        r * r * t <= s * (u * u) * (one * one),
    ensures
        (r + e) * (r + e) * t <= s * (v * v) * (one * one),
{
    let n = u + 1;
    let k = s * (one * one);
    let x = if e < 0 {
        0
    } else {
        e
    };
    // The step itself is no larger than one proportion.
    assert(x * m <= one) by (nonlinear_arith)
        requires
            0 <= x <= 32,
            1 <= m <= 0x1_0000_0000_0000,
            one == 0x20_0000_0000_0000,
    ;
    assert((x * m) * (x * m) <= one * one) by (nonlinear_arith)
        requires
            0 <= x * m <= one,
    ;
    assert(x * x * t <= x * x * (s * (m * m))) by (nonlinear_arith)
        requires
            t <= s * (m * m),
    ;
    assert(x * x * (s * (m * m)) == s * ((x * m) * (x * m))) by (nonlinear_arith);
    assert(s * ((x * m) * (x * m)) <= k) by (nonlinear_arith)
        requires
            (x * m) * (x * m) <= one * one,
            s >= 1,
            k == s * (one * one),
    ;
    assert(x * x * t <= k);
    assert(s * (u * u) * (one * one) == k * (u * u)) by (nonlinear_arith)
        requires
            k == s * (one * one),
    ;
    assert(s * (v * v) * (one * one) == k * (v * v)) by (nonlinear_arith)
        requires
            k == s * (one * one),
    ;
    // The mixed term, by its square.
    let mixed = r * x * t;
    assert(mixed >= 0) by (nonlinear_arith)
        requires
            mixed == r * x * t,
            r >= 0,
            x >= 0,
            t > 0,
    ;
    assert(mixed * mixed == (r * r * t) * (x * x * t)) by (nonlinear_arith)
        requires
            mixed == r * x * t,
    ;
    assert((r * r * t) * (x * x * t) <= (k * (u * u)) * k) by (nonlinear_arith)
        requires
            0 <= r * r * t <= k * (u * u),
            0 <= x * x * t <= k,
    ;
    assert((k * (u * u)) * k == (k * u) * (k * u)) by (nonlinear_arith);
    assert(k >= 0 && k * u >= 0) by (nonlinear_arith)
        requires
            k == s * (one * one),
            s >= 1,
            u >= 1,
    ;
    assert(mixed <= k * u) by (nonlinear_arith)
        requires
            mixed * mixed <= (k * u) * (k * u),
            mixed >= 0,
            k * u >= 0,
    ;
    assert((r + x) * (r + x) * t == r * r * t + 2 * mixed + x * x * t) by (nonlinear_arith)
        requires
            mixed == r * x * t,
    ;
    assert((r + e) * (r + e) * t <= (r + x) * (r + x) * t) by (nonlinear_arith)
        requires
            0 <= r + e <= r + x,
            t > 0,
    ;
    assert(k * (n * n) == k * (u * u) + 2 * (k * u) + k) by (nonlinear_arith)
        requires
            n == u + 1,
    ;
    assert(k * (n * n) <= k * (v * v)) by (nonlinear_arith)
        requires
            1 <= n <= v,
            k >= 0,
    ;
}

// ---------------------------------------------------------------------------
// Labels
// ---------------------------------------------------------------------------

/// A place whose angle is given in steps of its ring or of a quarter of `pi`.
pub open spec fn is_place(p: LabelPlace, steps: int) -> bool {
    &&& ring::known_divisor(steps)
    &&& p.den == 4 || p.den == steps
    &&& p.num < 2 * p.den
}

/// The direction of a place in steps of its ring.
proof fn lemma_direction_of_place(p: LabelPlace, steps: int)
    requires
        is_place(p, steps),
    ensures
        ring::direction_of(p.num as int, p.den as int) == ring::direction_of(
            apsk::turn_of(p, steps),
            steps,
        ),
        0 <= apsk::turn_of(p, steps) < 2 * steps,
        ring::near_unit(ring::direction_of(p.num as int, p.den as int)),
{
    ring::law_directions_lie_on_the_unit_circle(p.num as int, p.den as int);
    if p.den != steps {
        ring::lemma_finer_steps(p.num as int, steps);
        assert(p.num * (steps / 4) == apsk::turn_of(p, steps)) by (nonlinear_arith)
            requires
                steps == 8 && apsk::turn_of(p, steps) == 2 * p.num || steps == 12
                    && apsk::turn_of(p, steps) == 3 * p.num || steps == 20 && apsk::turn_of(
                    p,
                    steps,
                ) == 5 * p.num || steps == 28 && apsk::turn_of(p, steps) == 7 * p.num,
        ;
    }
}

/// Places on different rings, or at different angles of one ring, have different points.
proof fn lemma_places_differ(
    f: Seq<int>,
    s: int,
    t: int,
    p: LabelPlace,
    q: LabelPlace,
    p_steps: int,
    q_steps: int,
    radii: Seq<int>,
)
    requires
        are_rings(f, s, t),
        radii.len() == f.len(),
        forall|i: int| 0 <= i < f.len() ==> #[trigger] radii[i] == radius_of(f, s, t, i),
        constellation::rings_apart(radii),
        1 <= p.ring <= f.len(),
        1 <= q.ring <= f.len(),
        is_place(p, p_steps),
        is_place(q, q_steps),
        p.ring == q.ring ==> p_steps == q_steps && apsk::turn_of(p, p_steps) != apsk::turn_of(
            q,
            q_steps,
        ),
    ensures
        apsk::point_at(p, radii) != apsk::point_at(q, radii),
{
    lemma_direction_of_place(p, p_steps);
    lemma_direction_of_place(q, q_steps);
    let a = ring::direction_of(p.num as int, p.den as int);
    let b = ring::direction_of(q.num as int, q.den as int);
    lemma_radius_bounds(f, s, t, p.ring - 1);
    lemma_radius_bounds(f, s, t, q.ring - 1);
    let r = radii[p.ring - 1];
    let big = radii[q.ring - 1];
    if p.ring == q.ring {
        ring::law_directions_are_apart(
            apsk::turn_of(p, p_steps),
            apsk::turn_of(q, q_steps),
            p_steps,
        );
        lemma_points_stay_apart(a, b, r);
    } else if p.ring < q.ring {
        assert(radii[p.ring - 1] + 32 <= radii[q.ring - 1]);
        lemma_rings_are_apart(a, b, r, big);
    } else {
        assert(radii[q.ring - 1] + 32 <= radii[p.ring - 1]);
        lemma_rings_are_apart(b, a, big, r);
    }
}

/// The proportions of the rings rise, and stay within their bounds.
proof fn lemma_proportions(g1: Ratio, g2: Ratio, g3: Ratio)
    requires
        g1.den > 0,
        g2.den > 0,
        g3.den > 0,
        constellation::below(constellation::unit_ratio(), g1),
    ensures
        ({
            let a = (g1.den * g2.den * g3.den) as int;
            let b = (g1.num * g2.den * g3.den) as int;
            let c = (g2.num * g1.den * g3.den) as int;
            let d = (g3.num * g1.den * g2.den) as int;
            &&& 1 <= a < b
            &&& b <= 0x1_0000_0000 * a
            &&& c <= 0x1_0000_0000 * a
            &&& d <= 0x1_0000_0000 * a
            &&& constellation::below(g1, g2) ==> b < c
            &&& constellation::below(g2, g3) ==> c < d
        }),
{
    let (n1, d1) = (g1.num as int, g1.den as int);
    let (n2, d2) = (g2.num as int, g2.den as int);
    let (n3, d3) = (g3.num as int, g3.den as int);
    let a = d1 * d2 * d3;
    let b = n1 * d2 * d3;
    let c = n2 * d1 * d3;
    let d = n3 * d1 * d2;
    let (d12, d13, d23) = (d1 * d2, d1 * d3, d2 * d3);
    assert(1 <= d12 && 1 <= d13 && 1 <= d23) by (nonlinear_arith)
        requires
            d12 == d1 * d2,
            d13 == d1 * d3,
            d23 == d2 * d3,
            1 <= d1,
            1 <= d2,
            1 <= d3,
    ;
    assert(a == d1 * d23 && a == d2 * d13 && a == d3 * d12 && b == n1 * d23 && c == n2 * d13 && d
        == n3 * d12) by (nonlinear_arith)
        requires
            a == d1 * d2 * d3,
            b == n1 * d2 * d3,
            c == n2 * d1 * d3,
            d == n3 * d1 * d2,
            d12 == d1 * d2,
            d13 == d1 * d3,
            d23 == d2 * d3,
    ;
    lemma_one_proportion(d1, n1, d23, a, b);
    lemma_one_proportion(d2, n2, d13, a, c);
    lemma_one_proportion(d3, n3, d12, a, d);
    let one = constellation::unit_ratio();
    assert(d1 < n1) by (nonlinear_arith)
        requires
            one.num * d1 < n1 * one.den,
            one.num == 1,
            one.den == 1,
    ;
    assert(a < b) by (nonlinear_arith)
        requires
            a == d1 * d23,
            b == n1 * d23,
            d1 < n1,
            d23 >= 1,
    ;
    if constellation::below(g1, g2) {
        assert(b < c) by (nonlinear_arith)
            requires
                b == n1 * d2 * d3,
                c == n2 * d1 * d3,
                n1 * d2 < n2 * d1,
                d3 >= 1,
        ;
    }
    if constellation::below(g2, g3) {
        assert(c < d) by (nonlinear_arith)
            requires
                c == n2 * d1 * d3,
                d == n3 * d1 * d2,
                n2 * d3 < n3 * d2,
                d1 >= 1,
        ;
    }
}

/// Bounds on the proportion of one ring.
proof fn lemma_one_proportion(den: int, num: int, rest: int, a: int, b: int)
    requires
        1 <= den,
        0 <= num <= 0x1_0000_0000,
        1 <= rest,
        a == den * rest,
        b == num * rest,
    ensures
        1 <= a,
        b <= 0x1_0000_0000 * a,
{
    assert(1 <= a && rest <= a) by (nonlinear_arith)
        requires
            a == den * rest,
            den >= 1,
            rest >= 1,
    ;
    assert(b <= 0x1_0000_0000 * rest) by (nonlinear_arith)
        requires
            b == num * rest,
            num <= 0x1_0000_0000,
            rest >= 1,
    ;
}

/// Squares keep the order.
proof fn lemma_square_order(x: int, y: int)
    requires
        0 <= x <= y,
    ensures
        0 <= x * x <= y * y,
{
    assert(0 <= x * x <= y * y) by (nonlinear_arith)
        requires
            0 <= x <= y,
    ;
}

/// The rings of 16-APSK stay apart, whatever their ratio.
pub proof fn law_apsk16_rings_are_apart(gamma: Ratio)
    requires
        gamma.den > 0,
        constellation::below(constellation::unit_ratio(), gamma),
    ensures
        constellation::rings_apart(constellation::radii_16(gamma)),
{
    let one = constellation::unit_ratio();
    lemma_proportions(gamma, one, one);
    let a = (gamma.den * one.den * one.den) as int;
    let b = (gamma.num * one.den * one.den) as int;
    let f = seq![a, b];
    let t = a * a + 3 * (b * b);
    lemma_square_order(a, b);
    lemma_square_order(1, a);
    assert(are_rings(f, 4, t));
    assert(b == gamma.num) by (nonlinear_arith)
        requires
            b == gamma.num * one.den * one.den,
            one.den == 1,
    ;
    lemma_radii_differ(f, 4, t, 0, 1);
}

/// The rings of 32-APSK stay apart where their ratios are not too fine for the radii.
pub proof fn law_apsk32_rings_are_apart(gamma1: Ratio, gamma2: Ratio)
    requires
        gamma1.den > 0,
        gamma2.den > 0,
        constellation::below(constellation::unit_ratio(), gamma1),
        constellation::below(gamma1, gamma2),
        gamma2.num * gamma1.den <= 0x1_0000_0000_0000,
    ensures
        constellation::rings_apart(constellation::radii_32(gamma1, gamma2)),
{
    let one = constellation::unit_ratio();
    lemma_proportions(gamma1, gamma2, one);
    let a = (gamma1.den * gamma2.den * one.den) as int;
    let b = (gamma1.num * gamma2.den * one.den) as int;
    let c = (gamma2.num * gamma1.den * one.den) as int;
    let f = seq![a, b, c];
    let t = a * a + 3 * (b * b) + 4 * (c * c);
    lemma_square_order(1, a);
    lemma_square_order(a, b);
    lemma_square_order(b, c);
    assert(are_rings(f, 8, t));
    lemma_radii_differ(f, 8, t, 0, 1);
    lemma_radii_differ(f, 8, t, 0, 2);
    lemma_radii_differ(f, 8, t, 1, 2);
}

/// The rings of 64-APSK stay apart where their ratios are not too fine for the radii.
pub proof fn law_apsk64_rings_are_apart(gamma1: Ratio, gamma2: Ratio, gamma3: Ratio)
    requires
        gamma1.den > 0,
        gamma2.den > 0,
        gamma3.den > 0,
        constellation::below(constellation::unit_ratio(), gamma1),
        constellation::below(gamma1, gamma2),
        constellation::below(gamma2, gamma3),
        gamma3.num * gamma1.den * gamma2.den <= 0x1_0000_0000_0000,
    ensures
        constellation::rings_apart(constellation::radii_64(gamma1, gamma2, gamma3)),
{
    lemma_proportions(gamma1, gamma2, gamma3);
    let a = (gamma1.den * gamma2.den * gamma3.den) as int;
    let b = (gamma1.num * gamma2.den * gamma3.den) as int;
    let c = (gamma2.num * gamma1.den * gamma3.den) as int;
    let d = (gamma3.num * gamma1.den * gamma2.den) as int;
    let f = seq![a, b, c, d];
    let t = a * a + 3 * (b * b) + 5 * (c * c) + 7 * (d * d);
    lemma_square_order(1, a);
    lemma_square_order(a, b);
    lemma_square_order(b, c);
    lemma_square_order(c, d);
    assert(are_rings(f, 16, t));
    let radii = constellation::radii_64(gamma1, gamma2, gamma3);
    assert forall|i: int, j: int| 0 <= i < j < radii.len() implies #[trigger] radii[i] + 32
        <= #[trigger] radii[j] by {
        assert(radii[i] == radius_of(f, 16, t, i));
        assert(radii[j] == radius_of(f, 16, t, j));
        lemma_radii_differ(f, 16, t, i, j);
    }
}

/// No two labels of 16-APSK share a point.
pub proof fn law_apsk16_points_are_distinct(gamma: Ratio)
    requires
        gamma.den > 0,
        constellation::below(constellation::unit_ratio(), gamma),
    ensures
        constellation::distinct(
            Seq::new(
                16,
                |label: int| apsk::point_at(apsk::place_16(label), constellation::radii_16(gamma)),
            ),
        ),
{
    let radii = constellation::radii_16(gamma);
    let one = constellation::unit_ratio();
    lemma_proportions(gamma, one, one);
    let a = (gamma.den * one.den * one.den) as int;
    let b = (gamma.num * one.den * one.den) as int;
    let f = seq![a, b];
    let t = a * a + 3 * (b * b);
    lemma_square_order(a, b);
    lemma_square_order(1, a);
    assert(are_rings(f, 4, t));
    law_apsk16_rings_are_apart(gamma);
    assert forall|i: int, j: int| 0 <= i < 16 && 0 <= j < 16 && i != j implies apsk::point_at(
        apsk::place_16(i),
        radii,
    ) != apsk::point_at(apsk::place_16(j), radii) by {
        apsk::lemma_place_tells_label_16(i);
        apsk::lemma_place_tells_label_16(j);
        let (p, q) = (apsk::place_16(i), apsk::place_16(j));
        lemma_places_differ(
            f,
            4,
            t,
            p,
            q,
            apsk::steps_16(p.ring as int),
            apsk::steps_16(q.ring as int),
            radii,
        );
    }
}

/// No two labels of 32-APSK share a point, where rounding keeps the rings apart.
pub proof fn law_apsk32_points_are_distinct(gamma1: Ratio, gamma2: Ratio)
    requires
        gamma1.den > 0,
        gamma2.den > 0,
        constellation::below(constellation::unit_ratio(), gamma1),
        constellation::below(gamma1, gamma2),
        constellation::rings_apart(constellation::radii_32(gamma1, gamma2)),
    ensures
        constellation::distinct(
            Seq::new(
                32,
                |label: int|
                    apsk::point_at(apsk::place_32(label), constellation::radii_32(gamma1, gamma2)),
            ),
        ),
{
    let radii = constellation::radii_32(gamma1, gamma2);
    let one = constellation::unit_ratio();
    lemma_proportions(gamma1, gamma2, one);
    let a = (gamma1.den * gamma2.den * one.den) as int;
    let b = (gamma1.num * gamma2.den * one.den) as int;
    let c = (gamma2.num * gamma1.den * one.den) as int;
    let f = seq![a, b, c];
    let t = a * a + 3 * (b * b) + 4 * (c * c);
    lemma_square_order(1, a);
    lemma_square_order(a, b);
    lemma_square_order(b, c);
    assert(are_rings(f, 8, t));
    assert forall|i: int, j: int| 0 <= i < 32 && 0 <= j < 32 && i != j implies apsk::point_at(
        apsk::place_32(i),
        radii,
    ) != apsk::point_at(apsk::place_32(j), radii) by {
        apsk::lemma_place_tells_label_32(i);
        apsk::lemma_place_tells_label_32(j);
        let (p, q) = (apsk::place_32(i), apsk::place_32(j));
        lemma_places_differ(
            f,
            8,
            t,
            p,
            q,
            apsk::steps_32(p.ring as int),
            apsk::steps_32(q.ring as int),
            radii,
        );
    }
}

/// No two labels of 64-APSK share a point, where rounding keeps the rings apart.
pub proof fn law_apsk64_points_are_distinct(gamma1: Ratio, gamma2: Ratio, gamma3: Ratio)
    requires
        gamma1.den > 0,
        gamma2.den > 0,
        gamma3.den > 0,
        constellation::below(constellation::unit_ratio(), gamma1),
        constellation::below(gamma1, gamma2),
        constellation::below(gamma2, gamma3),
        constellation::rings_apart(constellation::radii_64(gamma1, gamma2, gamma3)),
    ensures
        constellation::distinct(
            Seq::new(
                64,
                |label: int|
                    apsk::point_at(
                        apsk::place_64(label),
                        constellation::radii_64(gamma1, gamma2, gamma3),
                    ),
            ),
        ),
{
    let radii = constellation::radii_64(gamma1, gamma2, gamma3);
    lemma_proportions(gamma1, gamma2, gamma3);
    let a = (gamma1.den * gamma2.den * gamma3.den) as int;
    let b = (gamma1.num * gamma2.den * gamma3.den) as int;
    let c = (gamma2.num * gamma1.den * gamma3.den) as int;
    let d = (gamma3.num * gamma1.den * gamma2.den) as int;
    let f = seq![a, b, c, d];
    let t = a * a + 3 * (b * b) + 5 * (c * c) + 7 * (d * d);
    lemma_square_order(1, a);
    lemma_square_order(a, b);
    lemma_square_order(b, c);
    lemma_square_order(c, d);
    assert(are_rings(f, 16, t));
    assert forall|i: int, j: int| 0 <= i < 64 && 0 <= j < 64 && i != j implies apsk::point_at(
        apsk::place_64(i),
        radii,
    ) != apsk::point_at(apsk::place_64(j), radii) by {
        apsk::lemma_place_tells_label_64(i);
        apsk::lemma_place_tells_label_64(j);
        let (p, q) = (apsk::place_64(i), apsk::place_64(j));
        lemma_places_differ(
            f,
            16,
            t,
            p,
            q,
            apsk::steps_64(p.ring as int),
            apsk::steps_64(q.ring as int),
            radii,
        );
    }
}

/// The share of one ring in the power.
proof fn lemma_power_share(r: int, f: int, s: int, t: int)
    requires
        ring::is_root(r, s * (f * f), t),
    ensures
        (r * r) * t <= s * ((f * f) * (ONE * ONE)),
        s * ((f * f) * (ONE * ONE)) < ((r + 1) * (r + 1)) * t,
{
    let unit = ONE * ONE;
    assert((s * (f * f)) * unit == s * ((f * f) * unit)) by (nonlinear_arith);
}

/// A common factor cancels.
proof fn lemma_cancel(a: int, b: int, t: int)
    requires
        a * t <= b * t,
        t > 0,
    ensures
        a <= b,
{
    assert(a <= b) by (nonlinear_arith)
        requires
            a * t <= b * t,
            t > 0,
    ;
}

/// A common factor cancels.
proof fn lemma_cancel_strict(a: int, b: int, t: int)
    requires
        a * t < b * t,
        t > 0,
    ensures
        a < b,
{
    assert(a < b) by (nonlinear_arith)
        requires
            a * t < b * t,
            t > 0,
    ;
}

/// The mean power of 16-APSK is 1, but for the rounding of the radii: with the radii as
/// they are it is no more than 1, with each a unit longer it is more than 1.
pub proof fn law_apsk16_has_unit_power(gamma: Ratio)
    requires
        gamma.den > 0,
        constellation::below(constellation::unit_ratio(), gamma),
    ensures
        ({
            let radii = constellation::radii_16(gamma);
            &&& 4 * (radii[0] * radii[0]) + 12 * (radii[1] * radii[1]) <= 16 * (ONE * ONE)
            &&& 16 * (ONE * ONE) < 4 * ((radii[0] + 1) * (radii[0] + 1)) + 12 * ((radii[1] + 1) * (radii[1] + 1))
        }),
{
    let radii = constellation::radii_16(gamma);
    let one = constellation::unit_ratio();
    lemma_proportions(gamma, one, one);
    let a = (gamma.den * one.den * one.den) as int;
    let b = (gamma.num * one.den * one.den) as int;
    let f = seq![a, b];
    let t = a * a + 3 * (b * b);
    lemma_square_order(1, a);
    lemma_square_order(a, b);
    assert(are_rings(f, 4, t));
    lemma_radius_bounds(f, 4, t, 0);
    lemma_radius_bounds(f, 4, t, 1);
    lemma_power_share(radii[0], a, 4, t);
    lemma_power_share(radii[1], b, 4, t);
    let unit = ONE * ONE;
    let low = 4 * (radii[0] * radii[0]) + 12 * (radii[1] * radii[1]);
    let high = 4 * ((radii[0] + 1) * (radii[0] + 1)) + 12 * ((radii[1] + 1) * (radii[1] + 1));
    assert(low * t <= (16 * unit) * t && (16 * unit) * t < high * t) by (nonlinear_arith)
        requires
            (radii[0] * radii[0]) * t <= 4 * ((a * a) * unit),
            4 * ((a * a) * unit) < ((radii[0] + 1) * (radii[0] + 1)) * t,
            (radii[1] * radii[1]) * t <= 4 * ((b * b) * unit),
            4 * ((b * b) * unit) < ((radii[1] + 1) * (radii[1] + 1)) * t,
            t == a * a + 3 * (b * b),
            low == 4 * (radii[0] * radii[0]) + 12 * (radii[1] * radii[1]),
            high == 4 * ((radii[0] + 1) * (radii[0] + 1)) + 12 * ((radii[1] + 1) * (radii[1] + 1)),
    ;
    lemma_cancel(low, 16 * unit, t);
    lemma_cancel_strict(16 * unit, high, t);
}

/// The mean power of 32-APSK is 1, but for the rounding of the radii: with the radii as
/// they are it is no more than 1, with each a unit longer it is more than 1.
pub proof fn law_apsk32_has_unit_power(gamma1: Ratio, gamma2: Ratio)
    requires
        gamma1.den > 0,
        gamma2.den > 0,
        constellation::below(constellation::unit_ratio(), gamma1),
        constellation::below(gamma1, gamma2),
    ensures
        ({
            let radii = constellation::radii_32(gamma1, gamma2);
            &&& 4 * (radii[0] * radii[0]) + 12 * (radii[1] * radii[1]) + 16 * (radii[2] * radii[2]) <= 32 * (ONE * ONE)
            &&& 32 * (ONE * ONE) < 4 * ((radii[0] + 1) * (radii[0] + 1)) + 12 * ((radii[1] + 1) * (radii[1] + 1)) + 16 * ((radii[2] + 1) * (radii[2] + 1))
        }),
{
    let radii = constellation::radii_32(gamma1, gamma2);
    let one = constellation::unit_ratio();
    lemma_proportions(gamma1, gamma2, one);
    let a = (gamma1.den * gamma2.den * one.den) as int;
    let b = (gamma1.num * gamma2.den * one.den) as int;
    let c = (gamma2.num * gamma1.den * one.den) as int;
    let f = seq![a, b, c];
    let t = a * a + 3 * (b * b) + 4 * (c * c);
    lemma_square_order(1, a);
    lemma_square_order(a, b);
    lemma_square_order(b, c);
    assert(are_rings(f, 8, t));
    lemma_radius_bounds(f, 8, t, 0);
    lemma_radius_bounds(f, 8, t, 1);
    lemma_radius_bounds(f, 8, t, 2);
    lemma_power_share(radii[0], a, 8, t);
    lemma_power_share(radii[1], b, 8, t);
    lemma_power_share(radii[2], c, 8, t);
    let unit = ONE * ONE;
    let low = 4 * (radii[0] * radii[0]) + 12 * (radii[1] * radii[1]) + 16 * (radii[2] * radii[2]);
    let high = 4 * ((radii[0] + 1) * (radii[0] + 1)) + 12 * ((radii[1] + 1) * (radii[1] + 1)) + 16 * ((radii[2] + 1) * (radii[2] + 1));
    assert(low * t <= (32 * unit) * t && (32 * unit) * t < high * t) by (nonlinear_arith)
        requires
            (radii[0] * radii[0]) * t <= 8 * ((a * a) * unit),
            8 * ((a * a) * unit) < ((radii[0] + 1) * (radii[0] + 1)) * t,
            (radii[1] * radii[1]) * t <= 8 * ((b * b) * unit),
            8 * ((b * b) * unit) < ((radii[1] + 1) * (radii[1] + 1)) * t,
            (radii[2] * radii[2]) * t <= 8 * ((c * c) * unit),
            8 * ((c * c) * unit) < ((radii[2] + 1) * (radii[2] + 1)) * t,
            t == a * a + 3 * (b * b) + 4 * (c * c),
            low == 4 * (radii[0] * radii[0]) + 12 * (radii[1] * radii[1]) + 16 * (radii[2] * radii[2]),
            high == 4 * ((radii[0] + 1) * (radii[0] + 1)) + 12 * ((radii[1] + 1) * (radii[1] + 1)) + 16 * ((radii[2] + 1) * (radii[2] + 1)),
    ;
    lemma_cancel(low, 32 * unit, t);
    lemma_cancel_strict(32 * unit, high, t);
}

/// A weighted sum times a factor.
proof fn lemma_weighted(p0: int, p1: int, p2: int, p3: int, t: int)
    ensures
        (4 * p0 + 12 * p1 + 20 * p2 + 28 * p3) * t == 4 * (p0 * t) + 12 * (p1 * t) + 20 * (p2 * t)
            + 28 * (p3 * t),
{
    assert((4 * p0 + 12 * p1 + 20 * p2 + 28 * p3) * t == 4 * (p0 * t) + 12 * (p1 * t) + 20 * (p2
        * t) + 28 * (p3 * t)) by (nonlinear_arith);
}

/// The mean power of 64-APSK is 1, but for the rounding of the radii: with the radii as
/// they are it is no more than 1, with each a unit longer it is more than 1.
pub proof fn law_apsk64_has_unit_power(gamma1: Ratio, gamma2: Ratio, gamma3: Ratio)
    requires
        gamma1.den > 0,
        gamma2.den > 0,
        gamma3.den > 0,
        constellation::below(constellation::unit_ratio(), gamma1),
        constellation::below(gamma1, gamma2),
        constellation::below(gamma2, gamma3),
    ensures
        ({
            let radii = constellation::radii_64(gamma1, gamma2, gamma3);
            &&& 4 * (radii[0] * radii[0]) + 12 * (radii[1] * radii[1]) + 20 * (radii[2] * radii[2]) + 28 * (radii[3] * radii[3]) <= 64 * (ONE * ONE)
            &&& 64 * (ONE * ONE) < 4 * ((radii[0] + 1) * (radii[0] + 1)) + 12 * ((radii[1] + 1) * (radii[1] + 1)) + 20 * ((radii[2] + 1) * (radii[2] + 1)) + 28 * ((radii[3] + 1) * (radii[3] + 1))
        }),
{
    let radii = constellation::radii_64(gamma1, gamma2, gamma3);
    lemma_proportions(gamma1, gamma2, gamma3);
    let a = (gamma1.den * gamma2.den * gamma3.den) as int;
    let b = (gamma1.num * gamma2.den * gamma3.den) as int;
    let c = (gamma2.num * gamma1.den * gamma3.den) as int;
    let d = (gamma3.num * gamma1.den * gamma2.den) as int;
    let f = seq![a, b, c, d];
    let t = a * a + 3 * (b * b) + 5 * (c * c) + 7 * (d * d);
    lemma_square_order(1, a);
    lemma_square_order(a, b);
    lemma_square_order(b, c);
    lemma_square_order(c, d);
    assert(are_rings(f, 16, t));
    lemma_radius_bounds(f, 16, t, 0);
    lemma_radius_bounds(f, 16, t, 1);
    lemma_radius_bounds(f, 16, t, 2);
    lemma_radius_bounds(f, 16, t, 3);
    lemma_power_share(radii[0], a, 16, t);
    lemma_power_share(radii[1], b, 16, t);
    lemma_power_share(radii[2], c, 16, t);
    lemma_power_share(radii[3], d, 16, t);
    let unit = ONE * ONE;
    let low = 4 * (radii[0] * radii[0]) + 12 * (radii[1] * radii[1]) + 20 * (radii[2] * radii[2]) + 28 * (radii[3] * radii[3]);
    let high = 4 * ((radii[0] + 1) * (radii[0] + 1)) + 12 * ((radii[1] + 1) * (radii[1] + 1)) + 20 * ((radii[2] + 1) * (radii[2] + 1)) + 28 * ((radii[3] + 1) * (radii[3] + 1));
    let (p0, p1, p2, p3) = (
        radii[0] * radii[0],
        radii[1] * radii[1],
        radii[2] * radii[2],
        radii[3] * radii[3],
    );
    let (h0, h1, h2, h3) = (
        (radii[0] + 1) * (radii[0] + 1),
        (radii[1] + 1) * (radii[1] + 1),
        (radii[2] + 1) * (radii[2] + 1),
        (radii[3] + 1) * (radii[3] + 1),
    );
    lemma_weighted(p0, p1, p2, p3, t);
    lemma_weighted(h0, h1, h2, h3, t);
    let (q0, q1, q2, q3) = (a * a, b * b, c * c, d * d);
    assert((64 * unit) * t == 64 * (q0 * unit) + 192 * (q1 * unit) + 320 * (q2 * unit) + 448 * (q3
        * unit)) by (nonlinear_arith)
        requires
            t == q0 + 3 * q1 + 5 * q2 + 7 * q3,
    ;
    lemma_cancel(low, 64 * unit, t);
    lemma_cancel_strict(64 * unit, high, t);
}

// ---------------------------------------------------------------------------
// Ring ratios
// ---------------------------------------------------------------------------

/// Rounded radii stand to each other as their proportions do.
proof fn lemma_radii_in_proportion(f: Seq<int>, s: int, t: int, i: int, j: int)
    requires
        are_rings(f, s, t),
        0 <= i < f.len(),
        0 <= j < f.len(),
    ensures
        radius_of(f, s, t, i) * f[j] < (radius_of(f, s, t, j) + 1) * f[i],
{
    lemma_radius_bounds(f, s, t, i);
    lemma_radius_bounds(f, s, t, j);
    let (u, v) = (f[i], f[j]);
    let (r, x) = (radius_of(f, s, t, i), radius_of(f, s, t, j) + 1);
    let unit = ONE * ONE;
    assert(f[0] <= u && f[0] <= v);
    assert((r * v) * (r * v) * t == (r * r * t) * (v * v)) by (nonlinear_arith);
    assert((x * u) * (x * u) * t == (x * x * t) * (u * u)) by (nonlinear_arith);
    assert((r * r * t) * (v * v) <= (s * (u * u) * unit) * (v * v)) by (nonlinear_arith)
        requires
            r * r * t <= s * (u * u) * unit,
    ;
    assert((s * (v * v) * unit) * (u * u) < (x * x * t) * (u * u)) by (nonlinear_arith)
        requires
            s * (v * v) * unit < x * x * t,
            u >= 1,
    ;
    assert((s * (u * u) * unit) * (v * v) == (s * (v * v) * unit) * (u * u)) by (nonlinear_arith);
    lemma_cancel_strict((r * v) * (r * v), (x * u) * (x * u), t);
    assert(r * v < x * u) by (nonlinear_arith)
        requires
            (r * v) * (r * v) < (x * u) * (x * u),
            x >= 0,
            u >= 1,
    ;
}

/// What holds of proportions holds of the ratio that they write.
proof fn lemma_keeps_ratio(inner: int, outer: int, gamma: Ratio, rest: int, a: int, b: int)
    requires
        a == gamma.den * rest,
        b == gamma.num * rest,
        rest >= 1,
        outer * a < (inner + 1) * b,
        inner * b < (outer + 1) * a,
    ensures
        constellation::keeps_ratio(inner, outer, gamma),
{
    let (n, d) = (gamma.num as int, gamma.den as int);
    assert(outer * a == (outer * d) * rest && (inner + 1) * b == ((inner + 1) * n) * rest && inner
        * b == (inner * n) * rest && (outer + 1) * a == ((outer + 1) * d) * rest)
        by (nonlinear_arith)
        requires
            a == d * rest,
            b == n * rest,
    ;
    lemma_cancel_strict(outer * d, (inner + 1) * n, rest);
    lemma_cancel_strict(inner * n, (outer + 1) * d, rest);
}

/// As `lemma_keeps_ratio`, for a common factor of two parts.
proof fn lemma_ratio_of_proportions(
    inner: int,
    outer: int,
    gamma: Ratio,
    x: int,
    y: int,
    a: int,
    b: int,
)
    requires
        a == gamma.den * x * y || a == x * gamma.den * y || a == x * y * gamma.den,
        b == gamma.num * x * y,
        x >= 1,
        y >= 1,
        outer * a < (inner + 1) * b,
        inner * b < (outer + 1) * a,
    ensures
        constellation::keeps_ratio(inner, outer, gamma),
{
    let rest = x * y;
    let (n, d) = (gamma.num as int, gamma.den as int);
    assert(a == d * rest && b == n * rest && rest >= 1) by (nonlinear_arith)
        requires
            a == d * x * y || a == x * d * y || a == x * y * d,
            b == n * x * y,
            rest == x * y,
            x >= 1,
            y >= 1,
    ;
    lemma_keeps_ratio(inner, outer, gamma, rest, a, b);
}

/// The radii of 16-APSK stand to each other as asked, up to their rounding.
pub proof fn law_apsk16_rings_keep_their_ratio(gamma: Ratio)
    requires
        gamma.den > 0,
        constellation::below(constellation::unit_ratio(), gamma),
    ensures
        ({
            let radii = constellation::radii_16(gamma);
            &&& constellation::keeps_ratio(radii[0], radii[1], gamma)
        }),
{
    let radii = constellation::radii_16(gamma);
    let one = constellation::unit_ratio();
    lemma_proportions(gamma, one, one);
    let a = (gamma.den * one.den * one.den) as int;
    let b = (gamma.num * one.den * one.den) as int;
    let f = seq![a, b];
    let t = a * a + 3 * (b * b);
    lemma_square_order(1, a);
    lemma_square_order(a, b);
    assert(are_rings(f, 4, t));
    lemma_radii_in_proportion(f, 4, t, 1, 0);
    lemma_radii_in_proportion(f, 4, t, 0, 1);
    lemma_ratio_of_proportions(
        radii[0],
        radii[1],
        gamma,
        one.den as int,
        one.den as int,
        a,
        b,
    );
}

/// The radii of 32-APSK stand to each other as asked, up to their rounding.
pub proof fn law_apsk32_rings_keep_their_ratios(gamma1: Ratio, gamma2: Ratio)
    requires
        gamma1.den > 0,
        gamma2.den > 0,
        constellation::below(constellation::unit_ratio(), gamma1),
        constellation::below(gamma1, gamma2),
    ensures
        ({
            let radii = constellation::radii_32(gamma1, gamma2);
            &&& constellation::keeps_ratio(radii[0], radii[1], gamma1)
            &&& constellation::keeps_ratio(radii[0], radii[2], gamma2)
        }),
{
    let radii = constellation::radii_32(gamma1, gamma2);
    let one = constellation::unit_ratio();
    lemma_proportions(gamma1, gamma2, one);
    let a = (gamma1.den * gamma2.den * one.den) as int;
    let b = (gamma1.num * gamma2.den * one.den) as int;
    let c = (gamma2.num * gamma1.den * one.den) as int;
    let f = seq![a, b, c];
    let t = a * a + 3 * (b * b) + 4 * (c * c);
    lemma_square_order(1, a);
    lemma_square_order(a, b);
    lemma_square_order(b, c);
    assert(are_rings(f, 8, t));
    lemma_radii_in_proportion(f, 8, t, 1, 0);
    lemma_radii_in_proportion(f, 8, t, 0, 1);
    lemma_ratio_of_proportions(
        radii[0],
        radii[1],
        gamma1,
        gamma2.den as int,
        one.den as int,
        a,
        b,
    );
    lemma_radii_in_proportion(f, 8, t, 2, 0);
    lemma_radii_in_proportion(f, 8, t, 0, 2);
    lemma_ratio_of_proportions(
        radii[0],
        radii[2],
        gamma2,
        gamma1.den as int,
        one.den as int,
        a,
        c,
    );
}

/// The radii of 64-APSK stand to each other as asked, up to their rounding.
pub proof fn law_apsk64_rings_keep_their_ratios(gamma1: Ratio, gamma2: Ratio, gamma3: Ratio)
    requires
        gamma1.den > 0,
        gamma2.den > 0,
        gamma3.den > 0,
        constellation::below(constellation::unit_ratio(), gamma1),
        constellation::below(gamma1, gamma2),
        constellation::below(gamma2, gamma3),
    ensures
        ({
            let radii = constellation::radii_64(gamma1, gamma2, gamma3);
            &&& constellation::keeps_ratio(radii[0], radii[1], gamma1)
            &&& constellation::keeps_ratio(radii[0], radii[2], gamma2)
            &&& constellation::keeps_ratio(radii[0], radii[3], gamma3)
        }),
{
    let radii = constellation::radii_64(gamma1, gamma2, gamma3);
    lemma_proportions(gamma1, gamma2, gamma3);
    let a = (gamma1.den * gamma2.den * gamma3.den) as int;
    let b = (gamma1.num * gamma2.den * gamma3.den) as int;
    let c = (gamma2.num * gamma1.den * gamma3.den) as int;
    let d = (gamma3.num * gamma1.den * gamma2.den) as int;
    let f = seq![a, b, c, d];
    let t = a * a + 3 * (b * b) + 5 * (c * c) + 7 * (d * d);
    lemma_square_order(1, a);
    lemma_square_order(a, b);
    lemma_square_order(b, c);
    lemma_square_order(c, d);
    assert(are_rings(f, 16, t));
    lemma_radii_in_proportion(f, 16, t, 1, 0);
    lemma_radii_in_proportion(f, 16, t, 0, 1);
    lemma_ratio_of_proportions(
        radii[0],
        radii[1],
        gamma1,
        gamma2.den as int,
        gamma3.den as int,
        a,
        b,
    );
    lemma_radii_in_proportion(f, 16, t, 2, 0);
    lemma_radii_in_proportion(f, 16, t, 0, 2);
    lemma_ratio_of_proportions(
        radii[0],
        radii[2],
        gamma2,
        gamma1.den as int,
        gamma3.den as int,
        a,
        c,
    );
    lemma_radii_in_proportion(f, 16, t, 3, 0);
    lemma_radii_in_proportion(f, 16, t, 0, 3);
    lemma_ratio_of_proportions(
        radii[0],
        radii[3],
        gamma3,
        gamma1.den as int,
        gamma2.den as int,
        a,
        d,
    );
}

// ---------------------------------------------------------------------------
// Power of the points
// ---------------------------------------------------------------------------

/// A point lies on a ring, up to rounding: its distance from the origin is off by about eight
/// units at most.
pub open spec fn on_ring(p: Symbol, r: int) -> bool {
    r * r - 16 * r <= constellation::power_at(p) <= r * r + 16 * r
}

/// The square of a scaled coordinate, up to rounding.
proof fn lemma_scaled_square(c: int, r: int)
    requires
        -ONE <= c <= ONE,
        0 <= r <= 4 * ONE,
    ensures
        ({
            let x = ring::scaled_coordinate(c, r);
            let sq = ONE * ONE;
            (r * r) * (c * c) - 2 * (r * sq) <= (x * x) * sq <= (r * r) * (c * c)
        }),
{
    let one = ONE as int;
    let m = if c >= 0 {
        c
    } else {
        -c
    };
    let y = r * m / one;
    let x = ring::scaled_coordinate(c, r);
    let p = r * m;
    assert(0 <= p <= r * one) by (nonlinear_arith)
        requires
            p == r * m,
            0 <= m <= one,
            0 <= r,
    ;
    assert(0 <= y && y * one <= p < y * one + one);
    assert(x * x == y * y) by (nonlinear_arith)
        requires
            x == y || x == -y,
    ;
    assert((r * r) * (c * c) == p * p) by (nonlinear_arith)
        requires
            p == r * m,
            m == c || m == -c,
    ;
    let z = y * one;
    assert((y * y) * (one * one) == z * z) by (nonlinear_arith)
        requires
            z == y * one,
    ;
    assert(z * z <= p * p && p * p - 2 * (p * one) <= z * z) by (nonlinear_arith)
        requires
            0 <= z <= p < z + one,
            one > 0,
    ;
    assert(p * one <= r * (one * one)) by (nonlinear_arith)
        requires
            p <= r * one,
            one > 0,
    ;
}

/// A direction times a radius lies on the ring of that radius.
pub proof fn law_scaled_directions_lie_on_their_ring(s: Symbol, r: int)
    requires
        ring::near_unit(s),
        0 <= r <= 4 * ONE,
    ensures
        on_ring(ring::scaled(s, r), r),
{
    let one = ONE as int;
    let sq = one * one;
    lemma_scaled_fits(s.re as int, r);
    lemma_scaled_fits(s.im as int, r);
    lemma_scaled_square(s.re as int, r);
    lemma_scaled_square(s.im as int, r);
    let x = ring::scaled_coordinate(s.re as int, r);
    let y = ring::scaled_coordinate(s.im as int, r);
    let norm = s.re * s.re + s.im * s.im;
    assert((r * r) * (s.re * s.re) + (r * r) * (s.im * s.im) == (r * r) * norm)
        by (nonlinear_arith)
        requires
            norm == s.re * s.re + s.im * s.im,
    ;
    assert((r * r) * (sq - 2 * one) <= (r * r) * norm <= (r * r) * (sq + 2 * one))
        by (nonlinear_arith)
        requires
            sq - 2 * one <= norm <= sq + 2 * one,
    ;
    assert((r * r) * (2 * one) <= 8 * (r * sq)) by (nonlinear_arith)
        requires
            0 <= r <= 4 * one,
            sq == one * one,
    ;
    assert((r * r) * (sq - 2 * one) == (r * r) * sq - (r * r) * (2 * one) && (r * r) * (sq + 2
        * one) == (r * r) * sq + (r * r) * (2 * one)) by (nonlinear_arith);
    let p = x * x + y * y;
    assert(p * sq == (x * x) * sq + (y * y) * sq) by (nonlinear_arith)
        requires
            p == x * x + y * y,
    ;
    assert(r * sq >= 0) by (nonlinear_arith)
        requires
            r >= 0,
            sq == one * one,
    ;
    assert((r * r - 16 * r) * sq == (r * r) * sq - 16 * (r * sq) && (r * r + 16 * r) * sq == (r
        * r) * sq + 16 * (r * sq)) by (nonlinear_arith);
    lemma_cancel(r * r - 16 * r, p, sq);
    lemma_cancel(p, r * r + 16 * r, sq);
}

/// Squares of the radii of the rings on which the first `n` labels stand, together.
spec fn ring_sum(rings: Seq<u8>, radii: Seq<int>, n: nat) -> int
    decreases n,
{
    if n == 0 {
        0
    } else {
        ring_sum(rings, radii, (n - 1) as nat) + radii[rings[n - 1] - 1] * radii[rings[n - 1] - 1]
    }
}

/// The power of points on rings is that of their rings, up to rounding.
proof fn lemma_power_of_rings(points: Seq<Symbol>, rings: Seq<u8>, radii: Seq<int>, n: nat)
    requires
        n <= points.len(),
        forall|i: int| 0 <= i < n ==> on_ring(#[trigger] points[i], radii[rings[i] - 1]),
        forall|i: int| 0 <= i < n ==> 0 <= radii[#[trigger] rings[i] - 1] <= 4 * ONE,
    ensures
        -(n * (64 * ONE)) <= constellation::power_of(points.take(n as int)) - ring_sum(
            rings,
            radii,
            n,
        ) <= n * (64 * ONE),
    decreases n,
{
    if n > 0 {
        let m = (n - 1) as nat;
        lemma_power_of_rings(points, rings, radii, m);
        assert(points.take(n as int).drop_last() =~= points.take(m as int));
        assert(points.take(n as int).last() == points[m as int]);
        assert(on_ring(points[m as int], radii[rings[m as int] - 1]));
        assert(0 <= radii[rings[m as int] - 1] <= 4 * ONE);
        assert(n * (64 * ONE) == m * (64 * ONE) + 64 * ONE) by (nonlinear_arith)
            requires
                n == m + 1,
        ;
    }
}

/// The square of the next number.
proof fn lemma_next_square(r: int)
    ensures
        (r + 1) * (r + 1) == r * r + 2 * r + 1,
{
    assert((r + 1) * (r + 1) == r * r + 2 * r + 1) by (nonlinear_arith);
}

/// How many labels of 16-APSK each ring has.
proof fn lemma_ring_counts_16(radii: Seq<int>)
    requires
        radii.len() == 2,
    ensures
        ring_sum(apsk::RING_16@, radii, 16) == 4 * (radii[0] * radii[0]) + 12 * (radii[1] * radii[1]),
{
    reveal_with_fuel(ring_sum, 17);
}

/// The mean power of the points of 16-APSK is 1, up to rounding.
pub proof fn law_apsk16_points_have_unit_power(gamma: Ratio)
    requires
        gamma.den > 0,
        constellation::below(constellation::unit_ratio(), gamma),
    ensures
        constellation::has_unit_power(
            Seq::new(
                16,
                |label: int|
                    apsk::point_at(apsk::place_16(label), constellation::radii_16(gamma)),
            ),
        ),
{
    let radii = constellation::radii_16(gamma);
    let points = Seq::new(16, |label: int| apsk::point_at(apsk::place_16(label), radii));
    let one = constellation::unit_ratio();
    lemma_proportions(gamma, one, one);
    let a = (gamma.den * one.den * one.den) as int;
    let b = (gamma.num * one.den * one.den) as int;
    let f = seq![a, b];
    let t = a * a + 3 * (b * b);
    lemma_square_order(1, a);
    lemma_square_order(a, b);
    assert(are_rings(f, 4, t));
    lemma_radius_bounds(f, 4, t, 0);
    lemma_radius_bounds(f, 4, t, 1);
    assert forall|i: int| 0 <= i < 16 implies on_ring(
        #[trigger] points[i],
        radii[apsk::RING_16@[i] - 1],
    ) by {
        apsk::lemma_place_tells_label_16(i);
        let p = apsk::place_16(i);
        ring::law_directions_lie_on_the_unit_circle(p.num as int, p.den as int);
        let r = radii[p.ring - 1];
        assert(r == radius_of(f, 4, t, p.ring - 1));
        lemma_radius_bounds(f, 4, t, p.ring - 1);
        law_scaled_directions_lie_on_their_ring(
            ring::direction_of(p.num as int, p.den as int),
            r,
        );
    }
    assert forall|i: int| 0 <= i < 16 implies 0 <= radii[#[trigger] apsk::RING_16@[i] - 1]
        <= 4 * ONE by {
        apsk::lemma_place_tells_label_16(i);
        let p = apsk::place_16(i);
        lemma_radius_bounds(f, 4, t, p.ring - 1);
    }
    lemma_power_of_rings(points, apsk::RING_16@, radii, 16);
    assert(points.take(16) =~= points);
    lemma_ring_counts_16(radii);
    law_apsk16_has_unit_power(gamma);
    lemma_next_square(radii[0]);
    lemma_next_square(radii[1]);
}

/// How many labels of 32-APSK each ring has.
proof fn lemma_ring_counts_32(radii: Seq<int>)
    requires
        radii.len() == 3,
    ensures
        ring_sum(apsk::RING_32@, radii, 32) == 4 * (radii[0] * radii[0]) + 12 * (radii[1] * radii[1])
            + 16 * (radii[2] * radii[2]),
{
    reveal_with_fuel(ring_sum, 33);
}

/// The mean power of the points of 32-APSK is 1, up to rounding.
pub proof fn law_apsk32_points_have_unit_power(gamma1: Ratio, gamma2: Ratio)
    requires
        gamma1.den > 0,
        gamma2.den > 0,
        constellation::below(constellation::unit_ratio(), gamma1),
        constellation::below(gamma1, gamma2),
    ensures
        constellation::has_unit_power(
            Seq::new(
                32,
                |label: int|
                    apsk::point_at(apsk::place_32(label), constellation::radii_32(gamma1, gamma2)),
            ),
        ),
{
    let radii = constellation::radii_32(gamma1, gamma2);
    let points = Seq::new(32, |label: int| apsk::point_at(apsk::place_32(label), radii));
    let one = constellation::unit_ratio();
    lemma_proportions(gamma1, gamma2, one);
    let a = (gamma1.den * gamma2.den * one.den) as int;
    let b = (gamma1.num * gamma2.den * one.den) as int;
    let c = (gamma2.num * gamma1.den * one.den) as int;
    let f = seq![a, b, c];
    let t = a * a + 3 * (b * b) + 4 * (c * c);
    lemma_square_order(1, a);
    lemma_square_order(a, b);
    lemma_square_order(b, c);
    assert(are_rings(f, 8, t));
    lemma_radius_bounds(f, 8, t, 0);
    lemma_radius_bounds(f, 8, t, 1);
    lemma_radius_bounds(f, 8, t, 2);
    assert forall|i: int| 0 <= i < 32 implies on_ring(
        #[trigger] points[i],
        radii[apsk::RING_32@[i] - 1],
    ) by {
        apsk::lemma_place_tells_label_32(i);
        let p = apsk::place_32(i);
        ring::law_directions_lie_on_the_unit_circle(p.num as int, p.den as int);
        let r = radii[p.ring - 1];
        assert(r == radius_of(f, 8, t, p.ring - 1));
        lemma_radius_bounds(f, 8, t, p.ring - 1);
        law_scaled_directions_lie_on_their_ring(
            ring::direction_of(p.num as int, p.den as int),
            r,
        );
    }
    assert forall|i: int| 0 <= i < 32 implies 0 <= radii[#[trigger] apsk::RING_32@[i] - 1]
        <= 4 * ONE by {
        apsk::lemma_place_tells_label_32(i);
        let p = apsk::place_32(i);
        lemma_radius_bounds(f, 8, t, p.ring - 1);
    }
    lemma_power_of_rings(points, apsk::RING_32@, radii, 32);
    assert(points.take(32) =~= points);
    lemma_ring_counts_32(radii);
    law_apsk32_has_unit_power(gamma1, gamma2);
    lemma_next_square(radii[0]);
    lemma_next_square(radii[1]);
    lemma_next_square(radii[2]);
}

/// How many labels of 64-APSK each ring has.
proof fn lemma_ring_counts_64(radii: Seq<int>)
    requires
        radii.len() == 4,
    ensures
        ring_sum(apsk::RING_64@, radii, 64) == 4 * (radii[0] * radii[0]) + 12 * (radii[1] * radii[1])
            + 20 * (radii[2] * radii[2]) + 28 * (radii[3] * radii[3]),
{
    reveal_with_fuel(ring_sum, 65);
}

/// The mean power of the points of 64-APSK is 1, up to rounding.
pub proof fn law_apsk64_points_have_unit_power(gamma1: Ratio, gamma2: Ratio, gamma3: Ratio)
    requires
        gamma1.den > 0,
        gamma2.den > 0,
        gamma3.den > 0,
        constellation::below(constellation::unit_ratio(), gamma1),
        constellation::below(gamma1, gamma2),
        constellation::below(gamma2, gamma3),
    ensures
        constellation::has_unit_power(
            Seq::new(
                64,
                |label: int|
                    apsk::point_at(
                        apsk::place_64(label),
                        constellation::radii_64(gamma1, gamma2, gamma3),
                    ),
            ),
        ),
{
    let radii = constellation::radii_64(gamma1, gamma2, gamma3);
    let points = Seq::new(64, |label: int| apsk::point_at(apsk::place_64(label), radii));
    lemma_proportions(gamma1, gamma2, gamma3);
    let a = (gamma1.den * gamma2.den * gamma3.den) as int;
    let b = (gamma1.num * gamma2.den * gamma3.den) as int;
    let c = (gamma2.num * gamma1.den * gamma3.den) as int;
    let d = (gamma3.num * gamma1.den * gamma2.den) as int;
    let f = seq![a, b, c, d];
    let t = a * a + 3 * (b * b) + 5 * (c * c) + 7 * (d * d);
    lemma_square_order(1, a);
    lemma_square_order(a, b);
    lemma_square_order(b, c);
    lemma_square_order(c, d);
    assert(are_rings(f, 16, t));
    lemma_radius_bounds(f, 16, t, 0);
    lemma_radius_bounds(f, 16, t, 1);
    lemma_radius_bounds(f, 16, t, 2);
    lemma_radius_bounds(f, 16, t, 3);
    assert forall|i: int| 0 <= i < 64 implies on_ring(
        #[trigger] points[i],
        radii[apsk::RING_64@[i] - 1],
    ) by {
        apsk::lemma_place_tells_label_64(i);
        let p = apsk::place_64(i);
        ring::law_directions_lie_on_the_unit_circle(p.num as int, p.den as int);
        let r = radii[p.ring - 1];
        assert(r == radius_of(f, 16, t, p.ring - 1));
        lemma_radius_bounds(f, 16, t, p.ring - 1);
        law_scaled_directions_lie_on_their_ring(
            ring::direction_of(p.num as int, p.den as int),
            r,
        );
    }
    assert forall|i: int| 0 <= i < 64 implies 0 <= radii[#[trigger] apsk::RING_64@[i] - 1]
        <= 4 * ONE by {
        apsk::lemma_place_tells_label_64(i);
        let p = apsk::place_64(i);
        lemma_radius_bounds(f, 16, t, p.ring - 1);
    }
    lemma_power_of_rings(points, apsk::RING_64@, radii, 64);
    assert(points.take(64) =~= points);
    lemma_ring_counts_64(radii);
    law_apsk64_has_unit_power(gamma1, gamma2, gamma3);
    lemma_next_square(radii[0]);
    lemma_next_square(radii[1]);
    lemma_next_square(radii[2]);
    lemma_next_square(radii[3]);
}

/// The points of 16-APSK lie on their rings.
pub proof fn law_points_of_16_lie_on_their_rings(gamma: Ratio, label: int)
    requires
        gamma.den > 0,
        constellation::below(constellation::unit_ratio(), gamma),
        0 <= label < 16,
    ensures
        on_ring(
            apsk::point_at(apsk::place_16(label), constellation::radii_16(gamma)),
            constellation::radii_16(gamma)[apsk::place_16(label).ring - 1],
        ),
{
    let radii = constellation::radii_16(gamma);
    let one = constellation::unit_ratio();
    lemma_proportions(gamma, one, one);
    let a = (gamma.den * one.den * one.den) as int;
    let b = (gamma.num * one.den * one.den) as int;
    let f = seq![a, b];
    let t = a * a + 3 * (b * b);
    lemma_square_order(1, a);
    lemma_square_order(a, b);
    assert(are_rings(f, 4, t));
    apsk::lemma_place_tells_label_16(label);
    let p = apsk::place_16(label);
    ring::law_directions_lie_on_the_unit_circle(p.num as int, p.den as int);
    let r = radii[p.ring - 1];
    assert(r == radius_of(f, 4, t, p.ring - 1));
    lemma_radius_bounds(f, 4, t, p.ring - 1);
    law_scaled_directions_lie_on_their_ring(ring::direction_of(p.num as int, p.den as int), r);
}

/// The points of 32-APSK lie on their rings.
pub proof fn law_points_of_32_lie_on_their_rings(gamma1: Ratio, gamma2: Ratio, label: int)
    requires
        gamma1.den > 0,
        gamma2.den > 0,
        constellation::below(constellation::unit_ratio(), gamma1),
        constellation::below(gamma1, gamma2),
        0 <= label < 32,
    ensures
        on_ring(
            apsk::point_at(apsk::place_32(label), constellation::radii_32(gamma1, gamma2)),
            constellation::radii_32(gamma1, gamma2)[apsk::place_32(label).ring - 1],
        ),
{
    let radii = constellation::radii_32(gamma1, gamma2);
    let one = constellation::unit_ratio();
    lemma_proportions(gamma1, gamma2, one);
    let a = (gamma1.den * gamma2.den * one.den) as int;
    let b = (gamma1.num * gamma2.den * one.den) as int;
    let c = (gamma2.num * gamma1.den * one.den) as int;
    let f = seq![a, b, c];
    let t = a * a + 3 * (b * b) + 4 * (c * c);
    lemma_square_order(1, a);
    lemma_square_order(a, b);
    lemma_square_order(b, c);
    assert(are_rings(f, 8, t));
    apsk::lemma_place_tells_label_32(label);
    let p = apsk::place_32(label);
    ring::law_directions_lie_on_the_unit_circle(p.num as int, p.den as int);
    let r = radii[p.ring - 1];
    assert(r == radius_of(f, 8, t, p.ring - 1));
    lemma_radius_bounds(f, 8, t, p.ring - 1);
    law_scaled_directions_lie_on_their_ring(ring::direction_of(p.num as int, p.den as int), r);
}

/// The points of 64-APSK lie on their rings.
pub proof fn law_points_of_64_lie_on_their_rings(gamma1: Ratio, gamma2: Ratio, gamma3: Ratio, label: int)
    requires
        gamma1.den > 0,
        gamma2.den > 0,
        gamma3.den > 0,
        constellation::below(constellation::unit_ratio(), gamma1),
        constellation::below(gamma1, gamma2),
        constellation::below(gamma2, gamma3),
        0 <= label < 64,
    ensures
        on_ring(
            apsk::point_at(apsk::place_64(label), constellation::radii_64(gamma1, gamma2, gamma3)),
            constellation::radii_64(gamma1, gamma2, gamma3)[apsk::place_64(label).ring - 1],
        ),
{
    let radii = constellation::radii_64(gamma1, gamma2, gamma3);
    lemma_proportions(gamma1, gamma2, gamma3);
    let a = (gamma1.den * gamma2.den * gamma3.den) as int;
    let b = (gamma1.num * gamma2.den * gamma3.den) as int;
    let c = (gamma2.num * gamma1.den * gamma3.den) as int;
    let d = (gamma3.num * gamma1.den * gamma2.den) as int;
    let f = seq![a, b, c, d];
    let t = a * a + 3 * (b * b) + 5 * (c * c) + 7 * (d * d);
    lemma_square_order(1, a);
    lemma_square_order(a, b);
    lemma_square_order(b, c);
    lemma_square_order(c, d);
    assert(are_rings(f, 16, t));
    apsk::lemma_place_tells_label_64(label);
    let p = apsk::place_64(label);
    ring::law_directions_lie_on_the_unit_circle(p.num as int, p.den as int);
    let r = radii[p.ring - 1];
    assert(r == radius_of(f, 16, t, p.ring - 1));
    lemma_radius_bounds(f, 16, t, p.ring - 1);
    law_scaled_directions_lie_on_their_ring(ring::direction_of(p.num as int, p.den as int), r);
}

} // verus!
