//! The points of a session that are kept for display.

use vstd::prelude::*;

verus! {

/// Most points that are kept.
pub const MAX_POINTS: usize = 500;

/// Every how many points of a segment one is kept, where `have` points are there.
pub open spec fn point_step(have: int, n: int) -> int {
    let s = n / (MAX_POINTS - have);
    if s >= 1 {
        s
    } else {
        1
    }
}

/// How many of the `n` points of a segment are kept, where `have` points are there.
pub open spec fn point_count(have: int, n: int) -> int {
    let spread = (n + point_step(have, n) - 1) / point_step(have, n);
    if spread <= MAX_POINTS - have {
        spread
    } else {
        MAX_POINTS - have
    }
}

/// The points of a segment that are kept: evenly spread over it, as many as there is
/// room for.
pub open spec fn kept_points<T>(have: int, points: Seq<T>) -> Seq<T> {
    if have >= MAX_POINTS {
        seq![]
    } else {
        Seq::new(
            point_count(have, points.len() as int) as nat,
            |t: int| points[t * point_step(have, points.len() as int)],
        )
    }
}

/// The number of kept points is the one at which the points or the room end.
proof fn lemma_count(have: int, n: int, t: int)
    requires
        0 <= have < MAX_POINTS,
        0 <= n,
        0 <= t <= MAX_POINTS - have,
        t > 0 ==> (t - 1) * point_step(have, n) < n,
        t == MAX_POINTS - have || t * point_step(have, n) >= n,
    ensures
        t == point_count(have, n),
{
    let step = point_step(have, n);
    assert((t - 1) * step == t * step - step) by (nonlinear_arith);
    if t * step >= n {
        if t > 0 {
            vstd::arithmetic::div_mod::lemma_fundamental_div_mod_converse(
                n + step - 1,
                step,
                t,
                n + step - 1 - t * step,
            );
        } else {
            assert(0 * step == 0);
            vstd::arithmetic::div_mod::lemma_fundamental_div_mod_converse(
                n + step - 1,
                step,
                0,
                n + step - 1,
            );
        }
    } else {
        assert((n + step - 1) / step >= t) by (nonlinear_arith)
            requires
                n + step - 1 >= t * step,
                step >= 1,
        ;
    }
}

/// Add the points of a segment to the sample.
pub fn add_points<T: Copy>(sample: &mut Vec<T>, points: &[T])
    ensures
        final(sample)@ == old(sample)@ + kept_points(old(sample)@.len() as int, points@),
{
    let have: usize = sample.len();
    if have >= MAX_POINTS {
        assert(sample@ =~= sample@ + kept_points(have as int, points@));
        return;
    }
    let ghost before = sample@;
    let n: usize = points.len();
    let room: usize = MAX_POINTS - have;
    let step: usize = if n / room >= 1 {
        n / room
    } else {
        1
    };
    let mut t: usize = 0;
    let mut i: usize = 0;
    while i < n && t < room
        invariant
            n == points@.len(),
            0 <= have < MAX_POINTS,
            have == before.len(),
            room == MAX_POINTS - have,
            step == point_step(have as int, n as int),
            t <= room,
            t > 0 ==> (t - 1) * step < n,
            i == t * step || (i == n && t * step >= n),
            sample@.len() == before.len() + t,
            forall|j: int| 0 <= j < before.len() ==> sample@[j] == before[j],
            forall|u: int|
                0 <= u < t ==> #[trigger] sample@[before.len() + u] == points@[u * step],
        decreases room - t,
    {
        sample.push(points[i]);
        assert((t + 1) * step == t * step + step) by (nonlinear_arith);
        t = t + 1;
        i = if n - i <= step {
            n
        } else {
            i + step
        };
    }
    proof {
        lemma_count(have as int, n as int, t as int);
        assert(sample@ =~= before + kept_points(have as int, points@)) by {
            assert forall|j: int| 0 <= j < sample@.len() implies sample@[j] == (before
                + kept_points(have as int, points@))[j] by {
                if j >= before.len() {
                    let u = j - before.len();
                    assert(sample@[before.len() + u] == points@[u * step]);
                }
            }
        }
    }
}

/// The sample never grows beyond its limit, and keeps what it has.
pub proof fn law_sample_is_bounded<T>(sample: Seq<T>, points: Seq<T>)
    requires
        sample.len() <= MAX_POINTS,
    ensures
        (sample + kept_points(sample.len() as int, points)).len() <= MAX_POINTS,
        sample.is_prefix_of(sample + kept_points(sample.len() as int, points)),
{
    let have = sample.len() as int;
    if have < MAX_POINTS {
        let n = points.len() as int;
        let step = point_step(have, n);
        assert((n + step - 1) / step >= 0) by (nonlinear_arith)
            requires
                n >= 0,
                step >= 1,
        ;
    }
    assert(sample =~= (sample + kept_points(have, points)).take(have));
}

/// As many points are kept as there is room for: all of a segment that fits, and else as
/// many as bring the sample to 500. They are taken in order and evenly, from the first on.
pub proof fn law_room_is_used_evenly<T>(have: int, points: Seq<T>, t: int)
    requires
        0 <= have < 500,
    ensures
        ({
            let kept = kept_points(have, points);
            let n = points.len();
            let room = 500 - have;
            let step = if n < 2 * room {
                1
            } else {
                point_step(have, n as int)
            };
            &&& n <= room ==> kept == points
            &&& n >= room ==> kept.len() == room
            &&& 0 <= t < kept.len() ==> 0 <= t * step < n && kept[t] == points[t * step]
            &&& step * room <= n || step == 1
            &&& n < (step + 1) * room || n == 0
        }),
{
    let n = points.len() as int;
    let room = 500 - have;
    let step = point_step(have, n);
    let kept = kept_points(have, points);
    vstd::arithmetic::div_mod::lemma_fundamental_div_mod(n, room);
    let q = n / room;
    let r = n % room;
    assert(q >= 0) by (nonlinear_arith)
        requires
            n == room * q + r,
            0 <= r < room,
            n >= 0,
    ;
    assert(room * (q + 1) == room * q + room && room * q == q * room && room * (q + 1) == (q + 1)
        * room) by (nonlinear_arith);
    if n < 2 * room {
        assert(q <= 1) by (nonlinear_arith)
            requires
                n == room * q + r,
                0 <= r < room,
                n < 2 * room,
        ;
        assert(step == 1);
    }
    let spread = (n + step - 1) / step;
    vstd::arithmetic::div_mod::lemma_fundamental_div_mod(n + step - 1, step);
    let rest = (n + step - 1) % step;
    if n >= room {
        assert(q >= 1) by (nonlinear_arith)
            requires
                n == room * q + r,
                0 <= r < room,
                n >= room,
        ;
        assert(spread >= room) by (nonlinear_arith)
            requires
                n + step - 1 == step * spread + rest,
                0 <= rest < step,
                step * room <= n,
                step >= 1,
        ;
    }
    if n <= room {
        assert(step == 1) by {
            if n == room {
                assert(q == 1) by (nonlinear_arith)
                    requires
                        n == room * q + r,
                        0 <= r < room,
                        n == room,
                ;
            }
        }
        assert(spread == n);
        assert(kept =~= points);
    }
    if 0 <= t < kept.len() {
        assert(0 <= t * step < n) by (nonlinear_arith)
            requires
                0 <= t < spread,
                n + step - 1 == step * spread + rest,
                0 <= rest < step,
                step >= 1,
        ;
    }
}

} // verus!
