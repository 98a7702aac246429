//! Places that tracking by pilots goes by: the pilots of a segment, neighbours for
//! smoothing, and the two pilot groups around a symbol for interpolation.

use vstd::prelude::*;

use crate::constellation::ring;
use crate::pilot;
use crate::profile::PilotPattern;
use crate::symbol::Symbol;

verus! {

/// Where the pilots of whole group `g` start.
pub open spec fn pilot_start(d: int, p: int, g: int) -> int {
    g * (d + p) + d
}

/// Middle of the pilots of a group.
pub open spec fn pilot_centre(d: int, p: int, g: int) -> int {
    (pilot_start(d, p, g) + pilot_start(d, p, g) + p) / 2
}

/// Where the pilots of each whole group start, in a segment of `len` symbols.
pub open spec fn starts_of(len: int, d: int, p: int) -> Seq<usize> {
    Seq::new((len / (d + p)) as nat, |g: int| pilot_start(d, p, g) as usize)
}

/// Middles of the pilots of all whole groups, in a segment of `len` symbols.
pub open spec fn centres_of(len: int, d: int, p: int) -> Seq<usize> {
    Seq::new((len / (d + p)) as nat, |g: int| pilot_centre(d, p, g) as usize)
}

/// The pilots of a whole group lie within the segment.
proof fn lemma_pilots_fit(len: int, d: int, p: int, g: int)
    requires
        d >= 0,
        p >= 0,
        d + p >= 1,
        0 <= g < len / (d + p),
    ensures
        0 <= g * (d + p),
        pilot_start(d, p, g) + p <= len,
        (g + 1) * (d + p) == g * (d + p) + d + p,
{
    let w = d + p;
    let n = len / w;
    vstd::arithmetic::div_mod::lemma_fundamental_div_mod(len, w);
    assert((g + 1) * w <= n * w && n * w == w * n && (g + 1) * w == g * w + w && 0 <= g * w)
        by (nonlinear_arith)
        requires
            0 <= g < n,
            w >= 1,
    ;
}

/// Where the pilots of each whole group of a segment start.
pub fn pilot_starts(len: usize, pattern: &PilotPattern) -> (starts: Vec<usize>)
    requires
        1 <= pattern.d_syms + pattern.p_syms <= usize::MAX,
    ensures
        starts@ == starts_of(len as int, pattern.d_syms as int, pattern.p_syms as int),
        forall|g: int|
            0 <= g < starts@.len() ==> #[trigger] starts@[g] + pattern.p_syms <= len && starts@[g]
                == pilot_start(pattern.d_syms as int, pattern.p_syms as int, g),
{
    let d: usize = pattern.d_syms;
    let p: usize = pattern.p_syms;
    let n: usize = len / (d + p);
    let mut starts: Vec<usize> = Vec::new();
    let mut g: usize = 0;
    while g < n
        invariant
            g <= n,
            d + p >= 1,
            d + p <= usize::MAX,
            n == len / ((d + p) as usize),
            starts@.len() == g,
            forall|j: int|
                0 <= j < g ==> #[trigger] starts@[j] + p <= len && starts@[j] == pilot_start(
                    d as int,
                    p as int,
                    j,
                ),
        decreases n - g,
    {
        proof {
            lemma_pilots_fit(len as int, d as int, p as int, g as int);
        }
        starts.push(g * (d + p) + d);
        g = g + 1;
    }
    assert(starts@ =~= starts_of(len as int, d as int, p as int));
    starts
}

/// The middles of the pilots of the whole groups of a segment.
pub fn pilot_centres(len: usize, pattern: &PilotPattern) -> (centres: Vec<usize>)
    requires
        1 <= pattern.d_syms + pattern.p_syms <= usize::MAX,
    ensures
        centres@ == centres_of(len as int, pattern.d_syms as int, pattern.p_syms as int),
        rising(centres@),
{
    let d: usize = pattern.d_syms;
    let p: usize = pattern.p_syms;
    let starts = pilot_starts(len, pattern);
    let mut centres: Vec<usize> = Vec::new();
    let mut g: usize = 0;
    while g < starts.len()
        invariant
            g <= starts@.len(),
            p == pattern.p_syms,
            d == pattern.d_syms,
            forall|j: int|
                0 <= j < starts@.len() ==> #[trigger] starts@[j] + p <= len && starts@[j]
                    == pilot_start(d as int, p as int, j),
            centres@.len() == g,
            forall|j: int|
                0 <= j < g ==> #[trigger] centres@[j] == pilot_centre(d as int, p as int, j),
        decreases starts@.len() - g,
    {
        assert(starts@[g as int] + p <= len);
        centres.push(starts[g] + p / 2);
        g = g + 1;
    }
    assert(centres@ =~= centres_of(len as int, d as int, p as int));
    proof {
        assert forall|i: int, j: int| 0 <= i < j < centres@.len() implies centres@[i]
            < centres@[j] by {
            assert(i * (d + p) + (d + p) <= j * (d + p)) by (nonlinear_arith)
                requires
                    i < j,
                    d + p >= 1,
            ;
        }
    }
    centres
}

/// Group and number in it of the pilot at place `i` of a segment; `None` at the place of a
/// data symbol.
pub open spec fn pilot_of(i: int, d: int, p: int) -> Option<(int, int)> {
    if i % (d + p) >= d {
        Some((i / (d + p), i % (d + p) - d))
    } else {
        None
    }
}

/// Whether a pilot stands at place `i` of a segment, and which.
pub fn pilot_at(i: usize, pattern: &PilotPattern) -> (found: Option<(usize, usize)>)
    requires
        1 <= pattern.d_syms + pattern.p_syms <= usize::MAX,
    ensures
        match (pilot_of(i as int, pattern.d_syms as int, pattern.p_syms as int), found) {
            (Some(a), Some(b)) => a.0 == b.0 && a.1 == b.1,
            (None, None) => true,
            _ => false,
        },
{
    let width: usize = pattern.d_syms + pattern.p_syms;
    if i % width >= pattern.d_syms {
        Some((i / width, i % width - pattern.d_syms))
    } else {
        None
    }
}

/// The pilots of a segment that is sent are found: in every group that is full of data,
/// pilot `k` stands `k` symbols behind the start of the pilots, at the amplitude of the
/// pilots.
pub proof fn law_pilots_stand_where_they_are_looked_for(
    data: Seq<Symbol>,
    d: int,
    p: int,
    amplitude: int,
    g: int,
    k: int,
)
    requires
        d >= 1,
        p >= 0,
        0 <= k < p,
        0 <= g,
        (g + 1) * d <= data.len(),
    ensures
        ({
            let at = pilot_start(d, p, g) + k;
            let stream = pilot::with_pilots_at(data, d, p, amplitude);
            &&& pilot_of(at, d, p) == Some((g, k))
            &&& at < stream.len()
            &&& stream[at] == ring::scaled(pilot::group_pilots(g, p)[k], amplitude)
        }),
{
    let n = data.len() as int;
    let m = pilot::n_groups(n, d);
    let at = pilot_start(d, p, g) + k;
    vstd::arithmetic::div_mod::lemma_fundamental_div_mod_converse(at, d + p, g, d + k);
    vstd::arithmetic::div_mod::lemma_fundamental_div_mod(n + d - 1, d);
    assert(g + 1 <= m && (g + 1) * p <= m * p && (g + 1) * d == g * d + d && (g + 1) * p == g * p + p
        && g * (d + p) == g * d + g * p) by (nonlinear_arith)
        requires
            (g + 1) * d <= n,
            n + d - 1 == d * m + (n + d - 1) % d,
            0 <= (n + d - 1) % d < d,
            d >= 1,
            p >= 0,
            g >= 0,
    ;
}

/// A place holds a pilot or one of the symbols that are left without the pilots.
pub proof fn law_other_places_hold_data(i: int, d: int, p: int)
    requires
        i >= 0,
        d >= 1,
        p >= 0,
    ensures
        pilot_of(i, d, p) is None <==> exists|j: int|
            j >= 0 && #[trigger] pilot::data_place(j, d, p) == i,
{
    if pilot_of(i, d, p) is None {
        pilot::lemma_data_count(i, d, p);
        assert(pilot::data_place(pilot::data_count(i, d, p), d, p) == i);
    } else {
        assert forall|j: int| j >= 0 implies #[trigger] pilot::data_place(j, d, p) != i by {
            pilot::lemma_place_is_data(j, d, p);
        }
    }
}

/// The neighbours of item `i` of `n`.
pub open spec fn neighbours_of(i: int, n: int) -> (int, int) {
    (
        if i == 0 {
            0
        } else {
            i - 1
        },
        if i + 1 < n {
            i + 1
        } else {
            i
        },
    )
}

/// The neighbours of item `i` of `n`: the one before and the one behind, or itself at
/// an end.
pub fn neighbours(i: usize, n: usize) -> (span: (usize, usize))
    requires
        i < n,
    ensures
        span.0 == neighbours_of(i as int, n as int).0,
        span.1 == neighbours_of(i as int, n as int).1,
        span.1 < n,
{
    let lo: usize = if i == 0 {
        0
    } else {
        i - 1
    };
    let hi: usize = if i < n - 1 {
        i + 1
    } else {
        i
    };
    (lo, hi)
}

/// Where a symbol stands among the centres of pilot groups.
#[derive(Clone, Copy, Debug, PartialEq, Eq, Structural)]
pub enum Surroundings {
    /// Not behind the first centre.
    First,
    /// Not before the last centre.
    Last,
    /// Behind this centre and not behind the next.
    Between(usize),
}

/// Centres in rising order.
pub open spec fn rising(centres: Seq<usize>) -> bool {
    forall|i: int, j: int| 0 <= i < j < centres.len() ==> centres[i] < centres[j]
}

/// Where symbol `i` stands among the centres.
pub open spec fn surrounds(centres: Seq<usize>, i: usize, s: Surroundings) -> bool {
    match s {
        Surroundings::First => i <= centres[0],
        Surroundings::Last => i > centres[0] && i >= centres.last(),
        Surroundings::Between(j) => {
            &&& i < centres.last()
            &&& j + 1 < centres.len()
            &&& centres[j as int] < i <= centres[j + 1]
        },
    }
}

/// Find where symbol `i` stands among the centres.
pub fn surroundings(centres: &Vec<usize>, i: usize) -> (s: Surroundings)
    requires
        centres@.len() >= 1,
        rising(centres@),
    ensures
        surrounds(centres@, i, s),
{
    if i <= centres[0] {
        return Surroundings::First;
    }
    let n: usize = centres.len();
    if i >= centres[n - 1] {
        return Surroundings::Last;
    }
    let mut j: usize = 0;
    while centres[j + 1] < i
        invariant
            j + 1 < n,
            n == centres@.len(),
            centres@[j as int] < i,
            i < centres@[n - 1],
        decreases n - j,
    {
        j = j + 1;
        assert(j + 1 < n) by {
            if j + 1 >= n {
                assert(j == n - 1);
            }
        }
    }
    Surroundings::Between(j)
}

/// A symbol stands in one place among rising centres.
pub proof fn law_surroundings_are_unique(
    centres: Seq<usize>,
    i: usize,
    a: Surroundings,
    b: Surroundings,
)
    requires
        centres.len() >= 1,
        rising(centres),
        surrounds(centres, i, a),
        surrounds(centres, i, b),
    ensures
        a == b,
{
    match (a, b) {
        (Surroundings::Between(j), Surroundings::Between(k)) => {
            if j < k {
                assert(j + 1 == k || centres[j + 1] < centres[k as int]);
            } else if k < j {
                assert(k + 1 == j || centres[k + 1] < centres[j as int]);
            }
        },
        (Surroundings::First, Surroundings::Between(j)) => {
            assert(j == 0 || centres[0] < centres[j as int]);
        },
        (Surroundings::Between(j), Surroundings::First) => {
            assert(j == 0 || centres[0] < centres[j as int]);
        },
        _ => {},
    }
}

/// The pilots of whole groups stand behind `d` symbols of data each, and their middle is
/// `p / 2` symbols behind their start. There are as many groups as fit the segment.
pub proof fn law_whole_groups_are_listed(len: int, d: int, p: int, g: int, start: int)
    requires
        d >= 1,
        p >= 0,
        0 <= len <= usize::MAX,
        0 <= g,
        start == g * d + g * p,
    ensures
        g < starts_of(len, d, p).len() <==> start + d + p <= len,
        starts_of(len, d, p).len() == centres_of(len, d, p).len(),
        start + d + p <= len ==> {
            &&& starts_of(len, d, p)[g] == start + d
            &&& centres_of(len, d, p)[g] == start + d + p / 2
        },
{
    let w = d + p;
    let n = len / w;
    vstd::arithmetic::div_mod::lemma_fundamental_div_mod(len, w);
    assert(start == g * w) by (nonlinear_arith)
        requires
            start == g * d + g * p,
            w == d + p,
    ;
    assert(n >= 0) by (nonlinear_arith)
        requires
            len == w * n + len % w,
            0 <= len % w < w,
            len >= 0,
    ;
    assert(g < n <==> g * w + w <= len) by (nonlinear_arith)
        requires
            len == w * n + len % w,
            0 <= len % w < w,
            g >= 0,
    ;
    assert(g * w >= 0) by (nonlinear_arith)
        requires
            g >= 0,
            w >= 1,
    ;
}

/// The neighbours of an item are all items that are there at a distance of one at most.
pub proof fn law_neighbours_are_next_to_the_item(i: int, n: int, j: int)
    requires
        0 <= i < n,
    ensures
        neighbours_of(i, n).0 <= j <= neighbours_of(i, n).1 <==> 0 <= j < n && i - 1 <= j <= i + 1,
{
}

} // verus!
