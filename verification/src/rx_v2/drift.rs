//! Search for the clock drift between the two sound cards.
//!
//! A trial is a drift to undo before decoding: a number of ppm away from zero or
//! from the timing estimate. The caller decodes and hands back what was found. What
//! is tried next follows from what was found so far.

use vstd::prelude::*;

use crate::rx_v2::tally::Tally;

verus! {

/// A drift to try.
#[derive(Clone, Copy, Debug, PartialEq, Eq, Structural)]
pub struct Trial {
    /// Count from the timing estimate, not from zero.
    pub from_estimate: bool,
    /// Distance in ppm.
    pub delta_ppm: i32,
}

/// A trial and what it found.
#[derive(Clone, Copy, Debug, PartialEq, Eq, Structural)]
pub struct Attempt {
    pub trial: Trial,
    pub tally: Option<Tally>,
}

/// What may be tried.
#[derive(Clone, Copy, Debug, PartialEq, Eq, Structural)]
pub struct SearchOptions {
    /// There is a timing estimate of at least half a ppm.
    pub estimate_usable: bool,
    /// The grid around the best trial may be run.
    pub allow_grid: bool,
    /// The trial at zero runs even if the estimate already gave a clean decode.
    pub allow_fast_path: bool,
    /// Grid trials run side by side, four at a time.
    pub batched: bool,
}

// ---------------------------------------------------------------------------
// The best attempt
// ---------------------------------------------------------------------------

/// Position of the best of the first `n` attempts: the highest score, the first of
/// equals; `None` where none decoded.
pub open spec fn best_of(tried: Seq<Attempt>, n: int) -> Option<int>
    decreases n,
{
    if n <= 0 {
        None
    } else {
        let before = best_of(tried, n - 1);
        match tried[n - 1].tally {
            None => before,
            Some(t) => match before {
                None => Some(n - 1),
                Some(b) => if t.score() > tried[b].tally->0.score() {
                    Some(n - 1)
                } else {
                    Some(b)
                },
            },
        }
    }
}

/// The best of some attempts is one that decoded, none scores higher, and none
/// before it scores as high.
pub proof fn law_best_is_highest_and_first(tried: Seq<Attempt>, n: int, j: int)
    requires
        0 <= j < n <= tried.len(),
    ensures
        best_of(tried, n) is None ==> tried[j].tally is None,
        best_of(tried, n) matches Some(b) ==> {
            &&& 0 <= b < n
            &&& tried[b].tally is Some
            &&& tried[j].tally matches Some(t) ==> t.score() <= tried[b].tally->0.score()
            &&& j < b ==> (tried[j].tally matches Some(t) ==> t.score()
                < tried[b].tally->0.score())
        },
    decreases n,
{
    if n > 1 {
        if j < n - 1 {
            law_best_is_highest_and_first(tried, n - 1, j);
        } else {
            law_best_is_highest_and_first(tried, n - 1, n - 2);
        }
        match best_of(tried, n - 1) {
            Some(b) => {
                law_best_is_highest_and_first(tried, n - 1, b);
            },
            None => {},
        }
    }
}

/// Facts on the best of some attempts.
proof fn lemma_best(tried: Seq<Attempt>, n: int)
    requires
        0 <= n <= tried.len(),
    ensures
        best_of(tried, n) matches Some(b) ==> 0 <= b < n && tried[b].tally is Some,
{
    if n > 0 {
        law_best_is_highest_and_first(tried, n, 0);
    }
}

/// The drift at which a search goes on: that of the best attempt, else zero.
pub open spec fn center_of(tried: Seq<Attempt>, n: int) -> Trial {
    match best_of(tried, n) {
        Some(b) => tried[b].trial,
        None => Trial { from_estimate: false, delta_ppm: 0 },
    }
}

/// The best of the first `n` attempts is clean.
pub open spec fn clean_by(tried: Seq<Attempt>, n: int) -> bool {
    best_of(tried, n) matches Some(b) && tried[b].tally->0.clean()
}

/// One of the attempts from `start` to `end` is fully clean.
pub open spec fn fully_clean_in(tried: Seq<Attempt>, start: int, end: int) -> bool {
    exists|i: int| start <= i < end && is_fully_clean_at(tried, i)
}

/// An attempt is fully clean.
pub open spec fn is_fully_clean_at(tried: Seq<Attempt>, i: int) -> bool {
    tried[i].tally matches Some(t) && t.fully_clean()
}

fn best_index(tried: &Vec<Attempt>, n: usize) -> (best: Option<usize>)
    requires
        n <= tried@.len(),
    ensures
        best matches Some(b) ==> best_of(tried@, n as int) == Some(b as int) && b < n,
        best is None ==> best_of(tried@, n as int) is None,
{
    let mut best: Option<usize> = None;
    let mut i: usize = 0;
    while i < n
        invariant
            i <= n <= tried@.len(),
            best matches Some(b) ==> best_of(tried@, i as int) == Some(b as int) && b < i
                && tried@[b as int].tally is Some,
            best is None ==> best_of(tried@, i as int) is None,
        decreases n - i,
    {
        match tried[i].tally {
            None => {},
            Some(t) => {
                match best {
                    None => {
                        best = Some(i);
                    },
                    Some(b) => {
                        match tried[b].tally {
                            Some(u) => {
                                if t.score_result() > u.score_result() {
                                    best = Some(i);
                                }
                            },
                            None => {},
                        }
                    },
                }
            },
        }
        i = i + 1;
    }
    best
}

fn center(tried: &Vec<Attempt>, n: usize) -> (trial: Trial)
    requires
        n <= tried@.len(),
    ensures
        trial == center_of(tried@, n as int),
{
    match best_index(tried, n) {
        Some(b) => tried[b].trial,
        None => Trial { from_estimate: false, delta_ppm: 0 },
    }
}

fn is_clean_by(tried: &Vec<Attempt>, n: usize) -> (clean: bool)
    requires
        n <= tried@.len(),
    ensures
        clean == clean_by(tried@, n as int),
{
    proof {
        lemma_best(tried@, n as int);
    }
    match best_index(tried, n) {
        Some(b) => match tried[b].tally {
            Some(t) => t.is_clean(),
            None => false,
        },
        None => false,
    }
}

fn any_fully_clean(tried: &Vec<Attempt>, start: usize, end: usize) -> (any: bool)
    requires
        start <= end <= tried@.len(),
    ensures
        any == fully_clean_in(tried@, start as int, end as int),
{
    let mut i: usize = start;
    while i < end
        invariant
            start <= i <= end <= tried@.len(),
            forall|j: int| start <= j < i ==> !#[trigger] is_fully_clean_at(tried@, j),
        decreases end - i,
    {
        match tried[i].tally {
            Some(t) => {
                if t.is_fully_clean() {
                    assert(is_fully_clean_at(tried@, i as int));
                    return true;
                }
            },
            None => {},
        }
        assert(!is_fully_clean_at(tried@, i as int));
        i = i + 1;
    }
    false
}

// ---------------------------------------------------------------------------
// Grids
// ---------------------------------------------------------------------------

/// Distances of the grid around the best trial, one after the other.
pub open spec fn grid_delta(i: int) -> int {
    if i == 0 {
        -15
    } else if i == 1 {
        -10
    } else if i == 2 {
        -5
    } else if i == 3 {
        5
    } else if i == 4 {
        10
    } else {
        15
    }
}

/// Distances of that grid in the order in which they run side by side.
pub open spec fn batched_delta(i: int) -> int {
    if i == 0 {
        -5
    } else if i == 1 {
        5
    } else if i == 2 {
        -10
    } else if i == 3 {
        10
    } else if i == 4 {
        -15
    } else {
        15
    }
}

/// Distances of the coarse grid.
pub open spec fn coarse_delta(i: int) -> int {
    if i < 4 {
        -80 + 20 * i
    } else {
        -60 + 20 * i
    }
}

/// Distances of the fine grid.
pub open spec fn fine_delta(i: int) -> int {
    if i == 0 {
        -10
    } else if i == 1 {
        -5
    } else if i == 2 {
        5
    } else {
        10
    }
}

/// A trial at a distance from another.
pub open spec fn shifted(trial: Trial, delta: int) -> Trial {
    Trial { from_estimate: trial.from_estimate, delta_ppm: (trial.delta_ppm + delta) as i32 }
}

/// Trials stay within reach of the grids.
pub open spec fn in_range(tried: Seq<Attempt>) -> bool {
    forall|i: int| 0 <= i < tried.len() ==> -1000 <= (#[trigger] tried[i]).trial.delta_ppm <= 1000
}

fn shift(trial: Trial, delta: i32) -> (out: Trial)
    requires
        -1000 <= trial.delta_ppm <= 1000,
        -1000 <= delta <= 1000,
    ensures
        out == shifted(trial, delta as int),
{
    Trial { from_estimate: trial.from_estimate, delta_ppm: trial.delta_ppm + delta }
}

fn grid_step(i: usize, batched: bool) -> (d: i32)
    requires
        i < 6,
    ensures
        d == if batched {
            batched_delta(i as int)
        } else {
            grid_delta(i as int)
        },
        -1000 <= d <= 1000,
{
    if batched {
        match i {
            0 => -5,
            1 => 5,
            2 => -10,
            3 => 10,
            4 => -15,
            _ => 15,
        }
    } else {
        match i {
            0 => -15,
            1 => -10,
            2 => -5,
            3 => 5,
            4 => 10,
            _ => 15,
        }
    }
}

fn coarse_step(i: usize) -> (d: i32)
    requires
        i < 8,
    ensures
        d == coarse_delta(i as int),
        -1000 <= d <= 1000,
{
    if i < 4 {
        -80 + 20 * i as i32
    } else {
        -60 + 20 * i as i32
    }
}

fn fine_step(i: usize) -> (d: i32)
    requires
        i < 4,
    ensures
        d == fine_delta(i as int),
        -1000 <= d <= 1000,
{
    match i {
        0 => -10,
        1 => -5,
        2 => 5,
        _ => 10,
    }
}

/// The center of a search is within reach of the grids.
proof fn lemma_center_in_range(tried: Seq<Attempt>, n: int)
    requires
        0 <= n <= tried.len(),
        in_range(tried),
    ensures
        -1000 <= center_of(tried, n).delta_ppm <= 1000,
{
    lemma_best(tried, n);
}

// ---------------------------------------------------------------------------
// Search from a timing estimate
// ---------------------------------------------------------------------------

/// Trials at the estimate.
pub open spec fn n_estimate(o: SearchOptions) -> int {
    if o.estimate_usable {
        1
    } else {
        0
    }
}

/// Trials before the grid. The trial at zero is left out where it is not asked for
/// and the estimate gave a clean decode.
pub open spec fn n_before_grid(o: SearchOptions, tried: Seq<Attempt>) -> int {
    n_estimate(o) + (if o.allow_fast_path || !clean_by(tried, n_estimate(o)) {
        1int
    } else {
        0
    })
}

/// The grid runs: it is allowed and nothing before it was clean.
pub open spec fn grid_runs(o: SearchOptions, tried: Seq<Attempt>) -> bool {
    o.allow_grid && !clean_by(tried, n_before_grid(o, tried))
}

/// Trials of the grid that run together from trial `i` of it on.
pub open spec fn grid_batch(o: SearchOptions, i: int) -> int {
    if !o.batched {
        1
    } else if i == 0 {
        4
    } else {
        2
    }
}

/// The trials to run next, given what was tried. There are none once the search is
/// over.
pub open spec fn next_trials(o: SearchOptions, tried: Seq<Attempt>) -> Seq<Trial> {
    let n = tried.len() as int;
    let a = n_estimate(o);
    let b = n_before_grid(o, tried);
    if n < a {
        seq![Trial { from_estimate: true, delta_ppm: 0 }]
    } else if n < b {
        seq![Trial { from_estimate: false, delta_ppm: 0 }]
    } else if !grid_runs(o, tried) || n >= b + 6 || (o.batched && fully_clean_in(tried, b, n)) {
        Seq::empty()
    } else {
        Seq::new(
            grid_batch(o, n - b) as nat,
            |k: int|
                shifted(
                    center_of(tried, b),
                    if o.batched {
                        batched_delta(n - b + k)
                    } else {
                        grid_delta(n - b + k)
                    },
                ),
        )
    }
}

/// What was tried is a course of this search.
pub open spec fn on_course(o: SearchOptions, tried: Seq<Attempt>) -> bool {
    let b = n_before_grid(o, tried);
    let n = tried.len() as int;
    o.batched && n > b ==> n == b + 4 || n >= b + 6
}

/// The trials to run next, given what was tried; none once the search is over.
fn next_drift_trials(o: &SearchOptions, tried: &Vec<Attempt>) -> (out: Vec<Trial>)
    requires
        in_range(tried@),
        on_course(*o, tried@),
    ensures
        out@ == next_trials(*o, tried@),
{
    let n: usize = tried.len();
    let a: usize = if o.estimate_usable {
        1
    } else {
        0
    };
    let mut out: Vec<Trial> = Vec::new();
    if n < a {
        out.push(Trial { from_estimate: true, delta_ppm: 0 });
        assert(out@ =~= next_trials(*o, tried@));
        return out;
    }
    let b: usize = a + (if o.allow_fast_path || !is_clean_by(tried, a) {
        1
    } else {
        0
    });
    if n < b {
        out.push(Trial { from_estimate: false, delta_ppm: 0 });
        assert(out@ =~= next_trials(*o, tried@));
        return out;
    }
    if !o.allow_grid || is_clean_by(tried, b) || n >= b + 6 || (o.batched && any_fully_clean(
        tried,
        b,
        n,
    )) {
        assert(out@ =~= next_trials(*o, tried@));
        return out;
    }
    let middle = center(tried, b);
    proof {
        lemma_center_in_range(tried@, b as int);
    }
    let count: usize = if !o.batched {
        1
    } else if n == b {
        4
    } else {
        2
    };
    let mut k: usize = 0;
    while k < count
        invariant
            k <= count,
            b <= n,
            n - b + count <= 6,
            -1000 <= middle.delta_ppm <= 1000,
            out@.len() == k,
            forall|j: int|
                0 <= j < k ==> #[trigger] out@[j] == shifted(
                    middle,
                    if o.batched {
                        batched_delta(n - b + j)
                    } else {
                        grid_delta(n - b + j)
                    },
                ),
        decreases count - k,
    {
        let d: i32 = grid_step(n - b + k, o.batched);
        out.push(shift(middle, d));
        k = k + 1;
    }
    assert(out@ =~= next_trials(*o, tried@));
    out
}

// ---------------------------------------------------------------------------
// Search over a wide grid
// ---------------------------------------------------------------------------

/// Trials of a grid of `size` that starts behind `start` attempts, as far as they
/// were run: the grid is left once a trial (or, side by side, a batch of four) has a
/// fully clean one.
pub open spec fn grid_over(tried: Seq<Attempt>, start: int, size: int, batched: bool) -> bool {
    let n = tried.len() as int;
    ||| n >= start + size
    ||| (!batched && fully_clean_in(tried, start, n))
    ||| (batched && n >= start + 4 && fully_clean_in(tried, start, start + 4))
}

/// Where the coarse grid ended.
pub open spec fn coarse_end(tried: Seq<Attempt>, batched: bool) -> int {
    if batched {
        if fully_clean_in(tried, 1, 5) {
            5
        } else {
            9
        }
    } else {
        first_fully_clean(tried, 1, 9)
    }
}

/// The end of a grid that runs from `i` to `end`: behind the first fully clean
/// attempt, or `end`.
pub open spec fn first_fully_clean(tried: Seq<Attempt>, i: int, end: int) -> int
    decreases end - i,
{
    if i >= end || i >= tried.len() {
        end
    } else if is_fully_clean_at(tried, i) {
        i + 1
    } else {
        first_fully_clean(tried, i + 1, end)
    }
}

/// Trials of a grid that run together.
pub open spec fn wide_batch(batched: bool) -> int {
    if batched {
        4
    } else {
        1
    }
}

/// The trials of the wide search to run next: zero; unless that was fully clean, the
/// coarse grid around zero; and if its winner is away from zero, the fine grid around
/// the winner.
pub open spec fn next_wide_trials(tried: Seq<Attempt>, batched: bool) -> Seq<Trial> {
    let n = tried.len() as int;
    let zero = Trial { from_estimate: false, delta_ppm: 0 };
    if n == 0 {
        seq![zero]
    } else if is_fully_clean_at(tried, 0) {
        Seq::empty()
    } else if n < coarse_end(tried, batched) {
        Seq::new(wide_batch(batched) as nat, |k: int| shifted(zero, coarse_delta(n - 1 + k)))
    } else {
        let c = coarse_end(tried, batched);
        let middle = center_of(tried, c);
        if middle.delta_ppm == 0 || grid_over(tried, c, 4, batched) {
            Seq::empty()
        } else {
            Seq::new(wide_batch(batched) as nat, |k: int| shifted(middle, fine_delta(n - c + k)))
        }
    }
}

/// What was tried is a course of the wide search.
pub open spec fn on_wide_course(tried: Seq<Attempt>, batched: bool) -> bool {
    let n = tried.len() as int;
    batched ==> {
        let c = coarse_end(tried, true);
        ||| n <= 1
        ||| n == 5
        ||| n == 9
        ||| n == c + 4
    }
}

proof fn lemma_first_fully_clean(tried: Seq<Attempt>, i: int, end: int)
    requires
        0 <= i <= end,
    ensures
        i <= first_fully_clean(tried, i, end) <= end,
        tried.len() < first_fully_clean(tried, i, end) ==> first_fully_clean(tried, i, end) == end,
    decreases end - i,
{
    if i < end && i < tried.len() && !is_fully_clean_at(tried, i) {
        lemma_first_fully_clean(tried, i + 1, end);
    }
}

fn find_first_fully_clean(tried: &Vec<Attempt>, start: usize, end: usize) -> (at: usize)
    requires
        start <= end,
    ensures
        at == first_fully_clean(tried@, start as int, end as int),
{
    let mut i: usize = start;
    while i < end && i < tried.len()
        invariant
            start <= i <= end,
            first_fully_clean(tried@, start as int, end as int) == first_fully_clean(
                tried@,
                i as int,
                end as int,
            ),
        decreases end - i,
    {
        match tried[i].tally {
            Some(t) => {
                if t.is_fully_clean() {
                    return i + 1;
                }
            },
            None => {},
        }
        i = i + 1;
    }
    end
}

/// The trials of the wide search to run next; none once the search is over.
fn next_wide_drift_trials(tried: &Vec<Attempt>, batched: bool) -> (out: Vec<Trial>)
    requires
        in_range(tried@),
        on_wide_course(tried@, batched),
    ensures
        out@ == next_wide_trials(tried@, batched),
{
    let n: usize = tried.len();
    let mut out: Vec<Trial> = Vec::new();
    let zero = Trial { from_estimate: false, delta_ppm: 0 };
    if n == 0 {
        out.push(zero);
        assert(out@ =~= next_wide_trials(tried@, batched));
        return out;
    }
    if any_fully_clean(tried, 0, 1) {
        assert(is_fully_clean_at(tried@, 0));
        assert(out@ =~= next_wide_trials(tried@, batched));
        return out;
    }
    assert(!is_fully_clean_at(tried@, 0)) by {
        if is_fully_clean_at(tried@, 0) {
            assert(fully_clean_in(tried@, 0, 1));
        }
    }
    let batch: usize = if batched {
        4
    } else {
        1
    };
    if batched && n == 1 {
        let mut k: usize = 0;
        while k < 4
            invariant
                k <= 4,
                zero == (Trial { from_estimate: false, delta_ppm: 0 }),
                out@.len() == k,
                forall|j: int|
                    0 <= j < k ==> #[trigger] out@[j] == shifted(zero, coarse_delta(0 + j)),
            decreases 4 - k,
        {
            let d: i32 = coarse_step(k);
            out.push(shift(zero, d));
            k = k + 1;
        }
        assert(coarse_end(tried@, true) >= 5);
        assert(out@ =~= next_wide_trials(tried@, batched));
        return out;
    }
    let end: usize = if batched {
        if any_fully_clean(tried, 1, 5) {
            5
        } else {
            9
        }
    } else {
        find_first_fully_clean(tried, 1, 9)
    };
    proof {
        lemma_first_fully_clean(tried@, 1, 9);
    }
    if n < end {
        let mut k: usize = 0;
        while k < batch
            invariant
                k <= batch,
                1 <= n,
                n - 1 + batch <= 8,
                zero == (Trial { from_estimate: false, delta_ppm: 0 }),
                out@.len() == k,
                forall|j: int|
                    0 <= j < k ==> #[trigger] out@[j] == shifted(zero, coarse_delta(n - 1 + j)),
            decreases batch - k,
        {
            let d: i32 = coarse_step(n - 1 + k);
            out.push(shift(zero, d));
            k = k + 1;
        }
        assert(out@ =~= next_wide_trials(tried@, batched));
        return out;
    }
    let middle = center(tried, end);
    proof {
        lemma_center_in_range(tried@, end as int);
    }
    let over: bool = n >= end + 4 || (!batched && any_fully_clean(tried, end, n));
    if middle.delta_ppm == 0 || over {
        assert(out@ =~= next_wide_trials(tried@, batched));
        return out;
    }
    let mut k: usize = 0;
    while k < batch
        invariant
            k <= batch,
            end <= n,
            n - end + batch <= 4,
            -1000 <= middle.delta_ppm <= 1000,
            out@.len() == k,
            forall|j: int|
                0 <= j < k ==> #[trigger] out@[j] == shifted(middle, fine_delta(n - end + j)),
        decreases batch - k,
    {
        let d: i32 = fine_step(n - end + k);
        out.push(shift(middle, d));
        k = k + 1;
    }
    assert(out@ =~= next_wide_trials(tried@, batched));
    out
}

// ---------------------------------------------------------------------------
// A search under way
// ---------------------------------------------------------------------------

/// Attempts with the trials of a list and what they found.
pub open spec fn attempts(trials: Seq<Trial>, found: Seq<Option<Tally>>) -> Seq<Attempt> {
    Seq::new(trials.len(), |i: int| Attempt { trial: trials[i], tally: found[i] })
}

/// The trials before the grid stand at their origin, those of the grid near it.
spec fn tame(o: SearchOptions, tried: Seq<Attempt>) -> bool {
    let b = n_before_grid(o, tried);
    forall|i: int|
        0 <= i < tried.len() ==> if i < b {
            (#[trigger] tried[i]).trial.delta_ppm == 0
        } else {
            -15 <= tried[i].trial.delta_ppm <= 15
        }
}

/// The trials of a wide search stand within its grids.
spec fn wide_tame(tried: Seq<Attempt>, batched: bool) -> bool {
    let c = coarse_end(tried, batched);
    forall|i: int|
        0 <= i < tried.len() ==> if i < c {
            -80 <= (#[trigger] tried[i]).trial.delta_ppm <= 80
        } else {
            -90 <= tried[i].trial.delta_ppm <= 90
        }
}

/// The best of some attempts does not depend on later ones.
proof fn lemma_best_of_prefix(s: Seq<Attempt>, t: Seq<Attempt>, n: int)
    requires
        0 <= n <= s.len(),
    ensures
        best_of(s + t, n) == best_of(s, n),
    decreases n,
{
    if n > 0 {
        lemma_best_of_prefix(s, t, n - 1);
        lemma_best(s, n - 1);
    }
}

proof fn lemma_course(o: SearchOptions, tried: Seq<Attempt>, found: Seq<Option<Tally>>)
    requires
        tame(o, tried),
        on_course(o, tried),
        found.len() == next_trials(o, tried).len(),
    ensures
        tame(o, tried + attempts(next_trials(o, tried), found)),
        on_course(o, tried + attempts(next_trials(o, tried), found)),
{
    let trials = next_trials(o, tried);
    let more = attempts(trials, found);
    let all = tried + more;
    let n = tried.len() as int;
    let a = n_estimate(o);
    if n >= a {
        lemma_best_of_prefix(tried, more, a);
        lemma_best(tried, a);
        let b = n_before_grid(o, tried);
        assert(n_before_grid(o, all) == b);
        if n >= b {
            lemma_best(tried, b);
        }
    }
}

proof fn lemma_first_fully_clean_prefix(s: Seq<Attempt>, t: Seq<Attempt>, i: int, end: int)
    requires
        0 <= i,
        s.len() >= first_fully_clean(s, i, end),
    ensures
        first_fully_clean(s + t, i, end) == first_fully_clean(s, i, end),
    decreases end - i,
{
    if i < end && i < s.len() && !is_fully_clean_at(s, i) {
        lemma_first_fully_clean_prefix(s, t, i + 1, end);
    }
}

proof fn lemma_fully_clean_in_prefix(s: Seq<Attempt>, t: Seq<Attempt>, a: int, b: int)
    requires
        0 <= a <= b <= s.len(),
    ensures
        fully_clean_in(s + t, a, b) == fully_clean_in(s, a, b),
{
    if fully_clean_in(s, a, b) {
        let i = choose|i: int| a <= i < b && is_fully_clean_at(s, i);
        assert(is_fully_clean_at(s + t, i));
    }
    if fully_clean_in(s + t, a, b) {
        let i = choose|i: int| a <= i < b && is_fully_clean_at(s + t, i);
        assert(is_fully_clean_at(s, i));
    }
}

proof fn lemma_wide_course(tried: Seq<Attempt>, batched: bool, found: Seq<Option<Tally>>)
    requires
        wide_tame(tried, batched),
        on_wide_course(tried, batched),
        found.len() == next_wide_trials(tried, batched).len(),
    ensures
        wide_tame(tried + attempts(next_wide_trials(tried, batched), found), batched),
        on_wide_course(tried + attempts(next_wide_trials(tried, batched), found), batched),
{
    let trials = next_wide_trials(tried, batched);
    let more = attempts(trials, found);
    let all = tried + more;
    let n = tried.len() as int;
    let c = coarse_end(tried, batched);
    lemma_first_fully_clean(tried, 1, 9);
    lemma_first_fully_clean(all, 1, 9);
    if trials.len() == 0 {
        assert(all =~= tried);
    } else if n > 0 && n >= c {
        if batched {
            lemma_fully_clean_in_prefix(tried, more, 1, 5);
        } else {
            lemma_first_fully_clean_prefix(tried, more, 1, 9);
        }
        assert(coarse_end(all, batched) == c);
        lemma_best(tried, c);
    } else if batched && n == 5 {
        lemma_fully_clean_in_prefix(tried, more, 1, 5);
    }
}

/// A drift search under way: what may be tried and what was found so far.
pub struct DriftSearch {
    wide: bool,
    options: SearchOptions,
    tried: Vec<Attempt>,
}

impl DriftSearch {
    #[verifier::type_invariant]
    spec fn inv(&self) -> bool {
        if self.wide {
            &&& wide_tame(self.tried@, self.options.batched)
            &&& on_wide_course(self.tried@, self.options.batched)
        } else {
            &&& tame(self.options, self.tried@)
            &&& on_course(self.options, self.tried@)
        }
    }

    /// The search runs over the wide grid.
    pub closed spec fn is_wide(&self) -> bool {
        self.wide
    }

    /// What may be tried.
    pub closed spec fn spec_options(&self) -> SearchOptions {
        self.options
    }

    /// What was tried so far.
    pub closed spec fn history(&self) -> Seq<Attempt> {
        self.tried@
    }

    /// The trials to run next.
    pub open spec fn spec_next(&self) -> Seq<Trial> {
        if self.is_wide() {
            next_wide_trials(self.history(), self.spec_options().batched)
        } else {
            next_trials(self.spec_options(), self.history())
        }
    }

    /// Start a search from a timing estimate.
    pub fn new(options: SearchOptions) -> (s: Self)
        ensures
            !s.is_wide(),
            s.spec_options() == options,
            s.history() == Seq::<Attempt>::empty(),
    {
        DriftSearch { wide: false, options, tried: Vec::new() }
    }

    /// Start a search over the wide grid, which knows no estimate.
    pub fn new_wide(batched: bool) -> (s: Self)
        ensures
            s.is_wide(),
            s.spec_options().batched == batched,
            s.history() == Seq::<Attempt>::empty(),
    {
        DriftSearch {
            wide: true,
            options: SearchOptions {
                estimate_usable: false,
                allow_grid: true,
                allow_fast_path: true,
                batched,
            },
            tried: Vec::new(),
        }
    }

    /// The trials to run next; none once the search is over.
    pub fn next(&self) -> (trials: Vec<Trial>)
        ensures
            trials@ == self.spec_next(),
    {
        proof {
            use_type_invariant(self);
        }
        if self.wide {
            next_wide_drift_trials(&self.tried, self.options.batched)
        } else {
            next_drift_trials(&self.options, &self.tried)
        }
    }

    /// Record what the trials to run next found.
    pub fn record(self, found: Vec<Option<Tally>>) -> (s: Self)
        requires
            found@.len() == self.spec_next().len(),
        ensures
            s.is_wide() == self.is_wide(),
            s.spec_options() == self.spec_options(),
            s.history() == self.history() + attempts(self.spec_next(), found@),
    {
        let trials = self.next();
        proof {
            use_type_invariant(&self);
            if self.wide {
                lemma_wide_course(self.tried@, self.options.batched, found@);
            } else {
                lemma_course(self.options, self.tried@, found@);
            }
        }
        let DriftSearch { wide, options, tried } = self;
        let ghost before = tried@;
        let ghost more = attempts(trials@, found@);
        let mut tried = tried;
        let mut i: usize = 0;
        while i < trials.len()
            invariant
                i <= trials@.len(),
                found@.len() == trials@.len(),
                more == attempts(trials@, found@),
                tried@ == before + more.take(i as int),
            decreases trials@.len() - i,
        {
            tried.push(Attempt { trial: trials[i], tally: found[i] });
            i = i + 1;
            assert(tried@ =~= before + more.take(i as int));
        }
        assert(more.take(i as int) =~= more);
        DriftSearch { wide, options, tried }
    }

    /// The best attempt so far: its place among all attempts and its trial.
    pub fn best(&self) -> (best: Option<(usize, Trial)>)
        ensures
            best is Some <==> best_of(self.history(), self.history().len() as int) is Some,
            best matches Some((b, trial)) ==> {
                &&& best_of(self.history(), self.history().len() as int) == Some(b as int)
                &&& b < self.history().len()
                &&& trial == self.history()[b as int].trial
            },
    {
        match best_index(&self.tried, self.tried.len()) {
            Some(b) => Some((b, self.tried[b].trial)),
            None => None,
        }
    }
}

// ---------------------------------------------------------------------------
// Laws
// ---------------------------------------------------------------------------

/// A search is over after at most eight trials, and a wide search after thirteen.
pub proof fn law_searches_end(o: SearchOptions, tried: Seq<Attempt>)
    ensures
        tried.len() >= 8 ==> next_trials(o, tried).len() == 0,
        tried.len() >= 13 ==> next_wide_trials(tried, o.batched).len() == 0,
{
    lemma_first_fully_clean(tried, 1, 9);
}

/// While nothing decodes cleanly the whole grid is tried; once the trials before the
/// grid gave a clean decode, the search is over.
pub proof fn law_clean_decode_ends_the_search(o: SearchOptions, tried: Seq<Attempt>)
    requires
        tried.len() >= n_before_grid(o, tried),
        clean_by(tried, n_before_grid(o, tried)),
    ensures
        next_trials(o, tried).len() == 0,
{
}

// ---------------------------------------------------------------------------
// Laws on the grids
// ---------------------------------------------------------------------------

/// Attempt `b` is the best of the first `n`: it decoded, none scores higher, and none
/// before it scores as high.
pub open spec fn is_best_attempt(tried: Seq<Attempt>, n: int, b: int) -> bool {
    &&& 0 <= b < n
    &&& tried[b].tally is Some
    &&& forall|j: int|
        0 <= j < n ==> ((#[trigger] tried[j]).tally matches Some(t) ==> t.score()
            <= tried[b].tally->0.score() && (j < b ==> t.score() < tried[b].tally->0.score()))
}

/// There is one best attempt.
proof fn lemma_best_is(tried: Seq<Attempt>, n: int, b: int)
    requires
        n <= tried.len(),
        is_best_attempt(tried, n, b),
    ensures
        best_of(tried, n) == Some(b),
{
    law_best_is_highest_and_first(tried, n, b);
    let a = best_of(tried, n)->0;
    law_best_is_highest_and_first(tried, n, a);
    assert(tried[a].tally is Some);
    assert(tried[b].tally is Some);
}

/// The grid of a search runs around the best trial before it: each of its trials counts
/// from the same origin and lies 5, 10 or 15 ppm to one side.
pub proof fn law_grid_runs_around_the_best(o: SearchOptions, tried: Seq<Attempt>, b: int, k: int)
    requires
        in_range(tried),
        is_best_attempt(tried, n_before_grid(o, tried), b),
        n_before_grid(o, tried) <= tried.len(),
        on_course(o, tried),
        0 <= k < next_trials(o, tried).len(),
    ensures
        ({
            let trial = next_trials(o, tried)[k];
            let away = trial.delta_ppm - tried[b].trial.delta_ppm;
            &&& trial.from_estimate == tried[b].trial.from_estimate
            &&& away == -15 || away == -10 || away == -5 || away == 5 || away == 10 || away == 15
        }),
{
    lemma_best_is(tried, n_before_grid(o, tried), b);
}

/// The grid tries no place twice: two of its trials, of one batch or of different ones, are
/// never the same.
pub proof fn law_grid_tries_each_distance_once(
    o: SearchOptions,
    first: Seq<Attempt>,
    second: Seq<Attempt>,
    b: int,
    i: int,
    j: int,
)
    requires
        in_range(first),
        in_range(second),
        on_course(o, first),
        on_course(o, second),
        first.len() <= second.len(),
        second.take(first.len() as int) == first,
        n_before_grid(o, first) <= first.len(),
        is_best_attempt(first, n_before_grid(o, first), b),
        0 <= i < next_trials(o, first).len(),
        0 <= j < next_trials(o, second).len(),
        first.len() + i < second.len() + j,
    ensures
        next_trials(o, first)[i] != next_trials(o, second)[j],
{
    let n = n_before_grid(o, first);
    lemma_best_is(first, n, b);
    lemma_same_start(o, first, second);
    lemma_best_of_start(first, second, n);
    lemma_best_of_start(first, second, n_estimate(o));
}

proof fn lemma_best_of_start(first: Seq<Attempt>, second: Seq<Attempt>, n: int)
    requires
        n <= first.len() <= second.len(),
        second.take(first.len() as int) == first,
    ensures
        best_of(first, n) == best_of(second, n),
        best_of(first, n) matches Some(b) ==> first[b] == second[b],
    decreases n,
{
    if n > 0 {
        lemma_best_of_start(first, second, n - 1);
        assert(first[n - 1] == second.take(first.len() as int)[n - 1]);
        lemma_best(first, n - 1);
        lemma_best(first, n);
        match best_of(first, n) {
            Some(b) => {
                assert(first[b] == second.take(first.len() as int)[b]);
            },
            None => {},
        }
        match best_of(first, n - 1) {
            Some(b) => {
                assert(first[b] == second.take(first.len() as int)[b]);
            },
            None => {},
        }
    }
}

proof fn lemma_same_start(o: SearchOptions, first: Seq<Attempt>, second: Seq<Attempt>)
    requires
        n_before_grid(o, first) <= first.len() <= second.len(),
        second.take(first.len() as int) == first,
    ensures
        n_before_grid(o, first) == n_before_grid(o, second),
        center_of(first, n_before_grid(o, first)) == center_of(second, n_before_grid(o, second)),
{
    lemma_best_of_start(first, second, n_estimate(o));
    lemma_best_of_start(first, second, n_before_grid(o, first));
}

/// A search that has not met a clean decode goes on to all six places of the grid where it
/// may run one.
pub proof fn law_grid_goes_on_to_the_end(o: SearchOptions, tried: Seq<Attempt>)
    requires
        o.allow_grid,
        on_course(o, tried),
        n_before_grid(o, tried) <= tried.len() < n_before_grid(o, tried) + 6,
        forall|j: int|
            0 <= j < tried.len() ==> ((#[trigger] tried[j]).tally matches Some(t) ==> !t.clean()
                && !t.fully_clean()),
    ensures
        next_trials(o, tried).len() > 0,
{
    lemma_best(tried, n_before_grid(o, tried));
    assert forall|i: int| n_before_grid(o, tried) <= i < tried.len() implies !is_fully_clean_at(
        tried,
        i,
    ) by {}
}

/// A search begins at the timing estimate where there is one, then at zero.
pub proof fn law_search_begins_at_the_estimate(o: SearchOptions, found: Attempt)
    ensures
        o.estimate_usable ==> next_trials(o, Seq::empty()) == seq![
            Trial { from_estimate: true, delta_ppm: 0 },
        ],
        !o.estimate_usable ==> next_trials(o, Seq::empty()) == seq![
            Trial { from_estimate: false, delta_ppm: 0 },
        ],
        o.estimate_usable && (o.allow_fast_path || !(found.tally matches Some(t) && t.clean()))
            ==> next_trials(o, seq![found]) == seq![
            Trial { from_estimate: false, delta_ppm: 0 },
        ],
{
    reveal_with_fuel(best_of, 3);
}

/// The coarse grid of a wide search lies around zero, 20 ppm apart and up to 80 ppm away;
/// the fine grid lies around the best trial, 5 and 10 ppm away.
pub proof fn law_wide_grids_lie_around_their_centers(
    tried: Seq<Attempt>,
    batched: bool,
    b: int,
    k: int,
)
    requires
        tried.len() >= 1,
        in_range(tried),
        on_wide_course(tried, batched),
        is_best_attempt(tried, coarse_end(tried, batched), b),
        0 <= k < next_wide_trials(tried, batched).len(),
    ensures
        ({
            let trial = next_wide_trials(tried, batched)[k];
            let away = trial.delta_ppm - tried[b].trial.delta_ppm;
            &&& tried.len() < coarse_end(tried, batched) ==> {
                &&& !trial.from_estimate
                &&& trial.delta_ppm % 20 == 0
                &&& trial.delta_ppm != 0
                &&& -80 <= trial.delta_ppm <= 80
            }
            &&& tried.len() >= coarse_end(tried, batched) ==> {
                &&& trial.from_estimate == tried[b].trial.from_estimate
                &&& away == -10 || away == -5 || away == 5 || away == 10
            }
        }),
{
    lemma_first_fully_clean(tried, 1, 9);
    if tried.len() >= coarse_end(tried, batched) {
        lemma_best_is(tried, coarse_end(tried, batched), b);
    }
}

/// Where the better of the trials at the estimate and at zero gave no clean decode, a search
/// that may run the grid tries drifts 5, 10 or 15 ppm to the sides of the better of the two.
pub proof fn law_grid_follows_the_first_trials(
    o: SearchOptions,
    at_estimate: Attempt,
    at_zero: Attempt,
    b: int,
    k: int,
)
    requires
        o.allow_grid,
        o.estimate_usable,
        in_range(seq![at_estimate, at_zero]),
        o.allow_fast_path || !(at_estimate.tally matches Some(t) && t.clean()),
        is_best_attempt(seq![at_estimate, at_zero], 2, b),
        !seq![at_estimate, at_zero][b].tally->0.clean(),
    ensures
        ({
            let best = seq![at_estimate, at_zero][b].trial;
            let trials = next_trials(o, seq![at_estimate, at_zero]);
            &&& trials.len() > 0
            &&& 0 <= k < trials.len() ==> {
                let away = trials[k].delta_ppm - best.delta_ppm;
                &&& trials[k].from_estimate == best.from_estimate
                &&& away == -15 || away == -10 || away == -5 || away == 5 || away == 10 || away
                    == 15
            }
        }),
{
    let tried = seq![at_estimate, at_zero];
    lemma_best_is(tried, 2, b);
    reveal_with_fuel(best_of, 3);
    assert(n_before_grid(o, tried) == 2);
}

/// A clean decode at the estimate ends the search, unless the trial at zero is asked for.
pub proof fn law_clean_estimate_is_enough(o: SearchOptions, found: Attempt)
    requires
        o.estimate_usable,
        found.tally matches Some(t) && t.clean(),
    ensures
        !o.allow_fast_path ==> next_trials(o, seq![found]).len() == 0,
        o.allow_fast_path ==> next_trials(o, seq![found]) == seq![
            Trial { from_estimate: false, delta_ppm: 0 },
        ],
{
    reveal_with_fuel(best_of, 3);
}

/// Without permission for the grid, a search ends behind its first trials.
pub proof fn law_no_grid_without_permission(o: SearchOptions, tried: Seq<Attempt>)
    requires
        !o.allow_grid,
        tried.len() >= 2,
    ensures
        next_trials(o, tried).len() == 0,
{
}

/// The grid runs one trial after the other, or four and then two side by side. A fully
/// clean trial among the four leaves the two out.
pub proof fn law_grid_runs_in_batches(o: SearchOptions, tried: Seq<Attempt>)
    requires
        on_course(o, tried),
        n_before_grid(o, tried) <= tried.len(),
        next_trials(o, tried).len() > 0,
    ensures
        !o.batched ==> next_trials(o, tried).len() == 1,
        o.batched ==> next_trials(o, tried).len() == if tried.len() == n_before_grid(o, tried) {
            4int
        } else {
            2
        },
        o.batched ==> forall|i: int|
            n_before_grid(o, tried) <= i < tried.len() ==> ((#[trigger] tried[i]).tally matches Some(
                t,
            ) ==> !t.fully_clean()),
{
    let b = n_before_grid(o, tried);
    if o.batched {
        assert forall|i: int| b <= i < tried.len() implies ((#[trigger] tried[i]).tally matches Some(
            t,
        ) ==> !t.fully_clean()) by {
            if is_fully_clean_at(tried, i) {
                assert(fully_clean_in(tried, b, tried.len() as int));
            }
        }
    }
}

/// A wide search begins at zero, and ends there if that is fully clean.
pub proof fn law_wide_search_begins_at_zero(found: Attempt, batched: bool)
    ensures
        next_wide_trials(Seq::empty(), batched) == seq![
            Trial { from_estimate: false, delta_ppm: 0 },
        ],
        (found.tally matches Some(t) && t.fully_clean()) ==> next_wide_trials(
            seq![found],
            batched,
        ).len() == 0,
        !(found.tally matches Some(t) && t.fully_clean()) ==> next_wide_trials(
            seq![found],
            batched,
        ).len() == if batched {
            4int
        } else {
            1
        },
{
    let tried = seq![found];
    reveal_with_fuel(first_fully_clean, 3);
    lemma_first_fully_clean(tried, 1, 9);
}

/// While nothing is fully clean, a wide search tries all eight places of the coarse grid,
/// and then, unless zero came out best, all four of the fine one.
pub proof fn law_wide_search_goes_on_to_the_end(tried: Seq<Attempt>, batched: bool, b: int)
    requires
        1 <= tried.len() < 13,
        on_wide_course(tried, batched),
        forall|j: int|
            0 <= j < tried.len() ==> ((#[trigger] tried[j]).tally matches Some(t)
                ==> !t.fully_clean()),
        tried.len() >= 9 ==> is_best_attempt(tried, 9, b),
    ensures
        tried.len() < 9 ==> next_wide_trials(tried, batched).len() > 0,
        tried.len() >= 9 && tried[b].trial.delta_ppm != 0 ==> next_wide_trials(tried, batched).len()
            > 0,
        tried.len() >= 9 && tried[b].trial.delta_ppm == 0 ==> next_wide_trials(tried, batched).len()
            == 0,
{
    assert forall|i: int| 0 <= i < tried.len() implies !is_fully_clean_at(tried, i) by {}
    lemma_none_fully_clean(tried, 1, 9);
    if batched && tried.len() >= 5 {
        assert(!fully_clean_in(tried, 1, 5));
    }
    if tried.len() >= 9 {
        lemma_best_is(tried, 9, b);
        assert(coarse_end(tried, batched) == 9);
    }
}

proof fn lemma_none_fully_clean(tried: Seq<Attempt>, i: int, end: int)
    requires
        0 <= i <= end,
        forall|j: int| 0 <= j < tried.len() ==> !#[trigger] is_fully_clean_at(tried, j),
    ensures
        first_fully_clean(tried, i, end) == end,
    decreases end - i,
{
    if i < end && i < tried.len() {
        assert(!is_fully_clean_at(tried, i));
        lemma_none_fully_clean(tried, i + 1, end);
    }
}

/// No place of the coarse grid is tried twice, nor one of the fine grid.
pub proof fn law_wide_grids_try_each_place_once(i: int, j: int)
    requires
        0 <= i < j,
    ensures
        j < 8 ==> coarse_delta(i) < coarse_delta(j),
        j < 4 ==> fine_delta(i) < fine_delta(j),
        coarse_delta(7 - i) == -coarse_delta(i) || i > 7,
        fine_delta(3 - i) == -fine_delta(i) || i > 3,
{
}

/// A search goes by its own rules: a wide one over the wide grid, another from its options.
pub proof fn law_search_goes_by_its_rules(s: DriftSearch)
    ensures
        s.is_wide() ==> s.spec_next() == next_wide_trials(s.history(), s.spec_options().batched),
        !s.is_wide() ==> s.spec_next() == next_trials(s.spec_options(), s.history()),
{
}

} // verus!
