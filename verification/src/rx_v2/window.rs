//! Cutting a capture into windows between preambles, and merging what they hold.
//!
//! A window reaches from one preamble to the next, with some margin for the filters.
//! It is closed where a preamble follows and open at the end of the capture. The open
//! window is always decoded, since its header may be the only sign of a transmission.
//! Only where a scan stops at the second preamble does that preamble wait for the next
//! scan, unless a closed window said that the transmission ends.

use std::collections::HashMap;

use vstd::prelude::*;

use crate::app_header::AppHeader;
use crate::header::Header;
use crate::raptorq_codec;
use crate::rx_v2::tally::Tally;
use crate::types::{N_PREAMBLE, RRC_SPAN_SYM};

verus! {

/// How a capture is to be decoded.
#[derive(Clone, Copy, Debug, PartialEq, Eq, Structural)]
pub struct SweepOptions {
    /// Nothing follows this capture: an open window without a known drift is worth a search.
    pub finalize: bool,
    /// The scan stops at the second preamble, unless nothing follows the capture.
    pub position_cap: bool,
    /// The search on a closed window may run the grid around the best drift.
    pub allow_legacy_grid: bool,
    /// Use the wide drift grid in place of the timing estimate.
    pub power_mode: bool,
    /// A drift is known from earlier captures.
    pub has_session_hint: bool,
}

/// How to decode one window.
#[derive(Clone, Copy, Debug, PartialEq, Eq, Structural)]
pub enum Pass {
    /// Search drifts over the wide grid.
    WideGrid,
    /// Search drifts from the timing estimate.
    Search { allow_grid: bool, allow_fast_path: bool },
    /// Undo the drift of the last closed window.
    FromWindow,
    /// Undo the drift known from earlier captures.
    FromSession,
    /// Decode as it is.
    Single,
}

/// One window to decode.
#[derive(Clone, Copy, Debug, PartialEq, Eq, Structural)]
pub struct WindowTask {
    pub start: usize,
    pub end: usize,
    pub closed: bool,
    pub pass: Pass,
}

/// Most preambles to look for in one scan: two on a low-power host that scans again.
pub fn position_cap(lowpower: bool, finalize: bool) -> (cap: Option<usize>)
    ensures
        cap == if lowpower && !finalize {
            Some(2usize)
        } else {
            None
        },
{
    if lowpower && !finalize {
        Some(2)
    } else {
        None
    }
}

// ---------------------------------------------------------------------------
// Positions
// ---------------------------------------------------------------------------

/// Positions in rising order.
pub open spec fn sorted(positions: Seq<usize>) -> bool {
    forall|i: int, j: int| 0 <= i <= j < positions.len() ==> positions[i] <= positions[j]
}

/// Positions that were not handled yet.
pub open spec fn fresh(positions: Seq<usize>, skip_until: usize) -> Seq<usize> {
    positions.filter(|p: usize| p >= skip_until)
}

/// Sort the preamble positions and drop those before `skip_until`.
pub fn fresh_positions(positions: &Vec<usize>, skip_until: usize) -> (out: Vec<usize>)
    ensures
        sorted(out@),
        out@.to_multiset() == fresh(positions@, skip_until).to_multiset(),
        forall|i: int| 0 <= i < out@.len() ==> #[trigger] out@[i] >= skip_until,
{
    let ghost keep = |p: usize| p >= skip_until;
    let mut out: Vec<usize> = Vec::new();
    let mut i: usize = 0;
    proof {
        reveal(Seq::filter);
        assert(positions@.take(0).filter(keep) =~= Seq::<usize>::empty());
    }
    while i < positions.len()
        invariant
            i <= positions@.len(),
            keep == (|p: usize| p >= skip_until),
            sorted(out@),
            out@.to_multiset() == positions@.take(i as int).filter(keep).to_multiset(),
            forall|j: int| 0 <= j < out@.len() ==> #[trigger] out@[j] >= skip_until,
        decreases positions@.len() - i,
    {
        let p: usize = positions[i];
        proof {
            let next = positions@.take(i + 1);
            assert(next =~= positions@.take(i as int).push(p));
            assert(next.drop_last() =~= positions@.take(i as int));
            reveal(Seq::filter);
        }
        if p >= skip_until {
            insert_sorted(&mut out, p);
            proof {
                vstd::seq_lib::to_multiset_build(positions@.take(i as int).filter(keep), p);
            }
        }
        i = i + 1;
    }
    assert(positions@.take(i as int) =~= positions@);
    out
}

fn insert_sorted(list: &mut Vec<usize>, p: usize)
    requires
        sorted(old(list)@),
    ensures
        sorted(final(list)@),
        final(list)@.to_multiset() == old(list)@.to_multiset().insert(p),
        forall|j: int|
            0 <= j < final(list)@.len() ==> #[trigger] final(list)@[j] == p || old(list)@.contains(
                final(list)@[j],
            ),
{
    let ghost before = list@;
    let mut at: usize = list.len();
    while at > 0 && list[at - 1] > p
        invariant
            at <= list@.len(),
            list@ == before,
            sorted(before),
            forall|j: int| at <= j < list@.len() ==> #[trigger] list@[j] > p,
        decreases at,
    {
        at = at - 1;
    }
    list.insert(at, p);
    proof {
        let after = list@;
        assert(after.remove(at as int) =~= before);
        vstd::seq_lib::to_multiset_remove(after, at as int);
        after.to_multiset_ensures();
        assert(after[at as int] == p);
        assert(after.contains(p));
        assert(after.to_multiset() =~= before.to_multiset().insert(p));
        assert forall|j: int| 0 <= j < after.len() implies #[trigger] after[j] == p
            || before.contains(after[j]) by {
            if j < at {
                assert(before[j] == after[j]);
            } else if j > at {
                assert(before[j - 1] == after[j]);
            }
        }
    }
}

// ---------------------------------------------------------------------------
// Windows
// ---------------------------------------------------------------------------

/// What is known of a capture before its windows are decoded.
#[derive(Clone, Copy, Debug, PartialEq, Eq, Structural)]
pub struct Capture {
    /// Samples in the capture.
    pub n_samples: usize,
    /// Samples from one symbol to the next.
    pub pitch: usize,
    /// Bytes of a decoded codeword.
    pub k_bytes: usize,
}

impl Capture {
    /// Window bounds can be computed.
    pub open spec fn valid(self) -> bool {
        &&& self.pitch >= 1
        &&& N_PREAMBLE * self.pitch <= usize::MAX
        &&& self.n_samples < usize::MAX
    }

    /// Samples that a window reaches beyond its preambles.
    pub open spec fn margin(self) -> int {
        (RRC_SPAN_SYM + 4) * self.pitch
    }

    /// First sample of the window of a preamble.
    pub open spec fn window_start(self, p: int) -> int {
        let s = if p >= self.margin() {
            p - self.margin()
        } else {
            0
        };
        if s <= self.n_samples {
            s
        } else {
            self.n_samples as int
        }
    }

    /// End of the window of preamble `i`.
    pub open spec fn window_end(self, positions: Seq<usize>, i: int) -> int {
        if i + 1 < positions.len() {
            let e = positions[i + 1] + self.margin();
            let cut = if e <= self.n_samples {
                e
            } else {
                self.n_samples as int
            };
            let start = self.window_start(positions[i] as int);
            if cut > start {
                cut
            } else {
                start + 1
            }
        } else {
            self.n_samples as int
        }
    }

    /// The window of preamble `i` holds more than a preamble.
    pub open spec fn window_long(self, positions: Seq<usize>, i: int) -> bool {
        self.window_end(positions, i) > self.window_start(positions[i] as int) + N_PREAMBLE
            * self.pitch
    }
}

/// How to decode a window.
pub open spec fn pass_for(o: SweepOptions, closed: bool, hinted: bool) -> Pass {
    if o.power_mode {
        if closed {
            Pass::WideGrid
        } else {
            Pass::Single
        }
    } else if closed {
        if o.has_session_hint {
            Pass::FromSession
        } else {
            Pass::Search { allow_grid: o.allow_legacy_grid, allow_fast_path: o.allow_legacy_grid }
        }
    } else if hinted {
        Pass::FromWindow
    } else if o.has_session_hint {
        Pass::FromSession
    } else if o.finalize {
        Pass::Search { allow_grid: true, allow_fast_path: true }
    } else {
        Pass::Single
    }
}

fn choose_pass(o: &SweepOptions, closed: bool, hinted: bool) -> (pass: Pass)
    ensures
        pass == pass_for(*o, closed, hinted),
{
    if o.power_mode {
        if closed {
            Pass::WideGrid
        } else {
            Pass::Single
        }
    } else if closed {
        if o.has_session_hint {
            Pass::FromSession
        } else {
            Pass::Search { allow_grid: o.allow_legacy_grid, allow_fast_path: o.allow_legacy_grid }
        }
    } else if hinted {
        Pass::FromWindow
    } else if o.has_session_hint {
        Pass::FromSession
    } else if o.finalize {
        Pass::Search { allow_grid: true, allow_fast_path: true }
    } else {
        Pass::Single
    }
}

/// Preamble `i` is where a capped scan stopped: its window is left to the next scan, which
/// finds it closed, unless the transmission is known to end.
pub open spec fn is_boundary(
    o: SweepOptions,
    positions: Seq<usize>,
    i: int,
    eot_seen: bool,
) -> bool {
    &&& o.position_cap
    &&& !o.finalize
    &&& !eot_seen
    &&& 1 <= i
    &&& i + 1 == positions.len()
}

/// The window of preamble `i` as a task; `None` if it is too short or left to the next scan.
pub open spec fn task_of(
    c: Capture,
    o: SweepOptions,
    positions: Seq<usize>,
    i: int,
    eot_seen: bool,
    hinted: bool,
) -> Option<WindowTask> {
    let closed = i + 1 < positions.len();
    if !c.window_long(positions, i) || is_boundary(o, positions, i, eot_seen) {
        None
    } else {
        Some(
            WindowTask {
                start: c.window_start(positions[i] as int) as usize,
                end: c.window_end(positions, i) as usize,
                closed,
                pass: pass_for(o, closed, hinted),
            },
        )
    }
}

fn make_task(
    c: &Capture,
    o: &SweepOptions,
    positions: &Vec<usize>,
    i: usize,
    eot_seen: bool,
    hinted: bool,
) -> (task: Option<WindowTask>)
    requires
        c.valid(),
        i < positions@.len(),
    ensures
        task == task_of(*c, *o, positions@, i as int, eot_seen, hinted),
        task matches Some(t) ==> t.start < t.end <= c.n_samples,
{
    let n: usize = c.n_samples;
    assert(c.margin() <= N_PREAMBLE * c.pitch);
    let margin: usize = (RRC_SPAN_SYM + 4) * c.pitch;
    let p: usize = positions[i];
    let s: usize = if p >= margin {
        p - margin
    } else {
        0
    };
    let start: usize = if s <= n {
        s
    } else {
        n
    };
    let closed: bool = i < positions.len() - 1;
    let end: usize = if closed {
        let next: usize = positions[i + 1];
        let cut: usize = if next <= n && margin <= n - next {
            next + margin
        } else {
            n
        };
        if cut > start {
            cut
        } else {
            start + 1
        }
    } else {
        n
    };
    if end - start <= N_PREAMBLE * c.pitch {
        return None;
    }
    if o.position_cap && !o.finalize && !eot_seen && i >= 1 && !closed {
        return None;
    }
    let pass = choose_pass(o, closed, hinted);
    Some(WindowTask { start, end, closed, pass })
}

// ---------------------------------------------------------------------------
// Results
// ---------------------------------------------------------------------------

/// What the decode of one window found. `D` is a drift.
pub struct WindowResult<D> {
    pub drift: D,
    pub tally: Tally,
    pub header: Option<Header>,
    pub app_header: Option<AppHeader>,
    pub words: HashMap<u32, Vec<u8>>,
    pub eot_seen: bool,
}

/// What the windows so far found, put together.
#[verifier::ext_equal]
pub struct SweepState<D> {
    /// Drift of the last closed window that decoded.
    pub hint: Option<D>,
    /// Drift of the last window that decoded.
    pub reported: Option<D>,
    pub words: Map<u32, Seq<u8>>,
    pub header: Option<Header>,
    pub app_header: Option<AppHeader>,
    pub converged: int,
    pub total: int,
    pub decoded: int,
    pub lost: int,
    pub eot_seen: bool,
}

impl<D> SweepState<D> {
    /// Nothing was decoded yet.
    pub open spec fn start() -> Self {
        SweepState {
            hint: None,
            reported: None,
            words: Map::empty(),
            header: None,
            app_header: None,
            converged: 0,
            total: 0,
            decoded: 0,
            lost: 0,
            eot_seen: false,
        }
    }

    /// A window was decoded. A codeword, a header and a session header that came first
    /// stay; a session header without a payload is passed over.
    pub open spec fn after_window(self, closed: bool, r: WindowResult<D>) -> Self {
        SweepState {
            hint: if closed {
                Some(r.drift)
            } else {
                self.hint
            },
            reported: Some(r.drift),
            words: raptorq_codec::packet_bytes(r.words@).union_prefer_right(self.words),
            header: if self.header is Some {
                self.header
            } else {
                r.header
            },
            app_header: if self.app_header is None && r.app_header is Some
                && r.app_header->0.file_size > 0 {
                r.app_header
            } else {
                self.app_header
            },
            converged: self.converged + r.tally.converged_blocks,
            total: self.total + r.tally.total_blocks,
            decoded: self.decoded + r.tally.segments_decoded,
            lost: self.lost + r.tally.segments_lost,
            eot_seen: self.eot_seen || r.eot_seen,
        }
    }

    /// The counts have room for one more window.
    pub open spec fn has_room(self, t: Tally) -> bool {
        &&& self.converged + t.converged_blocks <= usize::MAX
        &&& self.total + t.total_blocks <= usize::MAX
        &&& self.decoded + t.segments_decoded <= usize::MAX
        &&& self.lost + t.segments_lost <= usize::MAX
    }
}

/// Add codewords to those that are kept; a number that is there stays as it is.
fn merge_words(kept: &mut HashMap<u32, Vec<u8>>, more: &HashMap<u32, Vec<u8>>)
    ensures
        raptorq_codec::packet_bytes(final(kept)@) == raptorq_codec::packet_bytes(
            more@,
        ).union_prefer_right(raptorq_codec::packet_bytes(old(kept)@)),
{
    broadcast use vstd::std_specs::hash::group_hash_axioms;

    let list = raptorq_codec::entries(more);
    let ghost first = raptorq_codec::packet_bytes(kept@);
    let ghost second = raptorq_codec::packet_bytes(more@);
    let mut i: usize = 0;
    while i < list.len()
        invariant
            i <= list@.len(),
            second == raptorq_codec::packet_bytes(more@),
            forall|j: int|
                0 <= j < list@.len() ==> second.dom().contains((#[trigger] list@[j]).0)
                    && second[list@[j].0] == list@[j].1@,
            forall|j: int, k: int|
                0 <= j < list@.len() && 0 <= k < list@.len() && j != k ==> list@[j].0
                    != list@[k].0,
            forall|esi: u32| #[trigger]
                raptorq_codec::packet_bytes(kept@).dom().contains(esi) <==> first.dom().contains(
                    esi,
                ) || exists|j: int| 0 <= j < i && (#[trigger] list@[j]).0 == esi,
            forall|esi: u32| #[trigger]
                raptorq_codec::packet_bytes(kept@).dom().contains(esi)
                    ==> raptorq_codec::packet_bytes(kept@)[esi] == if first.dom().contains(esi) {
                    first[esi]
                } else {
                    second[esi]
                },
        decreases list@.len() - i,
    {
        let ghost before = kept@;
        let esi: u32 = list[i].0;
        if !kept.contains_key(&esi) {
            let bytes = list[i].1.clone();
            assert(bytes@ =~= list@[i as int].1@);
            let ghost value = bytes;
            kept.insert(esi, bytes);
            proof {
                assert(kept@ =~= before.insert(esi, value));
                assert(raptorq_codec::packet_bytes(kept@) =~= raptorq_codec::packet_bytes(
                    before,
                ).insert(esi, value@));
            }
        }
        proof {
            assert forall|e: u32| #[trigger]
                raptorq_codec::packet_bytes(kept@).dom().contains(e) <==> first.dom().contains(e)
                    || exists|j: int| 0 <= j < i + 1 && (#[trigger] list@[j]).0 == e by {
                assert(raptorq_codec::packet_bytes(before).dom().contains(e) || e == esi
                    <==> raptorq_codec::packet_bytes(kept@).dom().contains(e));
                if e == esi {
                    assert(list@[i as int].0 == e);
                }
            }
            assert forall|e: u32| #[trigger]
                raptorq_codec::packet_bytes(kept@).dom().contains(
                    e,
                ) implies raptorq_codec::packet_bytes(kept@)[e] == if first.dom().contains(e) {
                first[e]
            } else {
                second[e]
            } by {
                assert(raptorq_codec::packet_bytes(before).dom().contains(e) || e == esi);
                if !before.dom().contains(esi) {
                    assert(!raptorq_codec::packet_bytes(before).dom().contains(esi));
                }
            }
        }
        i = i + 1;
    }
    proof {
        assert forall|esi: u32|
            second.union_prefer_right(first).dom().contains(esi)
                == raptorq_codec::packet_bytes(kept@).dom().contains(esi) by {
            if second.dom().contains(esi) {
                assert(more@.dom().contains(esi));
                let j = choose|j: int| 0 <= j < list@.len() && (#[trigger] list@[j]).0 == esi;
                assert(list@[j].0 == esi);
            }
        }
        assert(raptorq_codec::packet_bytes(kept@) =~= second.union_prefer_right(first));
    }
}

// ---------------------------------------------------------------------------
// A sweep under way
// ---------------------------------------------------------------------------

/// First preamble from `i` on whose window is to be decoded, or their number.
pub open spec fn next_index(
    c: Capture,
    o: SweepOptions,
    positions: Seq<usize>,
    i: int,
    eot_seen: bool,
    hinted: bool,
) -> int
    decreases positions.len() - i,
{
    if i >= positions.len() || task_of(c, o, positions, i, eot_seen, hinted) is Some {
        i
    } else {
        next_index(c, o, positions, i + 1, eot_seen, hinted)
    }
}

/// What a sweep found.
pub struct SweepOutcome<D> {
    /// Drift of the last window that decoded.
    pub drift: Option<D>,
    pub tally: Tally,
    pub header: Option<Header>,
    pub app_header: Option<AppHeader>,
    pub words: HashMap<u32, Vec<u8>>,
    pub eot_seen: bool,
    /// The last preamble of the capture: what lies before it is done with.
    pub last_preamble_offset: usize,
}

/// A sweep over the windows of a capture.
pub struct Sweep<D: Copy> {
    capture: Capture,
    options: SweepOptions,
    positions: Vec<usize>,
    at: usize,
    hint: Option<D>,
    reported: Option<D>,
    words: HashMap<u32, Vec<u8>>,
    header: Option<Header>,
    app_header: Option<AppHeader>,
    converged: usize,
    total: usize,
    decoded: usize,
    lost: usize,
    eot_seen: bool,
}

impl<D: Copy> Sweep<D> {
    #[verifier::type_invariant]
    spec fn inv(&self) -> bool {
        &&& self.capture.valid()
        &&& self.positions@.len() >= 1
        &&& self.at <= self.positions@.len()
        &&& self.converged <= self.total
        &&& self.words@.dom().finite()
        &&& raptorq_codec::well_sized(
            raptorq_codec::packet_bytes(self.words@),
            self.capture.k_bytes as int,
        )
    }

    /// What is known of the capture.
    pub closed spec fn spec_capture(&self) -> Capture {
        self.capture
    }

    /// How the capture is decoded.
    pub closed spec fn spec_options(&self) -> SweepOptions {
        self.options
    }

    /// The preambles to visit.
    pub closed spec fn spec_positions(&self) -> Seq<usize> {
        self.positions@
    }

    /// How many preambles are behind.
    pub closed spec fn place(&self) -> int {
        self.at as int
    }

    /// What the windows so far found.
    pub closed spec fn state(&self) -> SweepState<D> {
        SweepState {
            hint: self.hint,
            reported: self.reported,
            words: raptorq_codec::packet_bytes(self.words@),
            header: self.header,
            app_header: self.app_header,
            converged: self.converged as int,
            total: self.total as int,
            decoded: self.decoded as int,
            lost: self.lost as int,
            eot_seen: self.eot_seen,
        }
    }

    /// The preamble whose window comes next.
    pub open spec fn next_place(&self) -> int {
        next_index(
            self.spec_capture(),
            self.spec_options(),
            self.spec_positions(),
            self.place(),
            self.state().eot_seen,
            self.state().hint is Some,
        )
    }

    /// The window that comes next.
    pub open spec fn next_window(&self) -> Option<WindowTask> {
        if self.next_place() < self.spec_positions().len() {
            task_of(
                self.spec_capture(),
                self.spec_options(),
                self.spec_positions(),
                self.next_place(),
                self.state().eot_seen,
                self.state().hint is Some,
            )
        } else {
            None
        }
    }

    /// Start a sweep over the preambles at `found` that were not handled yet. `None`
    /// if there are none.
    pub fn new(capture: Capture, options: SweepOptions, found: &Vec<usize>, skip_until: usize) -> (
        sweep: Option<Self>)
        requires
            capture.valid(),
        ensures
            sweep is None <==> fresh(found@, skip_until).len() == 0,
            sweep matches Some(s) ==> {
                &&& s.spec_capture() == capture
                &&& s.spec_options() == options
                &&& sorted(s.spec_positions())
                &&& s.spec_positions().to_multiset() == fresh(found@, skip_until).to_multiset()
                &&& s.place() == 0
                &&& s.state() == SweepState::<D>::start()
            },
    {
        broadcast use vstd::std_specs::hash::group_hash_axioms;

        let positions = fresh_positions(found, skip_until);
        proof {
            positions@.to_multiset_ensures();
            fresh(found@, skip_until).to_multiset_ensures();
        }
        if positions.len() == 0 {
            return None;
        }
        let words: HashMap<u32, Vec<u8>> = HashMap::new();
        proof {
            assert(raptorq_codec::packet_bytes(words@) =~= Map::empty());
        }
        Some(
            Sweep {
                capture,
                options,
                positions,
                at: 0,
                hint: None,
                reported: None,
                words,
                header: None,
                app_header: None,
                converged: 0,
                total: 0,
                decoded: 0,
                lost: 0,
                eot_seen: false,
            },
        )
    }

    fn find_next(&self) -> (i: usize)
        ensures
            i == self.next_place(),
            i <= self.spec_positions().len(),
            self.place() <= i,
    {
        proof {
            use_type_invariant(self);
        }
        let hinted: bool = self.hint.is_some();
        let mut i: usize = self.at;
        while i < self.positions.len()
            invariant
                self.capture.valid(),
                self.at <= i <= self.positions@.len(),
                hinted == (self.hint is Some),
                self.next_place() == next_index(
                    self.capture,
                    self.options,
                    self.positions@,
                    i as int,
                    self.eot_seen,
                    hinted,
                ),
            decreases self.positions@.len() - i,
        {
            if make_task(
                &self.capture,
                &self.options,
                &self.positions,
                i,
                self.eot_seen,
                hinted,
            ).is_some() {
                return i;
            }
            i = i + 1;
        }
        i
    }

    /// The window to decode next; `None` once the sweep is over.
    pub fn next(&self) -> (task: Option<WindowTask>)
        ensures
            task == self.next_window(),
            task matches Some(t) ==> t.start < t.end <= self.spec_capture().n_samples,
    {
        proof {
            use_type_invariant(self);
        }
        let i: usize = self.find_next();
        if i < self.positions.len() {
            make_task(
                &self.capture,
                &self.options,
                &self.positions,
                i,
                self.eot_seen,
                self.hint.is_some(),
            )
        } else {
            None
        }
    }

    /// Drift of the last closed window that decoded.
    pub fn hint(&self) -> (hint: Option<D>)
        ensures
            hint == self.state().hint,
    {
        self.hint
    }

    /// Record what the window that came next found; `None` if it did not decode.
    pub fn record(self, result: Option<WindowResult<D>>) -> (s: Self)
        requires
            self.next_window() is Some,
            result matches Some(r) ==> {
                &&& r.tally.valid()
                &&& self.state().has_room(r.tally)
                &&& raptorq_codec::well_sized(
                    raptorq_codec::packet_bytes(r.words@),
                    self.spec_capture().k_bytes as int,
                )
            },
        ensures
            s.spec_capture() == self.spec_capture(),
            s.spec_options() == self.spec_options(),
            s.spec_positions() == self.spec_positions(),
            s.place() == self.next_place() + 1,
            s.state() == match result {
                Some(r) => self.state().after_window(self.next_window()->0.closed, r),
                None => self.state(),
            },
    {
        proof {
            use_type_invariant(&self);
        }
        let i: usize = self.find_next();
        let closed: bool = i < self.positions.len() - 1;
        match result {
            None => Sweep { at: i + 1, ..self },
            Some(r) => {
                let ghost before = self.state();
                let ghost result_words = raptorq_codec::packet_bytes(r.words@);
                let Sweep {
                    capture,
                    options,
                    positions,
                    at,
                    hint,
                    reported,
                    words,
                    header,
                    app_header,
                    converged,
                    total,
                    decoded,
                    lost,
                    eot_seen,
                } = self;
                let mut words = words;
                merge_words(&mut words, &r.words);
                proof {
                    let merged = raptorq_codec::packet_bytes(words@);
                    assert forall|esi: u32| #[trigger] merged.dom().contains(esi) implies esi
                        < raptorq_codec::MAX_ESI && merged[esi].len() == capture.k_bytes by {
                        assert(result_words.dom().contains(esi) || before.words.dom().contains(
                            esi,
                        ));
                    }
                }
                let kept = match r.app_header {
                    Some(h) => if app_header.is_none() && h.file_size > 0 {
                        Some(h)
                    } else {
                        app_header
                    },
                    None => app_header,
                };
                Sweep {
                    capture,
                    options,
                    positions,
                    at: i + 1,
                    hint: if closed {
                        Some(r.drift)
                    } else {
                        hint
                    },
                    reported: Some(r.drift),
                    words,
                    header: if header.is_some() {
                        header
                    } else {
                        r.header
                    },
                    app_header: kept,
                    converged: converged + r.tally.converged_blocks,
                    total: total + r.tally.total_blocks,
                    decoded: decoded + r.tally.segments_decoded,
                    lost: lost + r.tally.segments_lost,
                    eot_seen: eot_seen || r.eot_seen,
                }
            },
        }
    }

    /// End the sweep and take what it found.
    pub fn finish(self) -> (out: SweepOutcome<D>)
        ensures
            out.drift == self.state().reported,
            out.tally.valid(),
            out.tally.converged_blocks == self.state().converged,
            out.tally.total_blocks == self.state().total,
            out.tally.segments_decoded == self.state().decoded,
            out.tally.segments_lost == self.state().lost,
            out.tally.data_blocks_recovered == self.state().words.dom().len(),
            out.header == self.state().header,
            out.app_header == self.state().app_header,
            raptorq_codec::packet_bytes(out.words@) == self.state().words,
            raptorq_codec::well_sized(
                raptorq_codec::packet_bytes(out.words@),
                self.spec_capture().k_bytes as int,
            ),
            out.eot_seen == self.state().eot_seen,
            out.last_preamble_offset == self.spec_positions().last(),
    {
        broadcast use vstd::std_specs::hash::group_hash_axioms;

        proof {
            use_type_invariant(&self);
            assert(raptorq_codec::packet_bytes(self.words@).dom() =~= self.words@.dom());
        }
        let n: usize = self.words.len();
        let last: usize = self.positions[self.positions.len() - 1];
        SweepOutcome {
            drift: self.reported,
            tally: Tally {
                converged_blocks: self.converged,
                total_blocks: self.total,
                segments_decoded: self.decoded,
                segments_lost: self.lost,
                data_blocks_recovered: n,
            },
            header: self.header,
            app_header: self.app_header,
            words: self.words,
            eot_seen: self.eot_seen,
            last_preamble_offset: last,
        }
    }
}

// ---------------------------------------------------------------------------
// Laws
// ---------------------------------------------------------------------------

/// A codeword that was kept stays as it is, whatever later windows hold, and every
/// codeword of a window is there afterwards under its number.
pub proof fn law_first_codeword_wins<D>(
    s: SweepState<D>,
    closed: bool,
    r: WindowResult<D>,
    esi: u32,
)
    ensures
        s.words.dom().contains(esi) ==> s.after_window(closed, r).words.dom().contains(esi)
            && s.after_window(closed, r).words[esi] == s.words[esi],
        r.words@.dom().contains(esi) && !s.words.dom().contains(esi) ==> s.after_window(
            closed,
            r,
        ).words.dom().contains(esi) && s.after_window(closed, r).words[esi] == r.words@[esi]@,
{
}

/// Once a window said that the transmission ends, that stands; and a session header
/// with a payload stays once it is there.
pub proof fn law_end_and_session_stand<D>(s: SweepState<D>, closed: bool, r: WindowResult<D>)
    ensures
        s.eot_seen ==> s.after_window(closed, r).eot_seen,
        s.app_header is Some ==> s.after_window(closed, r).app_header == s.app_header,
        s.app_header is None && s.after_window(closed, r).app_header is Some ==> s.after_window(
            closed,
            r,
        ).app_header->0.file_size > 0,
{
}

/// The open window at the end of a capture is always decoded, unless it is too short for a
/// preamble: on a live scan as on a last one. The one exception is the preamble at which a
/// capped scan stopped, while the transmission goes on.
pub proof fn law_open_window_is_decoded(
    c: Capture,
    o: SweepOptions,
    positions: Seq<usize>,
    eot_seen: bool,
    hinted: bool,
)
    requires
        positions.len() >= 1,
        !o.position_cap || o.finalize || eot_seen || positions.len() == 1,
    ensures
        ({
            let last = positions.len() - 1;
            let len = c.window_end(positions, last) - c.window_start(positions[last] as int);
            task_of(c, o, positions, last, eot_seen, hinted) is Some <==> len > 256 * c.pitch
        }),
{
}

/// A capped scan leaves its last preamble to the next one, while the transmission goes on.
pub proof fn law_capped_scan_leaves_its_last_preamble(
    c: Capture,
    o: SweepOptions,
    positions: Seq<usize>,
    hinted: bool,
)
    requires
        o.position_cap,
        !o.finalize,
        positions.len() >= 2,
    ensures
        task_of(c, o, positions, positions.len() - 1, false, hinted) is None,
{
}

/// Every window between two preambles is decoded, unless it is too short for a preamble.
pub proof fn law_every_closed_window_is_decoded(
    c: Capture,
    o: SweepOptions,
    positions: Seq<usize>,
    i: int,
    eot_seen: bool,
    hinted: bool,
)
    requires
        0 <= i < positions.len() - 1,
    ensures
        ({
            let len = c.window_end(positions, i) - c.window_start(positions[i] as int);
            task_of(c, o, positions, i, eot_seen, hinted) is Some <==> len > 256 * c.pitch
        }),
{
}

/// A scan without a cap leaves no window that is long enough undecoded.
pub proof fn law_every_long_window_is_decoded(
    c: Capture,
    o: SweepOptions,
    positions: Seq<usize>,
    i: int,
    eot_seen: bool,
    hinted: bool,
)
    requires
        0 <= i < positions.len(),
        !o.position_cap || o.finalize,
    ensures
        task_of(c, o, positions, i, eot_seen, hinted) is Some <==> c.window_long(positions, i),
        c.window_long(positions, i) <==> c.window_end(positions, i) - c.window_start(
            positions[i] as int,
        ) > 256 * c.pitch,
{
}

/// That nothing follows a capture changes nothing but how an open window is decoded for
/// which no drift is known, and that a scan is not capped.
pub proof fn law_finalize_chooses_the_fallback(o: SweepOptions, closed: bool, hinted: bool)
    requires
        closed || hinted || o.has_session_hint || o.power_mode,
    ensures
        pass_for(SweepOptions { finalize: true, ..o }, closed, hinted) == pass_for(
            SweepOptions { finalize: false, ..o },
            closed,
            hinted,
        ),
{
}

// ---------------------------------------------------------------------------
// Laws on windows
// ---------------------------------------------------------------------------

/// A preamble is visited unless it lies before `skip_until`: one at that very place is.
pub proof fn law_preambles_from_the_limit_on_are_visited(
    found: Seq<usize>,
    skip_until: usize,
    visited: Seq<usize>,
    p: usize,
)
    requires
        visited.to_multiset() == fresh(found, skip_until).to_multiset(),
    ensures
        visited.contains(p) <==> found.contains(p) && skip_until <= p,
{
    let kept = fresh(found, skip_until);
    visited.to_multiset_ensures();
    kept.to_multiset_ensures();
    assert(visited.contains(p) <==> visited.to_multiset().count(p) > 0);
    assert(kept.contains(p) <==> kept.to_multiset().count(p) > 0);
    let keep = |q: usize| q >= skip_until;
    assert(kept == found.filter(keep));
    if kept.contains(p) {
        found.lemma_filter_contains_rev(keep, p);
        let i = choose|i: int| 0 <= i < kept.len() && kept[i] == p;
        found.lemma_filter_pred(keep, i);
    }
    if found.contains(p) && skip_until <= p {
        let i = choose|i: int| 0 <= i < found.len() && found[i] == p;
        found.lemma_filter_contains(keep, i);
    }
}

/// A window reaches from 16 symbols before its preamble to 16 symbols behind the next one,
/// as far as the capture goes, and to the end of the capture behind the last one.
pub proof fn law_window_reaches_from_preamble_to_preamble(
    c: Capture,
    positions: Seq<usize>,
    i: int,
    x: int,
)
    requires
        c.valid(),
        0 <= i < positions.len(),
        i + 1 < positions.len() ==> positions[i] <= positions[i + 1],
        positions[i] < c.n_samples,
        0 <= x < c.n_samples,
    ensures
        ({
            let inside = c.window_start(positions[i] as int) <= x < c.window_end(positions, i);
            let before = positions[i] - x <= 16 * c.pitch;
            if i + 1 < positions.len() {
                inside <==> before && x - positions[i + 1] < 16 * c.pitch
            } else {
                inside <==> before
            }
        }),
{
    assert(c.margin() == 16 * c.pitch) by (nonlinear_arith)
        requires
            c.margin() == (RRC_SPAN_SYM + 4) * c.pitch,
            RRC_SPAN_SYM == 12,
    ;
    assert(16 * c.pitch >= 16);
}

/// A window is decoded only if it holds more than the 256 symbols of a preamble.
pub proof fn law_window_holds_more_than_a_preamble(
    c: Capture,
    o: SweepOptions,
    positions: Seq<usize>,
    i: int,
    eot_seen: bool,
    hinted: bool,
)
    requires
        c.valid(),
        0 <= i < positions.len(),
    ensures
        task_of(c, o, positions, i, eot_seen, hinted) matches Some(t) ==> {
            &&& t.end - t.start > 256 * c.pitch
            &&& t.start == c.window_start(positions[i] as int)
            &&& t.end == c.window_end(positions, i)
            &&& t.closed <==> i + 1 < positions.len()
        },
{
    assert(c.window_start(positions[i] as int) >= 0);
    assert(c.margin() >= 0) by (nonlinear_arith)
        requires
            c.margin() == (RRC_SPAN_SYM + 4) * c.pitch,
            RRC_SPAN_SYM == 12,
            c.pitch >= 1,
    ;
}

/// How a window is decoded. In power mode the drift is searched widely between two
/// preambles, and not at all behind the last. Otherwise a drift that is known is undone:
/// behind the last preamble that of the last closed window, else that of the session. With
/// none known, it is searched for between two preambles and on a last scan, and behind the
/// last preamble of a live scan the window is taken as it is.
pub proof fn law_known_drift_is_undone(o: SweepOptions, hinted: bool)
    ensures
        o.power_mode ==> pass_for(o, true, hinted) == Pass::WideGrid && pass_for(o, false, hinted)
            == Pass::Single,
        !o.power_mode && o.has_session_hint ==> pass_for(o, true, hinted) == Pass::FromSession,
        !o.power_mode && hinted ==> pass_for(o, false, hinted) == Pass::FromWindow,
        !o.power_mode && !hinted && o.has_session_hint ==> pass_for(o, false, hinted)
            == Pass::FromSession,
        !o.power_mode && !o.has_session_hint ==> pass_for(o, true, hinted) == (Pass::Search {
            allow_grid: o.allow_legacy_grid,
            allow_fast_path: o.allow_legacy_grid,
        }),
        !o.power_mode && !hinted && !o.has_session_hint && o.finalize ==> pass_for(
            o,
            false,
            hinted,
        ) == (Pass::Search { allow_grid: true, allow_fast_path: true }),
        !o.power_mode && !hinted && !o.has_session_hint && !o.finalize ==> pass_for(
            o,
            false,
            hinted,
        ) == Pass::Single,
{
}

/// Windows are visited in order and none that is to be decoded is passed over.
pub proof fn law_no_window_is_passed_over(
    c: Capture,
    o: SweepOptions,
    positions: Seq<usize>,
    i: int,
    eot_seen: bool,
    hinted: bool,
    j: int,
)
    requires
        0 <= i <= positions.len(),
    ensures
        ({
            let next = next_index(c, o, positions, i, eot_seen, hinted);
            &&& i <= next <= positions.len()
            &&& i <= j < next ==> task_of(c, o, positions, j, eot_seen, hinted) is None
            &&& next < positions.len() ==> task_of(
                c,
                o,
                positions,
                next,
                eot_seen,
                hinted,
            ) is Some
        }),
    decreases positions.len() - i,
{
    if i < positions.len() && task_of(c, o, positions, i, eot_seen, hinted) is None {
        law_no_window_is_passed_over(c, o, positions, i + 1, eot_seen, hinted, j);
    }
}

/// The counts of all windows add up. The drift that is reported is that of the last window
/// that decoded, and the drift that is passed on that of the last closed one. The first
/// header stays.
pub proof fn law_windows_add_up<D>(s: SweepState<D>, closed: bool, r: WindowResult<D>)
    ensures
        ({
            let t = s.after_window(closed, r);
            &&& t.converged - s.converged == r.tally.converged_blocks
            &&& t.total - s.total == r.tally.total_blocks
            &&& t.decoded - s.decoded == r.tally.segments_decoded
            &&& t.lost - s.lost == r.tally.segments_lost
            &&& t.reported == Some(r.drift)
            &&& closed ==> t.hint == Some(r.drift)
            &&& !closed ==> t.hint == s.hint
            &&& s.header is Some ==> t.header == s.header
            &&& s.header is None ==> t.header == r.header
            &&& t.eot_seen <==> s.eot_seen || r.eot_seen
            &&& s.app_header is None && r.app_header is Some && r.app_header->0.file_size > 0
                ==> t.app_header == r.app_header
        }),
{
}

/// A window brings no codeword that it did not hold.
pub proof fn law_windows_bring_only_their_codewords<D>(
    s: SweepState<D>,
    closed: bool,
    r: WindowResult<D>,
    esi: u32,
)
    ensures
        s.after_window(closed, r).words.dom().contains(esi) ==> s.words.dom().contains(esi)
            || r.words@.dom().contains(esi),
{
}

/// The window that comes next is decoded by what the sweep knows: with the drift of the last
/// closed window that decoded, if there is one, and otherwise as without.
pub proof fn law_sweep_passes_its_drift_on<D: Copy>(s: Sweep<D>)
    requires
        s.next_window() is Some,
    ensures
        ({
            let task = s.next_window()->0;
            let o = s.spec_options();
            &&& !task.closed && !o.power_mode && s.state().hint is Some ==> task.pass
                == Pass::FromWindow
            &&& task.pass == Pass::FromWindow ==> s.state().hint is Some
            &&& task.closed <==> s.next_place() + 1 < s.spec_positions().len()
        }),
{
}

/// A sweep starts with nothing found, and visits its preambles from the first to the last.
pub proof fn law_sweep_starts_empty<D>(positions: Seq<usize>, i: int, j: int)
    requires
        sorted(positions),
        0 <= i < j < positions.len(),
    ensures
        positions[i] <= positions[j],
        ({
            let s = SweepState::<D>::start();
            &&& s.words.dom().len() == 0
            &&& s.converged == 0 && s.total == 0 && s.decoded == 0 && s.lost == 0
            &&& s.header is None && s.app_header is None
            &&& s.hint is None && s.reported is None
            &&& !s.eot_seen
        }),
{
    assert(SweepState::<D>::start().words.dom() =~= Set::empty());
}

} // verus!
