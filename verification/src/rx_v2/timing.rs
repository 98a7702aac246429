//! Collecting markers for the timing estimate.
//!
//! The estimate compares where markers are with where they should be. Behind a marker
//! that could be read the scan goes on behind its segment; behind one that could not,
//! and where none was found, it goes on a marker's length further.

use vstd::prelude::*;

use crate::marker::{MarkerPayload, MARKER_LEN, MARKER_SYNC_LEN};
use crate::pilot;
use crate::rx_v2::walk;
use crate::rx_v2::walk::Layout;

verus! {

/// Symbols past an expected marker that are searched for it.
pub const TIMING_WINDOW: usize = 64;

/// Markers needed for an estimate.
pub const MIN_MARKERS: usize = 3;

/// A marker of the scan.
#[derive(Clone, Copy, Debug, PartialEq, Eq, Structural)]
pub struct FoundMarker {
    /// Where it was found, in symbols behind the header.
    pub found: usize,
    /// Where it should be, by the segments of the markers before it.
    pub expected: usize,
}

/// Symbols from a marker to the next.
pub open spec fn stride(l: Layout, payload: MarkerPayload) -> int {
    MARKER_LEN + l.segment_len(walk::codewords_of(payload))
}

/// State of a scan.
#[verifier::ext_equal]
pub struct TimingState {
    pub cursor: int,
    pub due: int,
    pub markers: Seq<FoundMarker>,
}

impl TimingState {
    /// A scan at its start.
    pub open spec fn start() -> Self {
        TimingState { cursor: 0, due: 0, markers: Seq::empty() }
    }

    /// There is room for a marker.
    pub open spec fn can_search(self, l: Layout) -> bool {
        self.cursor + MARKER_LEN <= l.region_len
    }

    /// How many symbols past the cursor to search.
    pub open spec fn width(self, l: Layout) -> int {
        if self.cursor + TIMING_WINDOW <= l.region_len - MARKER_LEN {
            TIMING_WINDOW as int
        } else {
            l.region_len - MARKER_LEN - self.cursor
        }
    }

    /// A search gave no marker, or one that could not be read.
    pub open spec fn after_miss(self) -> Self {
        TimingState { cursor: self.cursor + MARKER_LEN, ..self }
    }

    /// A marker was read at `pos`.
    pub open spec fn after_marker(self, l: Layout, pos: usize, payload: MarkerPayload) -> Self {
        TimingState {
            cursor: pos + stride(l, payload),
            due: self.due + stride(l, payload),
            markers: self.markers.push(FoundMarker { found: pos, expected: self.due as usize }),
        }
    }
}

/// A scan under way.
pub struct TimingScan {
    layout: Layout,
    cursor: usize,
    due: usize,
    markers: Vec<FoundMarker>,
}

impl TimingScan {
    #[verifier::type_invariant]
    spec fn inv(&self) -> bool {
        &&& self.layout.valid()
        &&& self.layout.region_len + self.layout.segment_len(2) + MARKER_LEN <= usize::MAX
        &&& self.due <= self.cursor
        &&& self.cursor <= self.layout.region_len + self.layout.segment_len(2)
    }

    /// Sizes that the scan goes by.
    pub closed spec fn spec_layout(&self) -> Layout {
        self.layout
    }

    /// State of the scan.
    pub closed spec fn state(&self) -> TimingState {
        TimingState {
            cursor: self.cursor as int,
            due: self.due as int,
            markers: self.markers@,
        }
    }

    /// Start a scan over the symbols behind a header.
    pub fn new(layout: Layout) -> (s: Self)
        requires
            layout.valid(),
            layout.region_len + layout.segment_len(2) + MARKER_LEN <= usize::MAX,
        ensures
            s.spec_layout() == layout,
            s.state() == TimingState::start(),
    {
        proof {
            walk::lemma_segment_len(layout, 2);
        }
        TimingScan { layout, cursor: 0, due: 0, markers: Vec::new() }
    }

    /// Where to search next: the first symbol, and how many symbols past it. `None`
    /// once the scan is over.
    pub fn next_search(&self) -> (search: Option<(usize, usize)>)
        ensures
            search is Some <==> self.state().can_search(self.spec_layout()),
            search matches Some((start, width)) ==> start == self.state().cursor && width
                == self.state().width(self.spec_layout()),
    {
        proof {
            use_type_invariant(self);
        }
        if self.layout.region_len < MARKER_LEN || self.cursor > self.layout.region_len
            - MARKER_LEN {
            return None;
        }
        let room: usize = self.layout.region_len - MARKER_LEN - self.cursor;
        if TIMING_WINDOW <= room {
            Some((self.cursor, TIMING_WINDOW))
        } else {
            Some((self.cursor, room))
        }
    }

    /// The search gave no marker, or one that could not be read.
    pub fn missed(self) -> (s: Self)
        requires
            self.state().can_search(self.spec_layout()),
        ensures
            s.spec_layout() == self.spec_layout(),
            s.state() == self.state().after_miss(),
    {
        proof {
            use_type_invariant(&self);
            walk::lemma_segment_len(self.layout, 2);
        }
        TimingScan { cursor: self.cursor + MARKER_LEN, ..self }
    }

    /// A marker was read at `pos`.
    pub fn read_marker(self, pos: usize, payload: MarkerPayload) -> (s: Self)
        requires
            self.state().can_search(self.spec_layout()),
            self.state().cursor <= pos,
            pos + MARKER_LEN <= self.spec_layout().region_len,
        ensures
            s.spec_layout() == self.spec_layout(),
            s.state() == self.state().after_marker(self.spec_layout(), pos, payload),
    {
        proof {
            use_type_invariant(&self);
            walk::lemma_segment_len(self.layout, walk::codewords_of(payload));
            walk::lemma_segment_len(self.layout, 2);
        }
        let n_cw: usize = if payload.is_meta() {
            1
        } else {
            2
        };
        let data: usize = n_cw * self.layout.syms_per_cw;
        let len: usize = pilot::stream_len(data, &self.layout.pattern);
        let TimingScan { layout, cursor: _, due, markers } = self;
        let mut markers = markers;
        markers.push(FoundMarker { found: pos, expected: due });
        TimingScan {
            layout,
            cursor: pos + MARKER_LEN + len,
            due: due + MARKER_LEN + len,
            markers,
        }
    }

    /// End the scan and take the markers; `None` where there are too few.
    pub fn finish(self) -> (markers: Option<Vec<FoundMarker>>)
        ensures
            markers is None <==> self.state().markers.len() < MIN_MARKERS,
            markers is Some <==> self.state().markers.len() >= 3,
            markers matches Some(m) ==> m@ == self.state().markers,
    {
        if self.markers.len() < MIN_MARKERS {
            None
        } else {
            Some(self.markers)
        }
    }
}

/// First and last place at which to correlate.
pub open spec fn span_of(at: int, pitch: int, n: int) -> (int, int) {
    let last = if n >= MARKER_SYNC_LEN * pitch {
        n - MARKER_SYNC_LEN * pitch
    } else {
        0
    };
    (
        if at >= pitch {
            at - pitch
        } else {
            0
        },
        if at + pitch <= last {
            at + pitch
        } else {
            last
        },
    )
}

/// First and last place at which to correlate for a marker expected at `at`, in a
/// signal of `n` samples: a symbol on each side, as far as the pattern fits.
pub fn correlation_span(at: usize, pitch: usize, n: usize) -> (span: (usize, usize))
    requires
        MARKER_SYNC_LEN * pitch <= usize::MAX,
        at + pitch <= usize::MAX,
    ensures
        span.0 == span_of(at as int, pitch as int, n as int).0,
        span.1 == span_of(at as int, pitch as int, n as int).1,
{
    let lo: usize = if at >= pitch {
        at - pitch
    } else {
        0
    };
    let last: usize = if n >= MARKER_SYNC_LEN * pitch {
        n - MARKER_SYNC_LEN * pitch
    } else {
        0
    };
    let hi: usize = if at + pitch <= last {
        at + pitch
    } else {
        last
    };
    (lo, hi)
}

/// A scan always moves on, so it ends.
pub proof fn law_scan_moves_on(s: TimingState, l: Layout, pos: usize, payload: MarkerPayload)
    requires
        l.valid(),
        s.cursor <= pos,
    ensures
        s.after_miss().cursor >= s.cursor + MARKER_LEN,
        s.after_marker(l, pos, payload).cursor >= s.cursor + MARKER_LEN,
{
    walk::lemma_segment_len(l, walk::codewords_of(payload));
}

/// Markers are expected at even distances: each one a marker and a segment behind the one
/// before. A segment holds one codeword behind a meta marker and two behind another, with
/// `p` pilots for each group of `d` symbols that it begins.
pub proof fn law_markers_are_expected_behind_each_other(
    s: TimingState,
    l: Layout,
    pos: usize,
    payload: MarkerPayload,
    next: MarkerPayload,
    next_pos: usize,
    groups: int,
)
    requires
        l.valid(),
        0 <= s.due,
        s.due + 64 + l.segment_len(2) <= usize::MAX,
        ({
            let n = if payload.flags % 2 == 1 {
                l.syms_per_cw as int
            } else {
                2 * l.syms_per_cw
            };
            (groups - 1) * l.pattern.d_syms < n <= groups * l.pattern.d_syms
        }),
    ensures
        ({
            let n_cw = if payload.flags % 2 == 1 {
                1int
            } else {
                2
            };
            let away = 64 + n_cw * l.syms_per_cw + groups * l.pattern.p_syms;
            let one = s.after_marker(l, pos, payload);
            let two = one.after_marker(l, next_pos, next);
            let k = s.markers.len() as int;
            &&& two.markers.len() == k + 2
            &&& two.markers[k].found == pos
            &&& two.markers[k].expected == s.due
            &&& two.markers[k + 1].found == next_pos
            &&& two.markers[k + 1].expected - two.markers[k].expected == away
            &&& one.cursor - pos == away
            &&& two.markers.take(k) == s.markers
        }),
{
    walk::lemma_segment_len(l, 1);
    walk::lemma_segment_len(l, 2);
    let f = payload.flags;
    assert((f & 1 != 0) <==> f % 2 == 1) by (bit_vector);
    let n = walk::codewords_of(payload) * l.syms_per_cw;
    assert(n == if payload.flags % 2 == 1 {
        l.syms_per_cw as int
    } else {
        2 * l.syms_per_cw
    }) by (nonlinear_arith)
        requires
            n == walk::codewords_of(payload) * l.syms_per_cw,
            walk::codewords_of(payload) == if payload.flags % 2 == 1 {
                1int
            } else {
                2
            },
    ;
    walk::lemma_groups(n, l.pattern.d_syms as int, groups);
    let two = s.after_marker(l, pos, payload).after_marker(l, next_pos, next);
    assert(two.markers.take(s.markers.len() as int) =~= s.markers);
}

/// A search window is 64 symbols wide, as far as a marker fits, and a miss moves it on by
/// the length of a marker without a change to what is expected.
pub proof fn law_misses_change_no_expectation(s: TimingState, l: Layout)
    ensures
        s.cursor + 128 <= l.region_len ==> s.width(l) == 64,
        s.cursor + 64 + s.width(l) <= l.region_len,
        s.can_search(l) <==> s.cursor + 64 <= l.region_len,
        s.after_miss().cursor == s.cursor + 64,
        s.after_miss().due == s.due,
        s.after_miss().markers == s.markers,
{
}

/// A marker is correlated for within one symbol of its place, wherever the 32 symbols of
/// its pattern fit the signal.
pub proof fn law_correlation_stays_near_the_marker(at: int, pitch: int, n: int, x: int)
    requires
        at >= 0,
        pitch >= 0,
        n >= 32 * pitch,
        x >= 0,
    ensures
        span_of(at, pitch, n).0 <= x <= span_of(at, pitch, n).1 <==> at - pitch <= x <= at + pitch
            && x + 32 * pitch <= n,
{
}

/// A scan starts at the first symbol, where the first marker is expected.
pub proof fn law_scan_starts_at_the_first_symbol()
    ensures
        TimingState::start().cursor == 0,
        TimingState::start().due == 0,
        TimingState::start().markers.len() == 0,
{
}

} // verus!
