//! Walk through the symbols behind a header, segment by segment.
//!
//! At each expected marker a small window is searched for the sync pattern; after
//! two failures in a row the window is widened. The first marker fixes the session;
//! a marker of another session ends the walk.

use std::collections::HashMap;

use vstd::prelude::*;

use crate::app_header;
use crate::app_header::AppHeader;
use crate::frame;
use crate::frame::V2_CODEWORDS_PER_SEGMENT;
use crate::interleaver;
use crate::marker::{MarkerPayload, MARKER_LEN, META_FLAG_BIT};
use crate::pilot;
use crate::profile::{ModemConfig, PilotPattern};
use crate::raptorq_codec;
use crate::rx_v2::tally::Tally;

verus! {

/// Search width at an expected marker, in symbols.
pub const NARROW_WINDOW: usize = 8;

/// Search width after repeated failures.
pub const WIDE_WINDOW: usize = 512;

/// Sizes that the walk goes by.
#[derive(Clone, Copy, Debug, PartialEq, Eq, Structural)]
pub struct Layout {
    /// Symbols behind the header.
    pub region_len: usize,
    /// Symbols of a codeword.
    pub syms_per_cw: usize,
    /// Bytes of a decoded codeword.
    pub k_bytes: usize,
    pub pattern: PilotPattern,
}

impl Layout {
    /// Lengths of segments can be computed.
    pub open spec fn valid(self) -> bool {
        &&& self.pattern.d_syms >= 1
        &&& self.segment_len(2) <= usize::MAX
    }

    /// Symbols of a segment with pilots.
    pub open spec fn segment_len(self, n_cw: int) -> int {
        pilot::total_symbols(
            n_cw * self.syms_per_cw,
            self.pattern.d_syms as int,
            self.pattern.p_syms as int,
        )
    }

    /// The sizes of a configuration, for so many symbols behind the header.
    pub open spec fn spec_of(config: ModemConfig, region_len: usize) -> Layout {
        Layout {
            region_len,
            syms_per_cw: frame::word_len(config.constellation) as usize,
            k_bytes: (config.ldpc_rate.spec_k() / 8) as usize,
            pattern: config.pilot_pattern,
        }
    }

    /// The sizes of a configuration, for so many symbols behind the header.
    pub fn of(config: &ModemConfig, region_len: usize) -> (l: Layout)
        ensures
            l == Layout::spec_of(*config, region_len),
    {
        proof {
            frame::lemma_word_sizes(config.constellation);
        }
        let bits: usize = interleaver::padded_cw_bits(config.ldpc_rate.n(), config.constellation);
        Layout {
            region_len,
            syms_per_cw: bits / config.constellation.bits_per_sym(),
            k_bytes: config.ldpc_rate.k() / 8,
            pattern: config.pilot_pattern,
        }
    }
}

/// A segment to demodulate.
#[derive(Clone, Copy, Debug, PartialEq, Eq, Structural)]
pub struct SegmentSpan {
    pub start: usize,
    pub len: usize,
    pub n_cw: usize,
    pub payload: MarkerPayload,
}

/// Whether a marker opens a meta segment.
pub open spec fn is_meta(payload: MarkerPayload) -> bool {
    payload.flags & META_FLAG_BIT != 0
}

/// Codewords of the segment behind a marker.
pub open spec fn codewords_of(payload: MarkerPayload) -> int {
    if is_meta(payload) {
        1
    } else {
        V2_CODEWORDS_PER_SEGMENT as int
    }
}

/// The numbers of the data codewords behind a marker have 24 bits. Behind a marker of a
/// meta segment there are none.
pub open spec fn numbers_fit(payload: MarkerPayload) -> bool {
    is_meta(payload) || payload.base_esi + V2_CODEWORDS_PER_SEGMENT <= raptorq_codec::MAX_ESI
}

/// State of a walk.
#[verifier::ext_equal]
pub struct WalkState {
    pub cursor: int,
    pub fails: int,
    pub session: Option<u8>,
    pub over: bool,
    pub pending: Option<SegmentSpan>,
    pub decoded: int,
    pub lost: int,
    pub total: int,
    pub converged: int,
    pub app_header: Option<AppHeader>,
    pub words: Map<u32, Seq<u8>>,
}

/// What came out of one codeword: its bytes, and whether its parity checks hold.
#[verifier::ext_equal]
pub struct WordResult {
    pub bytes: Seq<u8>,
    pub converged: bool,
}

impl WalkState {
    /// A walk at its start.
    pub open spec fn start() -> Self {
        WalkState {
            cursor: 0,
            fails: 0,
            session: None,
            over: false,
            pending: None,
            decoded: 0,
            lost: 0,
            total: 0,
            converged: 0,
            app_header: None,
            words: Map::empty(),
        }
    }

    /// There is room for a marker.
    pub open spec fn can_search(self, l: Layout) -> bool {
        !self.over && self.pending is None && self.cursor + MARKER_LEN <= l.region_len
    }

    /// How many symbols past the cursor to search.
    pub open spec fn width(self, l: Layout) -> int {
        let w = if self.fails >= 2 {
            WIDE_WINDOW as int
        } else {
            NARROW_WINDOW as int
        };
        if self.cursor + w <= l.region_len - MARKER_LEN {
            w
        } else {
            l.region_len - MARKER_LEN - self.cursor
        }
    }

    /// No sync pattern was found in the window.
    pub open spec fn after_no_sync(self) -> Self {
        WalkState {
            cursor: self.cursor + MARKER_LEN,
            fails: self.fails + 1,
            lost: self.lost + 1,
            ..self
        }
    }

    /// A sync pattern was found but its control data was refused.
    pub open spec fn after_bad_marker(self, pos: int) -> Self {
        WalkState {
            cursor: pos + MARKER_LEN,
            fails: self.fails + 1,
            lost: self.lost + 1,
            ..self
        }
    }

    /// A marker of another session.
    pub open spec fn is_foreign(self, payload: MarkerPayload) -> bool {
        self.session matches Some(s) && s != payload.session_id_low
    }

    /// A marker was read at `pos`.
    pub open spec fn after_marker(self, l: Layout, pos: int, payload: MarkerPayload) -> Self {
        if self.is_foreign(payload) {
            WalkState { cursor: pos, fails: 0, over: true, ..self }
        } else {
            let start = pos + MARKER_LEN;
            let len = l.segment_len(codewords_of(payload));
            if start + len > l.region_len {
                WalkState {
                    cursor: start,
                    fails: 0,
                    session: Some(payload.session_id_low),
                    over: true,
                    ..self
                }
            } else {
                WalkState {
                    cursor: start + len,
                    fails: 0,
                    session: Some(payload.session_id_low),
                    pending: Some(
                        SegmentSpan {
                            start: start as usize,
                            len: len as usize,
                            n_cw: codewords_of(payload) as usize,
                            payload,
                        },
                    ),
                    ..self
                }
            }
        }
    }

    /// The segment gave too few symbols.
    pub open spec fn after_short_segment(self) -> Self {
        WalkState { pending: None, lost: self.lost + 1, ..self }
    }

    /// Codeword `i` of the segment was decoded.
    pub open spec fn after_word(self, payload: MarkerPayload, i: int, w: WordResult) -> Self {
        let counted = WalkState {
            total: self.total + 1,
            converged: self.converged + (if w.converged {
                1int
            } else {
                0
            }),
            ..self
        };
        if !w.converged {
            counted
        } else if is_meta(payload) {
            match app_header::meta_of(w.bytes) {
                Some(h) => WalkState { app_header: Some(h), ..counted },
                None => counted,
            }
        } else {
            WalkState {
                words: self.words.insert((payload.base_esi + i) as u32, w.bytes),
                ..counted
            }
        }
    }

    /// The first `n` codewords of the segment were decoded.
    pub open spec fn after_words(self, payload: MarkerPayload, words: Seq<WordResult>, n: int) -> Self
        decreases n,
    {
        if n <= 0 {
            self
        } else {
            self.after_words(payload, words, n - 1).after_word(payload, n - 1, words[n - 1])
        }
    }

    /// All codewords of the pending segment were decoded.
    pub open spec fn after_segment(self, words: Seq<WordResult>) -> Self {
        let done = self.after_words(self.pending->0.payload, words, words.len() as int);
        WalkState { pending: None, decoded: self.decoded + 1, ..done }
    }

    /// Counts of the walk.
    pub open spec fn is_tally(self, t: Tally) -> bool {
        &&& t.converged_blocks == self.converged
        &&& t.total_blocks == self.total
        &&& t.segments_decoded == self.decoded
        &&& t.segments_lost == self.lost
        &&& t.data_blocks_recovered == self.words.dom().len()
    }
}

/// A decoded codeword.
pub struct DecodedWord {
    pub bytes: Vec<u8>,
    pub converged: bool,
}

/// Decoded codewords as results.
pub open spec fn results(words: Seq<DecodedWord>) -> Seq<WordResult> {
    Seq::new(
        words.len(),
        |i: int| WordResult { bytes: words[i].bytes@, converged: words[i].converged },
    )
}

/// What a finished walk found.
pub struct WalkOutcome {
    pub tally: Tally,
    pub app_header: Option<AppHeader>,
    pub words: HashMap<u32, Vec<u8>>,
}

/// A walk under way.
pub struct Walk {
    layout: Layout,
    cursor: usize,
    fails: usize,
    session: Option<u8>,
    over: bool,
    pending: Option<SegmentSpan>,
    decoded: usize,
    lost: usize,
    total: usize,
    converged: usize,
    app_header: Option<AppHeader>,
    words: HashMap<u32, Vec<u8>>,
}

/// Segments of one and of two codewords have lengths that fit.
pub proof fn lemma_segment_len(l: Layout, n_cw: int)
    requires
        l.valid(),
        0 <= n_cw <= 2,
    ensures
        0 <= n_cw * l.syms_per_cw <= l.segment_len(n_cw) <= l.segment_len(2),
        0 <= n_cw * l.syms_per_cw <= usize::MAX,
{
    let d = l.pattern.d_syms as int;
    let p = l.pattern.p_syms as int;
    let w = l.syms_per_cw as int;
    assert(0 <= n_cw * w <= 2 * w) by (nonlinear_arith)
        requires
            0 <= n_cw <= 2,
            w >= 0,
    ;
    vstd::arithmetic::div_mod::lemma_div_is_ordered(n_cw * w + d - 1, 2 * w + d - 1, d);
    vstd::arithmetic::div_mod::lemma_div_pos_is_pos(n_cw * w + d - 1, d);
    let a = pilot::n_groups(n_cw * w, d);
    let b = pilot::n_groups(2 * w, d);
    assert(0 <= a * p <= b * p) by (nonlinear_arith)
        requires
            0 <= a <= b,
            p >= 0,
    ;
}

impl Walk {
    #[verifier::type_invariant]
    spec fn inv(&self) -> bool {
        &&& self.layout.valid()
        &&& self.fails <= self.lost
        &&& (self.decoded + self.lost + (if self.pending is Some {
            1int
        } else {
            0
        })) * 64 <= self.cursor
        &&& self.total <= 2 * self.decoded
        &&& self.converged <= self.total
        &&& self.cursor <= self.layout.region_len
        &&& self.pending matches Some(s) ==> s.n_cw == codewords_of(s.payload) && numbers_fit(
            s.payload,
        ) && s.start + s.len <= self.layout.region_len
        &&& raptorq_codec::well_sized(
            raptorq_codec::packet_bytes(self.words@),
            self.layout.k_bytes as int,
        )
        &&& self.words@.dom().finite()
    }

    /// Sizes that the walk goes by.
    pub closed spec fn spec_layout(&self) -> Layout {
        self.layout
    }

    /// State of the walk.
    pub closed spec fn state(&self) -> WalkState {
        WalkState {
            cursor: self.cursor as int,
            fails: self.fails as int,
            session: self.session,
            over: self.over,
            pending: self.pending,
            decoded: self.decoded as int,
            lost: self.lost as int,
            total: self.total as int,
            converged: self.converged as int,
            app_header: self.app_header,
            words: raptorq_codec::packet_bytes(self.words@),
        }
    }

    /// Start a walk.
    pub fn new(layout: Layout) -> (w: Self)
        requires
            layout.valid(),
        ensures
            w.spec_layout() == layout,
            w.state() == WalkState::start(),
    {
        broadcast use vstd::std_specs::hash::group_hash_axioms;

        let words: HashMap<u32, Vec<u8>> = HashMap::new();
        proof {
            assert(raptorq_codec::packet_bytes(words@) =~= Map::empty());
        }
        Walk {
            layout,
            cursor: 0,
            fails: 0,
            session: None,
            over: false,
            pending: None,
            decoded: 0,
            lost: 0,
            total: 0,
            converged: 0,
            app_header: None,
            words,
        }
    }

    /// Where to search for the next marker: first symbol, and how many symbols past
    /// it. `None` once the walk is over or while a segment is pending.
    pub fn next_search(&self) -> (search: Option<(usize, usize)>)
        ensures
            search is Some <==> self.state().can_search(self.spec_layout()),
            search matches Some((start, width)) ==> {
                &&& start == self.state().cursor
                &&& width == self.state().width(self.spec_layout())
                &&& start + width + MARKER_LEN <= self.spec_layout().region_len
            },
    {
        proof {
            use_type_invariant(self);
        }
        if self.over || self.pending.is_some() || self.layout.region_len - self.cursor
            < MARKER_LEN {
            return None;
        }
        let wide: usize = if self.fails >= 2 {
            WIDE_WINDOW
        } else {
            NARROW_WINDOW
        };
        let room: usize = self.layout.region_len - MARKER_LEN - self.cursor;
        let width: usize = if wide <= room {
            wide
        } else {
            room
        };
        Some((self.cursor, width))
    }

    /// No sync pattern was found.
    pub fn no_sync(self) -> (w: Self)
        requires
            self.state().can_search(self.spec_layout()),
        ensures
            w.spec_layout() == self.spec_layout(),
            w.state() == self.state().after_no_sync(),
    {
        proof {
            use_type_invariant(&self);
        }
        Walk {
            cursor: self.cursor + MARKER_LEN,
            fails: self.fails + 1,
            lost: self.lost + 1,
            ..self
        }
    }

    /// A sync pattern was found at `pos` but its control data was refused.
    pub fn bad_marker(self, pos: usize) -> (w: Self)
        requires
            self.state().can_search(self.spec_layout()),
            self.state().cursor <= pos,
            pos + MARKER_LEN <= self.spec_layout().region_len,
        ensures
            w.spec_layout() == self.spec_layout(),
            w.state() == self.state().after_bad_marker(pos as int),
    {
        proof {
            use_type_invariant(&self);
        }
        Walk { cursor: pos + MARKER_LEN, fails: self.fails + 1, lost: self.lost + 1, ..self }
    }

    /// A marker was read at `pos`. The segment behind it is pending afterwards, unless
    /// the walk is over.
    pub fn read_marker(self, pos: usize, payload: MarkerPayload) -> (w: Self)
        requires
            self.state().can_search(self.spec_layout()),
            self.state().cursor <= pos,
            pos + MARKER_LEN <= self.spec_layout().region_len,
            numbers_fit(payload),
        ensures
            w.spec_layout() == self.spec_layout(),
            w.state() == self.state().after_marker(self.spec_layout(), pos as int, payload),
    {
        proof {
            use_type_invariant(&self);
            lemma_segment_len(self.layout, codewords_of(payload));
        }
        match self.session {
            Some(s) => {
                if s != payload.session_id_low {
                    return Walk { cursor: pos, fails: 0, over: true, ..self };
                }
            },
            None => {},
        }
        let n_cw: usize = if payload.is_meta() {
            1
        } else {
            V2_CODEWORDS_PER_SEGMENT
        };
        let len: usize = self.layout_segment_len(n_cw);
        let start: usize = pos + MARKER_LEN;
        if len > self.layout.region_len - start {
            return Walk {
                cursor: start,
                fails: 0,
                session: Some(payload.session_id_low),
                over: true,
                ..self
            };
        }
        Walk {
            cursor: start + len,
            fails: 0,
            session: Some(payload.session_id_low),
            pending: Some(SegmentSpan { start, len, n_cw, payload }),
            ..self
        }
    }

    /// Symbols of a segment with pilots.
    fn layout_segment_len(&self, n_cw: usize) -> (len: usize)
        requires
            self.layout.valid(),
            n_cw <= 2,
        ensures
            len == self.layout.segment_len(n_cw as int),
    {
        proof {
            lemma_segment_len(self.layout, n_cw as int);
        }
        pilot::stream_len(n_cw * self.layout.syms_per_cw, &self.layout.pattern)
    }

    /// The segment that waits for its symbols.
    pub fn pending_segment(&self) -> (span: Option<SegmentSpan>)
        ensures
            span == self.state().pending,
            span matches Some(s) ==> s.start + s.len <= self.spec_layout().region_len && s.n_cw
                == codewords_of(s.payload),
    {
        proof {
            use_type_invariant(self);
        }
        self.pending
    }

    /// The pending segment gave too few symbols.
    pub fn short_segment(self) -> (w: Self)
        requires
            self.state().pending is Some,
        ensures
            w.spec_layout() == self.spec_layout(),
            w.state() == self.state().after_short_segment(),
    {
        proof {
            use_type_invariant(&self);
        }
        Walk { pending: None, lost: self.lost + 1, ..self }
    }

    /// The codewords of the pending segment were decoded. Meta codewords give the
    /// session header; data codewords are kept by their number. Only codewords whose
    /// parity checks hold count.
    pub fn segment(self, words: Vec<DecodedWord>) -> (w: Self)
        requires
            self.state().pending is Some,
            words@.len() == self.state().pending->0.n_cw,
            forall|i: int|
                0 <= i < words@.len() ==> (#[trigger] words@[i]).bytes@.len()
                    == self.spec_layout().k_bytes,
        ensures
            w.spec_layout() == self.spec_layout(),
            w.state() == self.state().after_segment(results(words@)),
    {
        broadcast use vstd::std_specs::hash::group_hash_axioms;

        proof {
            use_type_invariant(&self);
        }
        let ghost before = self.state();
        let ghost list = results(words@);
        let Walk {
            layout,
            cursor,
            fails,
            session,
            over,
            pending,
            decoded,
            lost,
            total,
            converged,
            app_header,
            words: kept,
        } = self;
        let mut total = total;
        let mut converged = converged;
        let mut app_header = app_header;
        let mut kept = kept;
        match pending {
            None => {
                Walk {
                    layout,
                    cursor,
                    fails,
                    session,
                    over,
                    pending: None,
                    decoded,
                    lost,
                    total,
                    converged,
                    app_header,
                    words: kept,
                }
            },
            Some(span) => {
                let meta: bool = span.payload.is_meta();
                let mut i: usize = 0;
                while i < words.len()
                    invariant
                        i <= words@.len() <= 2,
                        list == results(words@),
                        meta == is_meta(span.payload),
                        numbers_fit(span.payload),
                        forall|j: int|
                            0 <= j < words@.len() ==> (#[trigger] words@[j]).bytes@.len()
                                == layout.k_bytes,
                        kept@.dom().finite(),
                        raptorq_codec::well_sized(
                            raptorq_codec::packet_bytes(kept@),
                            layout.k_bytes as int,
                        ),
                        total == before.total + i,
                        total + 2 <= usize::MAX,
                        before.total <= usize::MAX - 4,
                        converged <= total,
                        before.after_words(span.payload, list, i as int) == (WalkState {
                            total: total as int,
                            converged: converged as int,
                            app_header,
                            words: raptorq_codec::packet_bytes(kept@),
                            ..before
                        }),
                    decreases words@.len() - i,
                {
                    let ghost old_kept = kept@;
                    let word = &words[i];
                    total = total + 1;
                    if word.converged {
                        converged = converged + 1;
                        if meta {
                            match app_header::decode_meta_payload(word.bytes.as_slice()) {
                                Some(h) => {
                                    app_header = Some(h);
                                },
                                None => {},
                            }
                        } else {
                            let esi: u32 = span.payload.base_esi + i as u32;
                            let bytes = word.bytes.clone();
                            proof {
                                assert(bytes@ =~= words@[i as int].bytes@);
                            }
                            let ghost value = bytes;
                            kept.insert(esi, bytes);
                            proof {
                                assert(kept@ =~= old_kept.insert(esi, value));
                                assert(raptorq_codec::packet_bytes(kept@)
                                    =~= raptorq_codec::packet_bytes(old_kept).insert(esi, value@));
                            }
                        }
                    }
                    i = i + 1;
                }
                Walk {
                    layout,
                    cursor,
                    fails,
                    session,
                    over,
                    pending: None,
                    decoded: decoded + 1,
                    lost,
                    total,
                    converged,
                    app_header,
                    words: kept,
                }
            },
        }
    }

    /// End the walk and take what it found.
    pub fn finish(self) -> (out: WalkOutcome)
        ensures
            self.state().is_tally(out.tally),
            out.tally.valid(),
            out.app_header == self.state().app_header,
            raptorq_codec::packet_bytes(out.words@) == self.state().words,
            raptorq_codec::well_sized(
                raptorq_codec::packet_bytes(out.words@),
                self.spec_layout().k_bytes as int,
            ),
    {
        broadcast use vstd::std_specs::hash::group_hash_axioms;

        proof {
            use_type_invariant(&self);
            assert(raptorq_codec::packet_bytes(self.words@).dom() =~= self.words@.dom());
        }
        let n: usize = self.words.len();
        WalkOutcome {
            tally: Tally {
                converged_blocks: self.converged,
                total_blocks: self.total,
                segments_decoded: self.decoded,
                segments_lost: self.lost,
                data_blocks_recovered: n,
            },
            app_header: self.app_header,
            words: self.words,
        }
    }
}

// ---------------------------------------------------------------------------
// Laws
// ---------------------------------------------------------------------------

/// A walk always moves on: whatever comes of a search, the cursor grows by at least
/// a marker, or the walk is over. So it ends.
pub proof fn law_walk_moves_on(s: WalkState, l: Layout, pos: int, payload: MarkerPayload)
    requires
        l.valid(),
        s.can_search(l),
        s.cursor <= pos,
    ensures
        s.after_no_sync().cursor >= s.cursor + MARKER_LEN,
        s.after_bad_marker(pos).cursor >= s.cursor + MARKER_LEN,
        s.after_marker(l, pos, payload).over || s.after_marker(l, pos, payload).cursor >= s.cursor
            + MARKER_LEN,
{
    lemma_segment_len(l, codewords_of(payload));
}

/// Once a session is fixed it stays, and no segment of another session is taken.
pub proof fn law_session_is_locked(s: WalkState, l: Layout, pos: int, payload: MarkerPayload)
    ensures
        s.session is Some ==> s.after_marker(l, pos, payload).session == s.session,
        s.pending is None && s.after_marker(l, pos, payload).pending is Some ==> s.after_marker(
            l,
            pos,
            payload,
        ).session == Some(payload.session_id_low),
        s.is_foreign(payload) ==> s.after_marker(l, pos, payload).over,
{
}

/// A codeword whose parity checks fail leaves header and data as they were.
pub proof fn law_failed_codeword_is_dropped(
    s: WalkState,
    payload: MarkerPayload,
    i: int,
    w: WordResult,
)
    requires
        !w.converged,
    ensures
        s.after_word(payload, i, w).words == s.words,
        s.after_word(payload, i, w).app_header == s.app_header,
        s.after_word(payload, i, w).converged == s.converged,
{
}

/// The segment behind a marker holds one codeword if the marker has the meta flag and two
/// otherwise, and `p` pilots for each group of `d` data symbols that it begins. It is taken
/// right behind the marker, where the region holds all of it, and the walk goes on behind
/// it; otherwise the walk is over.
pub proof fn law_segment_lies_behind_its_marker(
    s: WalkState,
    l: Layout,
    pos: int,
    payload: MarkerPayload,
    groups: int,
)
    requires
        l.valid(),
        s.pending is None,
        0 <= pos,
        pos + 64 + l.segment_len(2) <= usize::MAX,
        s.session is None || s.session == Some(payload.session_id_low),
        ({
            let n = if payload.flags % 2 == 1 {
                l.syms_per_cw as int
            } else {
                2 * l.syms_per_cw
            };
            (groups - 1) * l.pattern.d_syms < n <= groups * l.pattern.d_syms
        }),
    ensures
        ({
            let n_cw = if payload.flags % 2 == 1 {
                1int
            } else {
                2
            };
            let len = n_cw * l.syms_per_cw + groups * l.pattern.p_syms;
            let t = s.after_marker(l, pos, payload);
            &&& t.session == Some(payload.session_id_low)
            &&& t.fails == 0
            &&& pos + 64 + len <= l.region_len ==> {
                &&& !t.over || s.over
                &&& t.cursor == pos + 64 + len
                &&& t.pending == Some(
                    SegmentSpan {
                        start: (pos + 64) as usize,
                        len: len as usize,
                        n_cw: n_cw as usize,
                        payload,
                    },
                )
            }
            &&& pos + 64 + len > l.region_len ==> t.over && t.pending is None
        }),
{
    lemma_meta_is_the_low_bit(payload);
    lemma_segment_len(l, 1);
    lemma_segment_len(l, 2);
    let n = codewords_of(payload) * l.syms_per_cw;
    let d = l.pattern.d_syms as int;
    assert(n == if payload.flags % 2 == 1 {
        l.syms_per_cw as int
    } else {
        2 * l.syms_per_cw
    }) by (nonlinear_arith)
        requires
            n == codewords_of(payload) * l.syms_per_cw,
            codewords_of(payload) == if payload.flags % 2 == 1 {
                1int
            } else {
                2
            },
    ;
    lemma_groups(n, d, groups);
}

/// How many groups of `d` some symbols begin.
pub proof fn lemma_groups(n: int, d: int, groups: int)
    requires
        d >= 1,
        (groups - 1) * d < n <= groups * d,
    ensures
        pilot::n_groups(n, d) == groups,
{
    let r = n + d - 1 - groups * d;
    assert((groups - 1) * d == groups * d - d) by (nonlinear_arith);
    vstd::arithmetic::div_mod::lemma_fundamental_div_mod_converse(n + d - 1, d, groups, r);
}

/// The meta flag is the low bit.
pub proof fn lemma_meta_is_the_low_bit(payload: MarkerPayload)
    ensures
        is_meta(payload) <==> payload.flags % 2 == 1,
{
    let f = payload.flags;
    assert((f & 1 != 0) <==> f % 2 == 1) by (bit_vector);
}

/// Each data codeword that converged is kept under its own number, the first of a segment
/// under the number in the marker and the second under the next. All other numbers stay as
/// they were.
pub proof fn law_codewords_are_kept_under_their_numbers(
    s: WalkState,
    words: Seq<WordResult>,
    esi: u32,
)
    requires
        s.pending is Some,
        s.pending->0.payload.flags % 2 == 0,
        s.pending->0.payload.base_esi < 0xFF_FFFF,
        words.len() == 2,
    ensures
        ({
            let base = s.pending->0.payload.base_esi;
            let t = s.after_segment(words);
            let i = esi - base;
            let fresh = (i == 0 || i == 1) && words[i].converged;
            &&& t.pending is None
            &&& t.app_header == s.app_header
            &&& fresh ==> t.words.dom().contains(esi) && t.words[esi] == words[i].bytes
            &&& !fresh ==> (t.words.dom().contains(esi) <==> s.words.dom().contains(esi))
            &&& !fresh && s.words.dom().contains(esi) ==> t.words[esi] == s.words[esi]
        }),
{
    lemma_meta_is_the_low_bit(s.pending->0.payload);
    reveal_with_fuel(WalkState::after_words, 3);
}

/// The session header comes from the meta codeword, if that converged and holds one.
pub proof fn law_meta_codeword_gives_the_session_header(
    s: WalkState,
    word: WordResult,
    header: AppHeader,
)
    requires
        s.pending is Some,
        s.pending->0.payload.flags % 2 == 1,
        app_header::meta_of(word.bytes) == Some(header),
    ensures
        ({
            let t = s.after_segment(seq![word]);
            &&& t.pending is None
            &&& t.words == s.words
            &&& t.app_header == if word.converged {
                Some(header)
            } else {
                s.app_header
            }
        }),
{
    lemma_meta_is_the_low_bit(s.pending->0.payload);
    reveal_with_fuel(WalkState::after_words, 2);
}

/// How many codewords converged.
pub open spec fn count_converged(words: Seq<WordResult>) -> int
    decreases words.len(),
{
    if words.len() == 0 {
        0
    } else {
        count_converged(words.drop_last()) + if words.last().converged {
            1int
        } else {
            0
        }
    }
}

/// Every codeword is counted, and every one that converged is counted as such; a segment
/// counts as decoded whatever its codewords gave.
pub proof fn law_every_codeword_is_counted(s: WalkState, words: Seq<WordResult>)
    requires
        s.pending is Some,
    ensures
        ({
            let t = s.after_segment(words);
            &&& t.total == s.total + words.len()
            &&& t.converged == s.converged + count_converged(words)
            &&& t.decoded == s.decoded + 1
            &&& t.lost == s.lost
            &&& t.cursor == s.cursor
        }),
{
    lemma_words_are_counted(s, s.pending->0.payload, words, words.len() as int);
    assert(words.take(words.len() as int) =~= words);
}

proof fn lemma_words_are_counted(
    s: WalkState,
    payload: MarkerPayload,
    words: Seq<WordResult>,
    n: int,
)
    requires
        0 <= n <= words.len(),
    ensures
        ({
            let t = s.after_words(payload, words, n);
            &&& t.total == s.total + n
            &&& t.converged == s.converged + count_converged(words.take(n))
            &&& t.decoded == s.decoded
            &&& t.lost == s.lost
            &&& t.cursor == s.cursor
        }),
    decreases n,
{
    if n > 0 {
        lemma_words_are_counted(s, payload, words, n - 1);
        assert(words.take(n).drop_last() =~= words.take(n - 1));
    }
}

/// A walk looks for the next marker within 8 symbols, and within 512 once two searches in a
/// row failed, until a marker is read again. It never looks beyond the region. Each failure
/// counts as a lost segment.
pub proof fn law_search_widens_after_two_failures(
    s: WalkState,
    l: Layout,
    pos: int,
    payload: MarkerPayload,
)
    requires
        s.fails == 0,
        !s.is_foreign(payload),
    ensures
        ({
            let one = s.after_no_sync();
            let two = one.after_bad_marker(pos);
            &&& s.cursor + 8 + 64 <= l.region_len ==> s.width(l) == 8
            &&& one.cursor + 8 + 64 <= l.region_len ==> one.width(l) == 8
            &&& two.cursor + 512 + 64 <= l.region_len ==> two.width(l) == 512
            &&& two.after_no_sync().cursor + 512 + 64 <= l.region_len
                ==> two.after_no_sync().width(l) == 512
            &&& two.after_marker(l, pos, payload).fails == 0
            &&& s.width(l) + s.cursor + 64 <= l.region_len
            &&& two.width(l) + two.cursor + 64 <= l.region_len
            &&& one.lost == s.lost + 1
            &&& two.lost == s.lost + 2
            &&& one.cursor == s.cursor + 64
            &&& two.cursor == pos + 64
        }),
{
}

/// A segment that gave too few symbols counts as lost, and changes nothing else.
pub proof fn law_short_segment_is_lost(s: WalkState)
    ensures
        s.after_short_segment().lost == s.lost + 1,
        s.after_short_segment().pending is None,
        s.after_short_segment().words == s.words,
        s.after_short_segment().app_header == s.app_header,
        s.after_short_segment().decoded == s.decoded,
        s.after_short_segment().total == s.total,
        s.after_short_segment().cursor == s.cursor,
{
}

/// The sizes of a configuration: a codeword has as few symbols as carry its 2304 bits, and
/// its bytes hold its information.
pub proof fn law_layout_fits_the_configuration(config: ModemConfig, region_len: usize)
    ensures
        ({
            let l = Layout::spec_of(config, region_len);
            let m = config.constellation.spec_bits_per_sym() as int;
            &&& l.region_len == region_len
            &&& l.syms_per_cw * m >= 2304
            &&& (l.syms_per_cw - 1) * m < 2304
            &&& 8 * l.k_bytes == config.ldpc_rate.spec_k()
            &&& l.pattern == config.pilot_pattern
        }),
{
    frame::lemma_word_sizes(config.constellation);
    let m = config.constellation.spec_bits_per_sym() as int;
    let w = frame::word_len(config.constellation);
    interleaver::law_filling_stops_at_a_whole_symbol(2304, m);
    assert((w - 1) * m == w * m - m) by (nonlinear_arith);
}

/// A walk goes on where it is not over, no segment is to be decoded first, and a marker fits
/// the rest of the region.
pub proof fn law_walk_searches_while_a_marker_fits(s: WalkState, l: Layout, t: Tally)
    requires
        s.is_tally(t),
    ensures
        s.can_search(l) <==> !s.over && s.pending is None && s.cursor + 64 <= l.region_len,
        t.total_blocks - t.converged_blocks == s.total - s.converged,
        t.total_blocks == s.total,
        t.segments_decoded == s.decoded,
        t.segments_lost == s.lost,
        t.data_blocks_recovered == s.words.dom().len(),
{
}

/// A walk starts at the first symbol with nothing found, and belongs to no session yet.
pub proof fn law_walk_starts_empty(payload: MarkerPayload)
    ensures
        ({
            let s = WalkState::start();
            &&& s.cursor == 0 && s.fails == 0
            &&& s.converged == 0 && s.total == 0 && s.decoded == 0 && s.lost == 0
            &&& s.words.dom().len() == 0
            &&& s.app_header is None && s.pending is None
            &&& !s.over
            &&& !s.is_foreign(payload)
        }),
{
    assert(WalkState::start().words.dom() =~= Set::empty());
}

} // verus!
