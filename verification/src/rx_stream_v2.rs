//! A live receiver with an explicit life cycle.
//!
//! ```text
//!   idle       preamble found                      -> training
//!   training   header decoded                      -> streaming
//!              too many attempts                   -> idle, aborted
//!   streaming  payload there                       -> idle, completed
//!              silence without a payload           -> lost
//!              session limit                       -> idle, completed or aborted
//!   lost       signal is back                      -> streaming
//!              silence goes on                     -> idle, completed or aborted
//! ```
//!
//! `feed` takes audio in and says what is due; scanning, reading a header and
//! decoding are signal processing and are left to the caller, who hands back what
//! came of it.

use vstd::prelude::*;

use crate::app_header;
use crate::app_header::AppHeader;
use crate::header::Header;
use crate::marker::{MarkerPayload, MARKER_LEN};
use crate::payload_envelope;
use crate::payload_envelope::PayloadEnvelope;
use crate::profile;
use crate::profile::ProfileIndex;
use crate::rx_stream;
use crate::rx_stream::{DecodeResult, SampleBuffer};
use crate::rx_v2::walk;
use crate::types::N_PREAMBLE;

verus! {

/// Silence after which a lost signal is given up, in seconds.
pub const T_ABORT_SEC: u64 = 15;

/// Silence after which a lost signal is given up.
pub const ABORT_SAMPLES: u64 = 720_000;

/// Silence after which a payload is put together: half a second.
pub const SILENCE_TRIGGER_SAMPLES: u64 = 24_000;

/// Audio kept while idle: three seconds.
pub const IDLE_WINDOW_SAMPLES: usize = 144_000;

/// Audio needed before a scan: one second.
pub const MIN_BUFFER_FOR_SCAN: usize = 48_000;

/// Audio between two scans: one second.
pub const IDLE_SCAN_EVERY_SAMPLES: u64 = 48_000;

/// Audio between two progress reports: three seconds.
pub const PROGRESS_TICK_EVERY_SAMPLES: u64 = 144_000;

/// Audio between two attempts at a header: half a second.
pub const TRAINING_ATTEMPT_EVERY_SAMPLES: u64 = 24_000;

/// Attempts at a header before a lock is taken for a false one.
pub const MAX_TRAINING_ATTEMPTS: usize = 4;

/// Audio that holds the header of the slowest profile.
pub const ULTRA_HEADER_SAMPLES: usize = 38_400;

/// Longest session, and most audio kept: 25 minutes.
pub const SESSION_LIMIT_SAMPLES: usize = 72_000_000;

// ---------------------------------------------------------------------------
// Profiles
// ---------------------------------------------------------------------------

/// A profile runs in a mode.
pub open spec fn has_mode(p: ProfileIndex, mode_code: u8) -> bool {
    p.spec_config().spec_mode_code() == mode_code
}

/// The profile of a header: the one that it names, if that runs in its mode; else the
/// one that decoded it, if that does; else the first that does; else the one that
/// decoded it.
pub open spec fn is_profile_of(p: ProfileIndex, h: Header, used: ProfileIndex) -> bool {
    match ProfileIndex::spec_from_u8(h.profile_index) {
        Some(named) if has_mode(named, h.mode_code) => p == named,
        _ => if has_mode(used, h.mode_code) {
            p == used
        } else {
            ||| has_mode(p, h.mode_code) && forall|q: ProfileIndex| #[trigger]
                has_mode(q, h.mode_code) ==> p.spec_as_u8() <= q.spec_as_u8()
            ||| p == used && forall|q: ProfileIndex| !#[trigger] has_mode(q, h.mode_code)
        },
    }
}

/// The profile of a header.
pub open spec fn profile_of(h: Header, used: ProfileIndex) -> ProfileIndex {
    choose|p: ProfileIndex| is_profile_of(p, h, used)
}

/// A header has one profile.
proof fn lemma_profile_of(p: ProfileIndex, h: Header, used: ProfileIndex)
    requires
        is_profile_of(p, h, used),
    ensures
        p == profile_of(h, used),
{
    let q = profile_of(h, used);
    assert(is_profile_of(q, h, used));
    profile::law_profile_byte_round_trip(p, q.spec_as_u8());
    profile::law_profile_byte_round_trip(q, q.spec_as_u8());
    assert(has_mode(p, h.mode_code) || !has_mode(p, h.mode_code));
    assert(has_mode(q, h.mode_code) || !has_mode(q, h.mode_code));
}

/// The profile of a header that was decoded with the filters of `used_profile`.
pub fn resolve_authoritative_profile(hdr: &Header, used_profile: ProfileIndex) -> (p: ProfileIndex)
    ensures
        is_profile_of(p, *hdr, used_profile),
        p == profile_of(*hdr, used_profile),
{
    let p = find_profile(hdr, used_profile);
    proof {
        lemma_profile_of(p, *hdr, used_profile);
    }
    p
}

fn find_profile(hdr: &Header, used_profile: ProfileIndex) -> (p: ProfileIndex)
    ensures
        is_profile_of(p, *hdr, used_profile),
{
    match ProfileIndex::from_u8(hdr.profile_index) {
        Some(named) => {
            if named.to_config().mode_code() == hdr.mode_code {
                assert(has_mode(named, hdr.mode_code));
                return named;
            }
            assert(!has_mode(named, hdr.mode_code));
        },
        None => {},
    }
    if used_profile.to_config().mode_code() == hdr.mode_code {
        assert(has_mode(used_profile, hdr.mode_code));
        return used_profile;
    }
    assert(!has_mode(used_profile, hdr.mode_code));
    let mut b: u8 = 0;
    while b < 10
        invariant
            b <= 10,
            !has_mode(used_profile, hdr.mode_code),
            ProfileIndex::spec_from_u8(hdr.profile_index) matches Some(named) ==> !has_mode(
                named,
                hdr.mode_code,
            ),
            forall|q: ProfileIndex| #[trigger]
                has_mode(q, hdr.mode_code) ==> q.spec_as_u8() >= b,
        decreases 10 - b,
    {
        match ProfileIndex::from_u8(b) {
            Some(p) => {
                proof {
                    profile::law_profile_byte_round_trip(p, b);
                }
                if p.to_config().mode_code() == hdr.mode_code {
                    assert(has_mode(p, hdr.mode_code));
                    return p;
                }
                assert forall|q: ProfileIndex| #[trigger]
                    has_mode(q, hdr.mode_code) implies q.spec_as_u8() >= b + 1 by {
                    profile::law_profile_byte_round_trip(q, b);
                    assert(!has_mode(p, hdr.mode_code));
                }
            },
            None => {},
        }
        b = b + 1;
    }
    assert forall|q: ProfileIndex| !#[trigger] has_mode(q, hdr.mode_code) by {
        assert(q.spec_as_u8() < 10);
    }
    used_profile
}

/// The profiles to try on a header: the guess, then the others in canonical order.
pub open spec fn trial_order(guess: ProfileIndex) -> Seq<ProfileIndex> {
    seq![guess] + Seq::new(
        9,
        |i: int|
            ProfileIndex::spec_from_u8(
                (if i < guess.spec_as_u8() {
                    i
                } else {
                    i + 1
                }) as u8,
            )->0,
    )
}

/// The profiles to try on a header: the guess, then the others in canonical order.
pub fn header_trial_order(guess: ProfileIndex) -> (order: Vec<ProfileIndex>)
    ensures
        order@ == trial_order(guess),
{
    let mut order: Vec<ProfileIndex> = Vec::new();
    order.push(guess);
    let mut b: u8 = 0;
    while b < 10
        invariant
            b <= 10,
            order@ == trial_order(guess).take(
                1 + b - (if b > guess.spec_as_u8() {
                    1int
                } else {
                    0
                }),
            ),
        decreases 10 - b,
    {
        proof {
            profile::law_profile_byte_round_trip(guess, b);
        }
        match ProfileIndex::from_u8(b) {
            Some(p) => {
                if p != guess {
                    let ghost n = order@.len() as int;
                    order.push(p);
                    assert(trial_order(guess)[n] == p);
                    assert(trial_order(guess).take(n + 1) =~= trial_order(guess).take(n).push(p));
                }
            },
            None => {},
        }
        b = b + 1;
    }
    assert(trial_order(guess).take(10) =~= trial_order(guess));
    order
}

/// Every profile is tried once.
pub proof fn law_every_profile_is_tried_once(guess: ProfileIndex, p: ProfileIndex)
    ensures
        trial_order(guess).len() == 10,
        trial_order(guess)[0] == guess,
        exists|i: int|
            #![trigger trial_order(guess)[i]]
            0 <= i < 10 && trial_order(guess)[i] == p && forall|j: int|
                0 <= j < 10 && trial_order(guess)[j] == p ==> i == j,
{
    let order = trial_order(guess);
    let b = p.spec_as_u8() as int;
    let g = guess.spec_as_u8() as int;
    let i = if b == g {
        0
    } else if b < g {
        b + 1
    } else {
        b
    };
    profile::law_profile_byte_round_trip(p, b as u8);
    profile::law_profile_byte_round_trip(guess, b as u8);
    assert(order[i] == p);
    assert forall|j: int| 0 <= j < 10 && order[j] == p implies i == j by {
        if j > 0 {
            let c = if j - 1 < g {
                j - 1
            } else {
                j
            };
            profile::law_profile_byte_round_trip(p, c as u8);
            assert(order[j] == ProfileIndex::spec_from_u8(c as u8)->0);
            assert(ProfileIndex::spec_from_u8(c as u8) is Some);
        }
    }
}

/// Data codewords that a payload needs in a profile.
pub fn expected_data_blocks(payload_length: u16, profile: ProfileIndex) -> (n: usize)
    ensures
        ({
            let k = profile.spec_config().ldpc_rate.spec_k() as int / 8;
            (n - 1) * k < payload_length <= n * k
        }),
{
    let k_bytes: usize = profile.to_config().ldpc_rate.k() / 8;
    let len: usize = payload_length as usize;
    let n: usize = (len + k_bytes - 1) / k_bytes;
    proof {
        let k = k_bytes as int;
        vstd::arithmetic::div_mod::lemma_fundamental_div_mod(len + k - 1, k);
        assert((n - 1) * k == n * k - k && n * k == k * n) by (nonlinear_arith);
    }
    n
}

// ---------------------------------------------------------------------------
// Sharpness of a preamble
// ---------------------------------------------------------------------------

/// Distances, in symbols, at which a correlation is compared with its centre.
pub open spec fn sidelobe_offset(k: int) -> int {
    if k == 0 {
        -8
    } else if k == 1 {
        -6
    } else if k < 6 {
        k - 6
    } else if k < 10 {
        k - 5
    } else if k == 10 {
        6
    } else {
        8
    }
}

/// Places of the first `k` sidelobes, without those outside of the signal.
pub open spec fn sidelobes(center: int, pitch: int, end: int, k: int) -> Seq<usize>
    decreases k,
{
    if k <= 0 {
        Seq::empty()
    } else {
        let at = center + sidelobe_offset(k - 1) * pitch;
        let before = sidelobes(center, pitch, end, k - 1);
        if 0 <= at <= end {
            before.push(at as usize)
        } else {
            before
        }
    }
}

/// Last place at which a preamble fits into `n` samples, or zero.
pub open spec fn last_start(n: int, pitch: int) -> int {
    if n >= N_PREAMBLE * pitch {
        n - N_PREAMBLE * pitch
    } else {
        0
    }
}

/// Where to measure the sidelobes of a preamble at `center` in `n` samples. `None`
/// where fewer than four can be measured.
pub fn sidelobe_positions(center: usize, pitch: usize, n: usize) -> (places: Option<Vec<usize>>)
    requires
        N_PREAMBLE * pitch <= usize::MAX,
    ensures
        ({
            let all = sidelobes(center as int, pitch as int, last_start(n as int, pitch as int), 12);
            &&& places is None <==> all.len() < 4
            &&& places matches Some(p) ==> p@ == all
        }),
{
    let end: usize = if n >= N_PREAMBLE * pitch {
        n - N_PREAMBLE * pitch
    } else {
        0
    };
    let mut out: Vec<usize> = Vec::new();
    let mut k: usize = 0;
    while k < 12
        invariant
            k <= 12,
            N_PREAMBLE * pitch <= usize::MAX,
            end == last_start(n as int, pitch as int),
            out@ == sidelobes(center as int, pitch as int, end as int, k as int),
        decreases 12 - k,
    {
        let back: bool = k < 6;
        let steps: usize = match k {
            0 => 8,
            1 => 6,
            2 => 4,
            3 => 3,
            4 => 2,
            5 => 1,
            6 => 1,
            7 => 2,
            8 => 3,
            9 => 4,
            10 => 6,
            _ => 8,
        };
        assert(steps * pitch <= 256 * pitch && -steps * pitch == -(steps * pitch) && 0 <= steps
            * pitch) by (nonlinear_arith)
            requires
                0 <= steps <= 8,
                pitch >= 0,
        ;
        assert(sidelobe_offset(k as int) == if back {
            -(steps as int)
        } else {
            steps as int
        });
        let far: usize = steps * pitch;
        let ghost at = center + sidelobe_offset(k as int) * pitch;
        if back {
            if center >= far && center - far <= end {
                out.push(center - far);
            }
        } else {
            if far <= end && center <= end - far {
                out.push(center + far);
            }
        }
        k = k + 1;
    }
    if out.len() < 4 {
        None
    } else {
        Some(out)
    }
}

// ---------------------------------------------------------------------------
// The latest marker
// ---------------------------------------------------------------------------

/// Symbols past an expected marker that are searched for it.
pub const MARKER_WINDOW: usize = 64;

/// A scan over symbols for the last marker that can be read.
#[derive(Clone, Copy, Debug, PartialEq, Eq, Structural)]
pub struct MarkerScan {
    pub region_len: usize,
    pub cursor: usize,
    pub latest: Option<MarkerPayload>,
}

impl MarkerScan {
    /// Symbols past the cursor to search; zero where no marker fits any more.
    pub open spec fn width(self) -> int {
        if self.cursor + MARKER_LEN > self.region_len {
            0
        } else if self.cursor + MARKER_WINDOW <= self.region_len - MARKER_LEN {
            MARKER_WINDOW as int
        } else {
            self.region_len - MARKER_LEN - self.cursor
        }
    }

    /// Where a scan goes on behind what a search gave.
    pub open spec fn cursor_after(self, found: Option<(usize, Option<MarkerPayload>)>) -> int {
        MARKER_LEN + match found {
            Some((pos, _)) => pos as int,
            None => self.cursor as int,
        }
    }

    /// The last marker behind what a search gave.
    pub open spec fn latest_after(
        self,
        found: Option<(usize, Option<MarkerPayload>)>,
    ) -> Option<MarkerPayload> {
        match found {
            Some((_, Some(p))) => Some(p),
            _ => self.latest,
        }
    }

    /// Start a scan over the symbols behind a header.
    pub fn new(region_len: usize) -> (s: Self)
        ensures
            s == (MarkerScan { region_len, cursor: 0, latest: None }),
    {
        MarkerScan { region_len, cursor: 0, latest: None }
    }

    /// Where to search next: the first symbol, and how many symbols past it. `None`
    /// once the scan is over.
    pub fn next_search(&self) -> (search: Option<(usize, usize)>)
        ensures
            search is None <==> self.width() == 0,
            search matches Some((start, width)) ==> start == self.cursor && width == self.width(),
    {
        if self.region_len < MARKER_LEN || self.cursor >= self.region_len - MARKER_LEN {
            return None;
        }
        let room: usize = self.region_len - MARKER_LEN - self.cursor;
        if MARKER_WINDOW <= room {
            Some((self.cursor, MARKER_WINDOW))
        } else {
            Some((self.cursor, room))
        }
    }

    /// Go on behind what the search gave: nothing, or a sync pattern at a place with
    /// the marker read there, if it could be.
    pub fn searched(self, found: Option<(usize, Option<MarkerPayload>)>) -> (s: Self)
        requires
            self.width() > 0,
            found matches Some((pos, _)) ==> self.cursor <= pos && pos + MARKER_LEN
                <= self.region_len,
        ensures
            s.region_len == self.region_len,
            s.cursor == self.cursor_after(found),
            s.latest == self.latest_after(found),
    {
        match found {
            Some((pos, read)) => MarkerScan {
                cursor: pos + MARKER_LEN,
                latest: match read {
                    Some(p) => Some(p),
                    None => self.latest,
                },
                ..self
            },
            None => MarkerScan { cursor: self.cursor + MARKER_LEN, ..self },
        }
    }
}

// ---------------------------------------------------------------------------
// Events
// ---------------------------------------------------------------------------

/// Why a session was closed.
#[derive(Debug, Clone, Copy, PartialEq, Eq, Structural)]
pub enum SessionEndReason {
    /// The payload is there.
    Completed,
    /// The signal did not come back, or no header could be decoded.
    AbortTimeout,
}

/// What a receiver reports. `S` is a noise estimate and `P` a received symbol.
#[derive(Debug, Clone)]
pub enum StreamEventV2<S, P> {
    /// A preamble was found; the profile is a first guess.
    PreambleDetected { profile: ProfileIndex },
    /// The header was decoded; its profile is the right one.
    HeaderDecoded { profile: ProfileIndex, mode_code: u8, payload_length: u16 },
    /// A new marker was read.
    MarkerSynced { seg_id: u16, base_esi: u32, is_meta: bool },
    /// The signal stopped within a transmission.
    SignalLost,
    /// The signal is back.
    SignalReacquired,
    /// The session header was decoded.
    AppHeaderDecoded { session_id: u32, file_size: u32, mime_type: u8, hash_short: u16 },
    /// How far decoding came.
    ProgressUpdate {
        blocks_converged: usize,
        blocks_total: usize,
        blocks_expected: usize,
        sigma2: S,
        converged_bitmap: Vec<u8>,
        constellation_sample: Vec<P>,
    },
    /// The names in the envelope.
    EnvelopeDecoded { filename: String, callsign: String },
    /// The payload is there, out of its envelope.
    FileComplete {
        filename: String,
        callsign: String,
        mime_type: u8,
        content: Vec<u8>,
        sigma2: S,
    },
    /// The session is closed; the receiver is idle.
    SessionEnd { reason: SessionEndReason },
}

/// An event with its texts and lists as sequences.
#[verifier::ext_equal]
pub enum EventViewV2<S, P> {
    PreambleDetected { profile: ProfileIndex },
    HeaderDecoded { profile: ProfileIndex, mode_code: u8, payload_length: u16 },
    MarkerSynced { seg_id: u16, base_esi: u32, is_meta: bool },
    SignalLost,
    SignalReacquired,
    AppHeaderDecoded { session_id: u32, file_size: u32, mime_type: u8, hash_short: u16 },
    ProgressUpdate {
        blocks_converged: usize,
        blocks_total: usize,
        blocks_expected: usize,
        sigma2: S,
        converged_bitmap: Seq<u8>,
        constellation_sample: Seq<P>,
    },
    EnvelopeDecoded { filename: Seq<char>, callsign: Seq<char> },
    FileComplete {
        filename: Seq<char>,
        callsign: Seq<char>,
        mime_type: u8,
        content: Seq<u8>,
        sigma2: S,
    },
    SessionEnd { reason: SessionEndReason },
}

impl<S, P> View for StreamEventV2<S, P> {
    type V = EventViewV2<S, P>;

    open spec fn view(&self) -> EventViewV2<S, P> {
        match *self {
            StreamEventV2::PreambleDetected { profile } => EventViewV2::PreambleDetected {
                profile,
            },
            StreamEventV2::HeaderDecoded { profile, mode_code, payload_length } =>
                EventViewV2::HeaderDecoded { profile, mode_code, payload_length },
            StreamEventV2::MarkerSynced { seg_id, base_esi, is_meta } =>
                EventViewV2::MarkerSynced { seg_id, base_esi, is_meta },
            StreamEventV2::SignalLost => EventViewV2::SignalLost,
            StreamEventV2::SignalReacquired => EventViewV2::SignalReacquired,
            StreamEventV2::AppHeaderDecoded { session_id, file_size, mime_type, hash_short } =>
                EventViewV2::AppHeaderDecoded { session_id, file_size, mime_type, hash_short },
            StreamEventV2::ProgressUpdate {
                blocks_converged,
                blocks_total,
                blocks_expected,
                sigma2,
                converged_bitmap,
                constellation_sample,
            } => EventViewV2::ProgressUpdate {
                blocks_converged,
                blocks_total,
                blocks_expected,
                sigma2,
                converged_bitmap: converged_bitmap@,
                constellation_sample: constellation_sample@,
            },
            StreamEventV2::EnvelopeDecoded { filename, callsign } => EventViewV2::EnvelopeDecoded {
                filename: filename@,
                callsign: callsign@,
            },
            StreamEventV2::FileComplete { filename, callsign, mime_type, content, sigma2 } =>
                EventViewV2::FileComplete {
                filename: filename@,
                callsign: callsign@,
                mime_type,
                content: content@,
                sigma2,
            },
            StreamEventV2::SessionEnd { reason } => EventViewV2::SessionEnd { reason },
        }
    }
}

/// Events as views.
pub open spec fn views<S, P>(events: Seq<StreamEventV2<S, P>>) -> Seq<EventViewV2<S, P>> {
    events.map_values(|e: StreamEventV2<S, P>| e@)
}

fn push_event<S, P>(events: &mut Vec<StreamEventV2<S, P>>, event: StreamEventV2<S, P>)
    ensures
        views(final(events)@) == views(old(events)@).push(event@),
{
    events.push(event);
    assert(views(events@) =~= views(old(events)@).push(event@));
}

/// The event of a session header.
pub open spec fn app_header_event<S, P>(a: AppHeader) -> EventViewV2<S, P> {
    EventViewV2::AppHeaderDecoded {
        session_id: a.session_id,
        file_size: a.file_size,
        mime_type: a.mime_type,
        hash_short: a.hash_short,
    }
}

/// The events of a payload that is there.
pub open spec fn file_events<S, P>(a: AppHeader, data: Seq<u8>, sigma2: S) -> Seq<
    EventViewV2<S, P>,
> {
    seq![
        app_header_event(a),
        EventViewV2::EnvelopeDecoded {
            filename: payload_envelope::name_of(data),
            callsign: payload_envelope::callsign_of(data),
        },
        EventViewV2::FileComplete {
            filename: payload_envelope::name_of(data),
            callsign: payload_envelope::callsign_of(data),
            mime_type: a.mime_type,
            content: payload_envelope::content_of(data),
            sigma2,
        },
    ]
}

fn push_app_header<S, P>(events: &mut Vec<StreamEventV2<S, P>>, a: &AppHeader)
    ensures
        views(final(events)@) == views(old(events)@).push(app_header_event(*a)),
{
    push_event(
        events,
        StreamEventV2::AppHeaderDecoded {
            session_id: a.session_id,
            file_size: a.file_size,
            mime_type: a.mime_type,
            hash_short: a.hash_short,
        },
    );
}

/// Add the events of a payload that is there.
fn push_file<S, P>(
    events: &mut Vec<StreamEventV2<S, P>>,
    a: &AppHeader,
    data: &Vec<u8>,
    sigma2: S,
)
    ensures
        views(final(events)@) == views(old(events)@) + file_events::<S, P>(*a, data@, sigma2),
{
    push_app_header(events, a);
    let envelope = PayloadEnvelope::decode_or_fallback(data.as_slice());
    push_event(
        events,
        StreamEventV2::EnvelopeDecoded {
            filename: envelope.filename.clone(),
            callsign: envelope.callsign.clone(),
        },
    );
    push_event(
        events,
        StreamEventV2::FileComplete {
            filename: envelope.filename,
            callsign: envelope.callsign,
            mime_type: a.mime_type,
            content: envelope.content,
            sigma2,
        },
    );
    assert(views(events@) =~= views(old(events)@) + file_events::<S, P>(*a, data@, sigma2));
}

/// How a decode at the end of a session came out, with its events.
pub enum FinaliseOutcome<S, P> {
    /// The payload is there.
    Clean(Vec<StreamEventV2<S, P>>),
    /// It is not; what is known of the session.
    Partial(Vec<StreamEventV2<S, P>>),
}

/// The events of a decode at the end of a session. The hash alone decides whether the
/// payload is there: a codeword without data that failed does not matter.
pub fn finalise_events_from_result<S, P>(result: DecodeResult<S>) -> (out: FinaliseOutcome<S, P>)
    ensures
        out is Clean <==> rx_stream::hash_matches(result.app_header, result.data@),
        match out {
            FinaliseOutcome::Clean(events) => views(events@) == file_events::<S, P>(
                result.app_header->0,
                result.data@,
                result.sigma2,
            ),
            FinaliseOutcome::Partial(events) => views(events@) == match result.app_header {
                Some(a) => seq![app_header_event::<S, P>(a)],
                None => Seq::empty(),
            },
        },
{
    let mut events: Vec<StreamEventV2<S, P>> = Vec::new();
    assert(views(events@) =~= Seq::<EventViewV2<S, P>>::empty());
    let clean: bool = rx_stream::payload_matches(&result.app_header, &result.data);
    match &result.app_header {
        Some(a) => {
            if clean {
                push_file(&mut events, a, &result.data, result.sigma2);
                assert(views(events@) =~= file_events::<S, P>(*a, result.data@, result.sigma2));
                FinaliseOutcome::Clean(events)
            } else {
                push_app_header(&mut events, a);
                FinaliseOutcome::Partial(events)
            }
        },
        None => FinaliseOutcome::Partial(events),
    }
}

// ---------------------------------------------------------------------------
// What the decoder says
// ---------------------------------------------------------------------------

/// What the running decoder of a session says.
pub struct DecoderReport<S, P> {
    /// Markers read since the last report.
    pub markers: Vec<MarkerPayload>,
    pub app_header: Option<AppHeader>,
    pub data_blocks_recovered: usize,
    pub expected_data_blocks: usize,
    pub total_blocks: usize,
    pub sigma2: S,
    /// A bit for each expected block that is there.
    pub converged_bitmap: Vec<u8>,
    pub constellation_sample: Vec<P>,
    /// Every data block is there.
    pub all_data_present: bool,
    /// The payload as far as it can be put together.
    pub assembled: Option<Vec<u8>>,
}

impl<S, P> DecoderReport<S, P> {
    /// The payload can be put together and is that of the session header.
    pub open spec fn payload_there(self) -> bool {
        self.assembled matches Some(data) && rx_stream::hash_matches(self.app_header, data@)
    }

    /// The events of the payload.
    pub open spec fn payload_events(self) -> Seq<EventViewV2<S, P>> {
        file_events(self.app_header->0, self.assembled->0@, self.sigma2)
    }

    fn has_payload(&self) -> (yes: bool)
        ensures
            yes == self.payload_there(),
    {
        match &self.assembled {
            Some(data) => rx_stream::payload_matches(&self.app_header, data),
            None => false,
        }
    }

    fn push_payload(&self, events: &mut Vec<StreamEventV2<S, P>>) where S: Copy
        requires
            self.payload_there(),
        ensures
            views(final(events)@) == views(old(events)@) + self.payload_events(),
    {
        match &self.app_header {
            Some(a) => match &self.assembled {
                Some(data) => {
                    push_file(events, a, data, self.sigma2);
                },
                None => {},
            },
            None => {},
        }
    }
}

/// The number of the last marker reported, after the first `n` of some markers.
pub open spec fn last_marker(last: Option<u16>, markers: Seq<MarkerPayload>, n: int) -> Option<
    u16,
> {
    if n <= 0 {
        last
    } else {
        Some(markers[n - 1].seg_id)
    }
}

/// The events of the first `n` of some markers: one for each whose number is not that
/// of the marker before.
pub open spec fn marker_events<S, P>(
    last: Option<u16>,
    markers: Seq<MarkerPayload>,
    n: int,
) -> Seq<EventViewV2<S, P>>
    decreases n,
{
    if n <= 0 {
        Seq::empty()
    } else {
        let before = marker_events(last, markers, n - 1);
        let m = markers[n - 1];
        if last_marker(last, markers, n - 1) == Some(m.seg_id) {
            before
        } else {
            before.push(
                EventViewV2::MarkerSynced {
                    seg_id: m.seg_id,
                    base_esi: m.base_esi,
                    is_meta: walk::is_meta(m),
                },
            )
        }
    }
}

fn report_markers<S, P>(
    last: Option<u16>,
    markers: &Vec<MarkerPayload>,
    events: &mut Vec<StreamEventV2<S, P>>,
) -> (now: Option<u16>)
    ensures
        now == last_marker(last, markers@, markers@.len() as int),
        views(final(events)@) == views(old(events)@) + marker_events::<S, P>(
            last,
            markers@,
            markers@.len() as int,
        ),
{
    let ghost before = views(events@);
    let mut now = last;
    let mut i: usize = 0;
    assert(before + marker_events::<S, P>(last, markers@, 0) =~= before);
    while i < markers.len()
        invariant
            i <= markers@.len(),
            now == last_marker(last, markers@, i as int),
            views(events@) == before + marker_events::<S, P>(last, markers@, i as int),
        decreases markers@.len() - i,
    {
        let m = markers[i];
        let known: bool = match now {
            Some(id) => id == m.seg_id,
            None => false,
        };
        if !known {
            push_event(
                events,
                StreamEventV2::MarkerSynced {
                    seg_id: m.seg_id,
                    base_esi: m.base_esi,
                    is_meta: m.is_meta(),
                },
            );
        }
        now = Some(m.seg_id);
        i = i + 1;
        assert(views(events@) =~= before + marker_events::<S, P>(last, markers@, i as int));
    }
    now
}

// ---------------------------------------------------------------------------
// The receiver
// ---------------------------------------------------------------------------

/// Where a receiver is in its life cycle.
#[derive(Clone, Copy, Debug, PartialEq, Eq, Structural)]
pub enum Phase {
    Idle,
    Training { profile: ProfileIndex, preamble_offset: u64, attempts: usize, last_attempt: u64 },
    Streaming {
        profile: ProfileIndex,
        preamble_offset: u64,
        header: Header,
        silence: u64,
        last_marker: Option<u16>,
    },
    Lost { profile: ProfileIndex, preamble_offset: u64, header: Header, silence: u64 },
}

/// What the caller has to do next.
#[derive(Clone, Copy, Debug, PartialEq, Eq, Structural)]
pub enum RequestV2 {
    /// Feed more audio.
    Nothing,
    /// Scan the audio for a preamble and call `scanned`.
    Scan,
    /// Read the header behind the preamble and call `header_read`; `try_all` asks for
    /// all profiles.
    ReadHeader { try_all: bool },
    /// Ask the decoder and call `reported`.
    Report,
}

/// State of a receiver.
#[verifier::ext_equal]
pub struct ReceiverState<T> {
    pub buffer: Seq<T>,
    pub total: int,
    pub phase: Phase,
    pub last_scan: int,
    pub last_tick: int,
    pub last_progress: Option<(usize, usize)>,
    pub app_header_shown: bool,
    pub request: RequestV2,
}

impl<T> ReceiverState<T> {
    /// A receiver before the first sample.
    pub open spec fn start() -> Self {
        ReceiverState {
            buffer: Seq::empty(),
            total: 0,
            phase: Phase::Idle,
            last_scan: 0,
            last_tick: 0,
            last_progress: None,
            app_header_shown: false,
            request: RequestV2::Nothing,
        }
    }

    /// All times lie in the past, the audio kept is the end of all audio, and a request
    /// fits the phase.
    pub open spec fn valid(self) -> bool {
        &&& self.buffer.len() <= SESSION_LIMIT_SAMPLES
        &&& self.buffer.len() <= self.total <= u64::MAX
        &&& 0 <= self.last_scan <= self.total
        &&& 0 <= self.last_tick <= self.total
        &&& match self.phase {
            Phase::Idle => true,
            Phase::Training { preamble_offset, attempts, last_attempt, .. } => {
                &&& preamble_offset <= self.total
                &&& last_attempt <= self.total
                &&& attempts < MAX_TRAINING_ATTEMPTS
            },
            Phase::Streaming { preamble_offset, silence, .. } => preamble_offset <= self.total
                && silence <= self.total,
            Phase::Lost { preamble_offset, silence, .. } => preamble_offset <= self.total
                && silence <= self.total,
        }
        &&& match self.request {
            RequestV2::Nothing => true,
            RequestV2::Scan => self.phase is Idle,
            RequestV2::ReadHeader { .. } => self.phase is Training,
            RequestV2::Report => self.phase is Streaming || self.phase is Lost,
        }
    }

    /// Where the locked preamble stands in the buffer.
    pub open spec fn preamble_at(self) -> int {
        let start = self.total - self.buffer.len();
        let offset = match self.phase {
            Phase::Training { preamble_offset, .. } => preamble_offset as int,
            Phase::Streaming { preamble_offset, .. } => preamble_offset as int,
            Phase::Lost { preamble_offset, .. } => preamble_offset as int,
            Phase::Idle => start,
        };
        if offset >= start {
            offset - start
        } else {
            0
        }
    }

    /// The audio from the preamble on.
    pub open spec fn session(self) -> Seq<T> {
        self.buffer.skip(self.preamble_at())
    }

    /// The session is closed and its audio dropped.
    pub open spec fn closed_session(self) -> Self {
        ReceiverState {
            buffer: Seq::empty(),
            phase: Phase::Idle,
            last_scan: self.total,
            last_tick: self.total,
            last_progress: None,
            app_header_shown: false,
            request: RequestV2::Nothing,
            ..self
        }
    }

    /// The lock was a false one: the audio stays, and the next scan is due at once.
    pub open spec fn false_lock(self) -> Self {
        ReceiverState {
            phase: Phase::Idle,
            last_scan: if self.total >= IDLE_SCAN_EVERY_SAMPLES {
                self.total - IDLE_SCAN_EVERY_SAMPLES
            } else {
                0
            },
            last_tick: self.total,
            last_progress: None,
            app_header_shown: false,
            request: RequestV2::Nothing,
            ..self
        }
    }

    /// A chunk was fed.
    pub open spec fn after_feed(self, samples: Seq<T>, silent: bool) -> Self {
        let n = samples.len() as int;
        let fed = ReceiverState {
            buffer: rx_stream::last_of(self.buffer + samples, SESSION_LIMIT_SAMPLES as int),
            total: self.total + n,
            request: RequestV2::Nothing,
            ..self
        };
        match self.phase {
            Phase::Idle => {
                let kept = rx_stream::last_of(fed.buffer, IDLE_WINDOW_SAMPLES as int);
                if fed.total - self.last_scan >= IDLE_SCAN_EVERY_SAMPLES && kept.len()
                    >= MIN_BUFFER_FOR_SCAN {
                    ReceiverState {
                        buffer: kept,
                        last_scan: fed.total,
                        request: RequestV2::Scan,
                        ..fed
                    }
                } else {
                    ReceiverState { buffer: kept, ..fed }
                }
            },
            Phase::Training { attempts, last_attempt, .. } => if attempts == 0 || fed.total
                - last_attempt >= TRAINING_ATTEMPT_EVERY_SAMPLES {
                ReceiverState {
                    request: RequestV2::ReadHeader { try_all: attempts == 0 },
                    ..fed
                }
            } else {
                fed
            },
            Phase::Streaming { profile, preamble_offset, header, silence, last_marker } =>
                ReceiverState {
                phase: Phase::Streaming {
                    profile,
                    preamble_offset,
                    header,
                    silence: if silent {
                        (silence + n) as u64
                    } else {
                        0
                    },
                    last_marker,
                },
                request: RequestV2::Report,
                ..fed
            },
            Phase::Lost { profile, preamble_offset, header, silence } => if silent {
                ReceiverState {
                    phase: Phase::Lost {
                        profile,
                        preamble_offset,
                        header,
                        silence: (silence + n) as u64,
                    },
                    request: if silence + n >= ABORT_SAMPLES {
                        RequestV2::Report
                    } else {
                        RequestV2::Nothing
                    },
                    ..fed
                }
            } else {
                ReceiverState {
                    phase: Phase::Streaming {
                        profile,
                        preamble_offset,
                        header,
                        silence: 0,
                        last_marker: None,
                    },
                    ..fed
                }
            },
        }
    }

    /// The events of a chunk: a lost signal is back once one is not silent.
    pub open spec fn feed_events<S, P>(self, silent: bool) -> Seq<EventViewV2<S, P>> {
        if self.phase is Lost && !silent {
            seq![EventViewV2::SignalReacquired]
        } else {
            Seq::empty()
        }
    }

    /// A scan found a preamble, or none.
    pub open spec fn after_scan(self, found: Option<(ProfileIndex, usize)>) -> Self {
        ReceiverState {
            phase: match found {
                Some((profile, at)) => Phase::Training {
                    profile,
                    preamble_offset: (self.total - self.buffer.len() + at) as u64,
                    attempts: 0,
                    last_attempt: 0,
                },
                None => Phase::Idle,
            },
            request: RequestV2::Nothing,
            ..self
        }
    }

    /// No header came of this attempt, and none is to be hoped for: it was the last
    /// attempt, or the first and the audio was long enough for every profile.
    pub open spec fn gives_up(self) -> bool {
        let attempts = self.phase->Training_attempts;
        ||| attempts + 1 >= MAX_TRAINING_ATTEMPTS
        ||| attempts == 0 && self.buffer.len() - self.preamble_at() >= ULTRA_HEADER_SAMPLES
    }

    /// A header was read with the filters of a profile, or none was.
    pub open spec fn after_header(self, found: Option<(ProfileIndex, Header)>) -> Self {
        match found {
            Some((used, header)) => ReceiverState {
                phase: Phase::Streaming {
                    profile: profile_of(header, used),
                    preamble_offset: self.phase->Training_preamble_offset,
                    header,
                    silence: 0,
                    last_marker: None,
                },
                last_tick: self.total,
                request: RequestV2::Nothing,
                ..self
            },
            None => if self.gives_up() {
                self.false_lock()
            } else {
                ReceiverState {
                    phase: Phase::Training {
                        profile: self.phase->Training_profile,
                        preamble_offset: self.phase->Training_preamble_offset,
                        attempts: (self.phase->Training_attempts + 1) as usize,
                        last_attempt: self.total as u64,
                    },
                    request: RequestV2::Nothing,
                    ..self
                }
            },
        }
    }

    /// The events of an attempt at a header.
    pub open spec fn header_events<S, P>(self, found: Option<(ProfileIndex, Header)>) -> Seq<
        EventViewV2<S, P>,
    > {
        match found {
            Some((used, h)) => seq![
                EventViewV2::HeaderDecoded {
                    profile: profile_of(h, used),
                    mode_code: h.mode_code,
                    payload_length: h.payload_length,
                },
            ],
            None => if self.gives_up() {
                seq![EventViewV2::SessionEnd { reason: SessionEndReason::AbortTimeout }]
            } else {
                Seq::empty()
            },
        }
    }

    /// A progress report is due.
    pub open spec fn tick_due(self) -> bool {
        self.total - self.last_tick >= PROGRESS_TICK_EVERY_SAMPLES
    }

    /// The session header is to be shown.
    pub open spec fn shows_app_header<S, P>(self, r: DecoderReport<S, P>) -> bool {
        self.tick_due() && !self.app_header_shown && r.app_header is Some
    }

    /// The progress is to be shown: it is known, and not what was shown last.
    pub open spec fn shows_progress<S, P>(self, r: DecoderReport<S, P>) -> bool {
        &&& self.tick_due()
        &&& r.expected_data_blocks > 0
        &&& self.last_progress != Some((r.data_blocks_recovered, r.expected_data_blocks))
    }

    /// The events of a report while streaming, before it is known how the session goes
    /// on.
    pub open spec fn progress_events<S, P>(self, r: DecoderReport<S, P>) -> Seq<
        EventViewV2<S, P>,
    > {
        marker_events(self.phase->Streaming_last_marker, r.markers@, r.markers@.len() as int) + (
        if self.shows_app_header(r) {
            seq![app_header_event(r.app_header->0)]
        } else {
            Seq::empty()
        }) + (if self.shows_progress(r) {
            seq![
                EventViewV2::ProgressUpdate {
                    blocks_converged: r.data_blocks_recovered,
                    blocks_total: r.total_blocks,
                    blocks_expected: r.expected_data_blocks,
                    sigma2: r.sigma2,
                    converged_bitmap: r.converged_bitmap@,
                    constellation_sample: r.constellation_sample@,
                },
            ]
        } else {
            Seq::empty()
        })
    }

    /// The session has reached its limit.
    pub open spec fn at_limit(self) -> bool {
        self.total - self.phase->Streaming_preamble_offset >= SESSION_LIMIT_SAMPLES
    }

    /// It is time to end the session or to wait for the signal.
    pub open spec fn pauses(self) -> bool {
        self.phase->Streaming_silence >= SILENCE_TRIGGER_SAMPLES || self.at_limit()
    }

    /// The session ends with its payload: at a progress report with all data there, or
    /// at a pause.
    pub open spec fn completes<S, P>(self, r: DecoderReport<S, P>) -> bool {
        r.payload_there() && (self.tick_due() && r.all_data_present || self.pauses())
    }

    /// The decoder reported.
    pub open spec fn after_report<S, P>(self, r: DecoderReport<S, P>) -> Self {
        match self.phase {
            Phase::Streaming { profile, preamble_offset, header, silence, last_marker: last } => {
                let shown = ReceiverState {
                    last_tick: if self.tick_due() {
                        self.total
                    } else {
                        self.last_tick
                    },
                    last_progress: if self.shows_progress(r) {
                        Some((r.data_blocks_recovered, r.expected_data_blocks))
                    } else {
                        self.last_progress
                    },
                    app_header_shown: self.app_header_shown || self.shows_app_header(r),
                    request: RequestV2::Nothing,
                    ..self
                };
                if self.completes(r) || self.pauses() && self.at_limit() {
                    self.closed_session()
                } else if self.pauses() {
                    ReceiverState {
                        phase: Phase::Lost { profile, preamble_offset, header, silence },
                        ..shown
                    }
                } else {
                    ReceiverState {
                        phase: Phase::Streaming {
                            profile,
                            preamble_offset,
                            header,
                            silence,
                            last_marker: last_marker(last, r.markers@, r.markers@.len() as int),
                        },
                        ..shown
                    }
                }
            },
            _ => self.closed_session(),
        }
    }

    /// The events of a report.
    pub open spec fn report_events<S, P>(self, r: DecoderReport<S, P>) -> Seq<EventViewV2<S, P>> {
        if self.phase is Streaming {
            if self.completes(r) {
                (self.progress_events(r) + r.payload_events()).push(
                    EventViewV2::SessionEnd { reason: SessionEndReason::Completed },
                )
            } else if self.pauses() {
                self.progress_events(r).push(
                    if self.at_limit() {
                        EventViewV2::SessionEnd { reason: SessionEndReason::AbortTimeout }
                    } else {
                        EventViewV2::SignalLost
                    },
                )
            } else {
                self.progress_events(r)
            }
        } else if r.payload_there() {
            r.payload_events().push(
                EventViewV2::SessionEnd { reason: SessionEndReason::Completed },
            )
        } else {
            (match r.app_header {
                Some(a) => seq![app_header_event::<S, P>(a)],
                None => Seq::empty(),
            }).push(EventViewV2::SessionEnd { reason: SessionEndReason::AbortTimeout })
        }
    }
}

/// A live receiver. `T` is an audio sample.
pub struct StreamReceiverV2<T> {
    buffer: SampleBuffer<T>,
    total: u64,
    phase: Phase,
    last_scan: u64,
    last_tick: u64,
    last_progress: Option<(usize, usize)>,
    app_header_shown: bool,
    request: RequestV2,
}

impl<T> View for StreamReceiverV2<T> {
    type V = ReceiverState<T>;

    closed spec fn view(&self) -> ReceiverState<T> {
        ReceiverState {
            buffer: self.buffer@,
            total: self.total as int,
            phase: self.phase,
            last_scan: self.last_scan as int,
            last_tick: self.last_tick as int,
            last_progress: self.last_progress,
            app_header_shown: self.app_header_shown,
            request: self.request,
        }
    }
}

impl<T: Copy> Default for StreamReceiverV2<T> {
    fn default() -> (r: Self)
        ensures
            r@ == ReceiverState::<T>::start(),
    {
        Self::new()
    }
}

impl<T: Copy> StreamReceiverV2<T> {
    /// Create an idle receiver.
    pub fn new() -> (r: Self)
        ensures
            r@ == ReceiverState::<T>::start(),
            r@.valid(),
    {
        StreamReceiverV2 {
            buffer: SampleBuffer::new(),
            total: 0,
            phase: Phase::Idle,
            last_scan: 0,
            last_tick: 0,
            last_progress: None,
            app_header_shown: false,
            request: RequestV2::Nothing,
        }
    }

    /// Drop all audio and go back to idle.
    pub fn reset(&mut self)
        requires
            old(self)@.valid(),
        ensures
            final(self)@ == old(self)@.closed_session(),
            final(self)@.valid(),
    {
        self.buffer.clear();
        self.phase = Phase::Idle;
        self.last_scan = self.total;
        self.last_tick = self.total;
        self.last_progress = None;
        self.app_header_shown = false;
        self.request = RequestV2::Nothing;
        assert(self@ =~= old(self)@.closed_session());
    }

    /// Whether the receiver is not idle.
    pub fn is_locked(&self) -> (yes: bool)
        ensures
            yes == !(self@.phase is Idle),
    {
        match self.phase {
            Phase::Idle => false,
            _ => true,
        }
    }

    /// Number of samples ever fed.
    pub fn total_samples_fed(&self) -> (n: u64)
        ensures
            n == self@.total,
    {
        self.total
    }

    /// The profile of the session whose decoder is running, if there is one. The
    /// decoder takes in all audio from the preamble on.
    pub fn decoding(&self) -> (profile: Option<ProfileIndex>)
        ensures
            profile == match self@.phase {
                Phase::Streaming { profile, .. } => Some(profile),
                Phase::Lost { profile, .. } => Some(profile),
                _ => None,
            },
    {
        match self.phase {
            Phase::Streaming { profile, .. } => Some(profile),
            Phase::Lost { profile, .. } => Some(profile),
            _ => None,
        }
    }

    /// What the caller has to do next.
    pub fn request(&self) -> (request: RequestV2)
        ensures
            request == self@.request,
    {
        self.request
    }

    /// Take in a chunk of audio. `silent` tells whether it is. `request` then says what
    /// is due; an earlier request that was not answered is dropped.
    pub fn feed<S, P>(&mut self, samples: &[T], silent: bool) -> (events: Vec<StreamEventV2<S, P>>)
        requires
            old(self)@.valid(),
            old(self)@.total + samples@.len() <= u64::MAX,
        ensures
            final(self)@ == old(self)@.after_feed(samples@, silent),
            final(self)@.valid(),
            views(events@) == old(self)@.feed_events::<S, P>(silent),
    {
        let mut events: Vec<StreamEventV2<S, P>> = Vec::new();
        assert(views(events@) =~= Seq::<EventViewV2<S, P>>::empty());
        self.buffer.append(samples, SESSION_LIMIT_SAMPLES);
        let n: u64 = samples.len() as u64;
        self.total = self.total + n;
        self.request = RequestV2::Nothing;
        match self.phase {
            Phase::Idle => {
                self.buffer.trim(IDLE_WINDOW_SAMPLES);
                if self.total - self.last_scan >= IDLE_SCAN_EVERY_SAMPLES && self.buffer.len()
                    >= MIN_BUFFER_FOR_SCAN {
                    self.last_scan = self.total;
                    self.request = RequestV2::Scan;
                }
            },
            Phase::Training { attempts, last_attempt, .. } => {
                if attempts == 0 || self.total - last_attempt >= TRAINING_ATTEMPT_EVERY_SAMPLES {
                    self.request = RequestV2::ReadHeader { try_all: attempts == 0 };
                }
            },
            Phase::Streaming { profile, preamble_offset, header, silence, last_marker } => {
                let silence: u64 = if silent {
                    silence + n
                } else {
                    0
                };
                self.phase =
                Phase::Streaming { profile, preamble_offset, header, silence, last_marker };
                self.request = RequestV2::Report;
            },
            Phase::Lost { profile, preamble_offset, header, silence } => {
                if silent {
                    let silence: u64 = silence + n;
                    self.phase = Phase::Lost { profile, preamble_offset, header, silence };
                    if silence >= ABORT_SAMPLES {
                        self.request = RequestV2::Report;
                    }
                } else {
                    push_event(&mut events, StreamEventV2::SignalReacquired);
                    self.phase =
                    Phase::Streaming {
                        profile,
                        preamble_offset,
                        header,
                        silence: 0,
                        last_marker: None,
                    };
                }
            },
        }
        assert(self@ =~= old(self)@.after_feed(samples@, silent));
        assert(views(events@) =~= old(self)@.feed_events::<S, P>(silent));
        events
    }

    /// The audio to scan.
    pub fn audio(&self) -> (out: Vec<T>)
        ensures
            out@ == self@.buffer,
    {
        let out = self.buffer.slice_from(0);
        assert(self.buffer@.skip(0) =~= self.buffer@);
        out
    }

    /// Answer a scan: the profile and place of the preamble, if there is one.
    pub fn scanned<S, P>(&mut self, found: Option<(ProfileIndex, usize)>) -> (events: Vec<
        StreamEventV2<S, P>,
    >)
        requires
            old(self)@.valid(),
            old(self)@.request is Scan,
            found matches Some((_, at)) ==> at <= old(self)@.buffer.len(),
        ensures
            final(self)@ == old(self)@.after_scan(found),
            final(self)@.valid(),
            found matches Some((_, at)) ==> final(self)@.session() == old(self)@.buffer.skip(
                at as int,
            ),
            views(events@) == match found {
                Some((profile, _)) => seq![EventViewV2::<S, P>::PreambleDetected { profile }],
                None => Seq::empty(),
            },
    {
        let mut events: Vec<StreamEventV2<S, P>> = Vec::new();
        assert(views(events@) =~= Seq::<EventViewV2<S, P>>::empty());
        self.request = RequestV2::Nothing;
        match found {
            Some((profile, at)) => {
                let start: u64 = self.total - self.buffer.len() as u64;
                self.phase =
                Phase::Training {
                    profile,
                    preamble_offset: start + at as u64,
                    attempts: 0,
                    last_attempt: 0,
                };
                push_event(&mut events, StreamEventV2::PreambleDetected { profile });
            },
            None => {},
        }
        assert(self@ =~= old(self)@.after_scan(found));
        events
    }

    /// Where the preamble stands in the buffer.
    fn preamble_start(&self) -> (at: usize)
        requires
            self@.valid(),
        ensures
            at == self@.preamble_at(),
            at <= self@.buffer.len(),
    {
        let start: u64 = self.total - self.buffer.len() as u64;
        let offset: u64 = match self.phase {
            Phase::Training { preamble_offset, .. } => preamble_offset,
            Phase::Streaming { preamble_offset, .. } => preamble_offset,
            Phase::Lost { preamble_offset, .. } => preamble_offset,
            Phase::Idle => start,
        };
        if offset >= start {
            (offset - start) as usize
        } else {
            0
        }
    }

    /// The audio from the preamble on.
    pub fn session_audio(&self) -> (audio: Vec<T>)
        requires
            self@.valid(),
        ensures
            audio@ == self@.session(),
    {
        let at: usize = self.preamble_start();
        self.buffer.slice_from(at)
    }

    /// The profiles to try on the header, in this order.
    pub fn header_profiles(&self) -> (profiles: Vec<ProfileIndex>)
        ensures
            profiles@ == match self@.phase {
                Phase::Training { profile, attempts, .. } => if attempts == 0 {
                    trial_order(profile)
                } else {
                    seq![profile]
                },
                _ => Seq::empty(),
            },
    {
        match self.phase {
            Phase::Training { profile, attempts, .. } => {
                if attempts == 0 {
                    header_trial_order(profile)
                } else {
                    let mut one: Vec<ProfileIndex> = Vec::new();
                    one.push(profile);
                    one
                }
            },
            _ => Vec::new(),
        }
    }

    /// Answer an attempt at a header: the profile whose filters gave it, and the header.
    pub fn header_read<S, P>(&mut self, found: Option<(ProfileIndex, Header)>) -> (events: Vec<
        StreamEventV2<S, P>,
    >)
        requires
            old(self)@.valid(),
            old(self)@.request is ReadHeader,
        ensures
            final(self)@ == old(self)@.after_header(found),
            final(self)@.valid(),
            views(events@) == old(self)@.header_events::<S, P>(found),
    {
        let mut events: Vec<StreamEventV2<S, P>> = Vec::new();
        assert(views(events@) =~= Seq::<EventViewV2<S, P>>::empty());
        let at: usize = self.preamble_start();
        match self.phase {
            Phase::Training { profile, preamble_offset, attempts, last_attempt: _ } => {
                match found {
                    Some((used, header)) => {
                        let resolved = resolve_authoritative_profile(&header, used);
                        push_event(
                            &mut events,
                            StreamEventV2::HeaderDecoded {
                                profile: resolved,
                                mode_code: header.mode_code,
                                payload_length: header.payload_length,
                            },
                        );
                        self.last_tick = self.total;
                        self.phase =
                        Phase::Streaming {
                            profile: resolved,
                            preamble_offset,
                            header,
                            silence: 0,
                            last_marker: None,
                        };
                        self.request = RequestV2::Nothing;
                    },
                    None => {
                        if attempts + 1 >= MAX_TRAINING_ATTEMPTS || (attempts == 0
                            && self.buffer.len() - at >= ULTRA_HEADER_SAMPLES) {
                            push_event(
                                &mut events,
                                StreamEventV2::SessionEnd {
                                    reason: SessionEndReason::AbortTimeout,
                                },
                            );
                            self.phase = Phase::Idle;
                            self.last_scan =
                            if self.total >= IDLE_SCAN_EVERY_SAMPLES {
                                self.total - IDLE_SCAN_EVERY_SAMPLES
                            } else {
                                0
                            };
                            self.last_tick = self.total;
                            self.last_progress = None;
                            self.app_header_shown = false;
                            self.request = RequestV2::Nothing;
                        } else {
                            self.phase =
                            Phase::Training {
                                profile,
                                preamble_offset,
                                attempts: attempts + 1,
                                last_attempt: self.total,
                            };
                            self.request = RequestV2::Nothing;
                        }
                    },
                }
            },
            _ => {},
        }
        assert(self@ =~= old(self)@.after_header(found));
        assert(views(events@) =~= old(self)@.header_events::<S, P>(found));
        events
    }

    /// Answer a request for a report of the decoder.
    pub fn reported<S: Copy, P: Copy>(&mut self, r: DecoderReport<S, P>) -> (events: Vec<
        StreamEventV2<S, P>,
    >)
        requires
            old(self)@.valid(),
            old(self)@.request is Report,
        ensures
            final(self)@ == old(self)@.after_report(r),
            final(self)@.valid(),
            views(events@) == old(self)@.report_events(r),
    {
        match self.phase {
            Phase::Streaming { profile, preamble_offset, header, silence, last_marker } => self.report_streaming(
                r,
                profile,
                preamble_offset,
                header,
                silence,
                last_marker,
            ),
            _ => {
                let mut events: Vec<StreamEventV2<S, P>> = Vec::new();
                assert(views(events@) =~= Seq::<EventViewV2<S, P>>::empty());
                if r.has_payload() {
                    r.push_payload(&mut events);
                    push_event(
                        &mut events,
                        StreamEventV2::SessionEnd { reason: SessionEndReason::Completed },
                    );
                } else {
                    match &r.app_header {
                        Some(a) => {
                            push_app_header(&mut events, a);
                        },
                        None => {},
                    }
                    push_event(
                        &mut events,
                        StreamEventV2::SessionEnd { reason: SessionEndReason::AbortTimeout },
                    );
                }
                self.reset();
                assert(views(events@) =~= old(self)@.report_events(r));
                events
            },
        }
    }

    fn report_streaming<S: Copy, P: Copy>(
        &mut self,
        r: DecoderReport<S, P>,
        profile: ProfileIndex,
        preamble_offset: u64,
        header: Header,
        silence: u64,
        last: Option<u16>,
    ) -> (events: Vec<StreamEventV2<S, P>>)
        requires
            old(self)@.valid(),
            old(self)@.phase == (Phase::Streaming {
                profile,
                preamble_offset,
                header,
                silence,
                last_marker: last,
            }),
        ensures
            final(self)@ == old(self)@.after_report(r),
            final(self)@.valid(),
            views(events@) == old(self)@.report_events(r),
    {
        let ghost before = self@;
        let payload: bool = r.has_payload();
        let mut events: Vec<StreamEventV2<S, P>> = Vec::new();
        assert(views(events@) =~= Seq::<EventViewV2<S, P>>::empty());
        let now = report_markers(last, &r.markers, &mut events);
        let tick: bool = self.total - self.last_tick >= PROGRESS_TICK_EVERY_SAMPLES;
        let at_limit: bool = self.total - preamble_offset >= SESSION_LIMIT_SAMPLES as u64;
        let pauses: bool = silence >= SILENCE_TRIGGER_SAMPLES || at_limit;
        let completes: bool = payload && (tick && r.all_data_present || pauses);
        if completes {
            self.show_progress(&r, tick, &mut events);
            assert(views(events@) =~= before.progress_events(r));
            r.push_payload(&mut events);
            push_event(
                &mut events,
                StreamEventV2::SessionEnd { reason: SessionEndReason::Completed },
            );
            self.reset();
            assert(views(events@) =~= before.report_events(r));
            return events;
        }
        self.show_progress(&r, tick, &mut events);
        assert(views(events@) =~= before.progress_events(r));
        if pauses {
            if at_limit {
                push_event(
                    &mut events,
                    StreamEventV2::SessionEnd { reason: SessionEndReason::AbortTimeout },
                );
                self.reset();
            } else {
                push_event(&mut events, StreamEventV2::SignalLost);
                self.phase = Phase::Lost { profile, preamble_offset, header, silence };
                self.request = RequestV2::Nothing;
            }
        } else {
            self.phase =
            Phase::Streaming { profile, preamble_offset, header, silence, last_marker: now };
            self.request = RequestV2::Nothing;
        }
        assert(self@ =~= before.after_report(r));
        assert(views(events@) =~= before.report_events(r));
        events
    }

    /// Report the session header and the progress where they are due.
    fn show_progress<S: Copy, P: Copy>(
        &mut self,
        r: &DecoderReport<S, P>,
        tick: bool,
        events: &mut Vec<StreamEventV2<S, P>>,
    )
        requires
            old(self)@.valid(),
            tick == old(self)@.tick_due(),
        ensures
            final(self)@ == (ReceiverState {
                last_tick: if tick {
                    old(self)@.total
                } else {
                    old(self)@.last_tick
                },
                last_progress: if old(self)@.shows_progress(*r) {
                    Some((r.data_blocks_recovered, r.expected_data_blocks))
                } else {
                    old(self)@.last_progress
                },
                app_header_shown: old(self)@.app_header_shown || old(self)@.shows_app_header(*r),
                ..old(self)@
            }),
            views(final(events)@) == views(old(events)@) + (if old(self)@.shows_app_header(*r) {
                seq![app_header_event(r.app_header->0)]
            } else {
                Seq::empty()
            }) + (if old(self)@.shows_progress(*r) {
                seq![
                    EventViewV2::ProgressUpdate {
                        blocks_converged: r.data_blocks_recovered,
                        blocks_total: r.total_blocks,
                        blocks_expected: r.expected_data_blocks,
                        sigma2: r.sigma2,
                        converged_bitmap: r.converged_bitmap@,
                        constellation_sample: r.constellation_sample@,
                    },
                ]
            } else {
                Seq::empty()
            }),
    {
        let ghost before = self@;
        if tick {
            self.last_tick = self.total;
            if !self.app_header_shown {
                match &r.app_header {
                    Some(a) => {
                        self.app_header_shown = true;
                        push_app_header(events, a);
                    },
                    None => {},
                }
            }
            if r.expected_data_blocks > 0 {
                let same: bool = match self.last_progress {
                    Some((recovered, expected)) => recovered == r.data_blocks_recovered && expected
                        == r.expected_data_blocks,
                    None => false,
                };
                if !same {
                    self.last_progress = Some((r.data_blocks_recovered, r.expected_data_blocks));
                    push_event(
                        events,
                        StreamEventV2::ProgressUpdate {
                            blocks_converged: r.data_blocks_recovered,
                            blocks_total: r.total_blocks,
                            blocks_expected: r.expected_data_blocks,
                            sigma2: r.sigma2,
                            converged_bitmap: copy_of(&r.converged_bitmap),
                            constellation_sample: copy_of(&r.constellation_sample),
                        },
                    );
                }
            }
        }
        assert(self@.last_progress == if before.shows_progress(*r) {
            Some((r.data_blocks_recovered, r.expected_data_blocks))
        } else {
            before.last_progress
        });
    }
}

/// A copy of a list.
fn copy_of<T: Copy>(list: &Vec<T>) -> (out: Vec<T>)
    ensures
        out@ == list@,
{
    let mut out: Vec<T> = Vec::new();
    let mut i: usize = 0;
    while i < list.len()
        invariant
            i <= list@.len(),
            out@ == list@.take(i as int),
        decreases list@.len() - i,
    {
        out.push(list[i]);
        assert(list@.take(i + 1) =~= list@.take(i as int).push(list@[i as int]));
        i = i + 1;
    }
    assert(list@.take(i as int) =~= list@);
    out
}

// ---------------------------------------------------------------------------
// Laws
// ---------------------------------------------------------------------------

/// Reports of markers and progress hold neither a payload nor an end.
proof fn lemma_marker_events<S, P>(last: Option<u16>, markers: Seq<MarkerPayload>, n: int, i: int)
    requires
        0 <= i < marker_events::<S, P>(last, markers, n).len(),
    ensures
        marker_events::<S, P>(last, markers, n)[i] is MarkerSynced,
    decreases n,
{
    if n > 0 && i < marker_events::<S, P>(last, markers, n - 1).len() {
        lemma_marker_events::<S, P>(last, markers, n - 1, i);
    }
}

proof fn lemma_progress_events<T, S, P>(s: ReceiverState<T>, r: DecoderReport<S, P>, i: int)
    requires
        0 <= i < s.progress_events(r).len(),
    ensures
        !(s.progress_events(r)[i] is FileComplete),
        !(s.progress_events(r)[i] is SessionEnd),
{
    let last = s.phase->Streaming_last_marker;
    let n = r.markers@.len() as int;
    if i < marker_events::<S, P>(last, r.markers@, n).len() {
        lemma_marker_events::<S, P>(last, r.markers@, n, i);
    }
}

/// No payload is reported whose hash is not that of the session header. Where one is
/// reported, the session header was reported before it, and the session then ends
/// as completed.
pub proof fn law_reported_payload_matches_its_hash<T, S, P>(
    s: ReceiverState<T>,
    r: DecoderReport<S, P>,
    i: int,
)
    requires
        0 <= i < s.report_events(r).len(),
        s.report_events(r)[i] is FileComplete,
    ensures
        r.payload_there(),
        exists|j: int| 0 <= j < i && #[trigger] s.report_events(r)[j] is AppHeaderDecoded,
        s.report_events(r).last() == (EventViewV2::<S, P>::SessionEnd {
            reason: SessionEndReason::Completed,
        }),
        s.after_report(r).phase is Idle,
{
    let events = s.report_events(r);
    let base = s.progress_events(r);
    if s.phase is Streaming {
        if i < base.len() {
            lemma_progress_events(s, r, i);
            assert(events[i] == base[i]);
        } else {
            assert(events[base.len() as int] is AppHeaderDecoded);
        }
    } else {
        if r.payload_there() {
            assert(events[0] is AppHeaderDecoded);
        }
    }
}

/// The end of a session is reported exactly when the receiver becomes idle, and it is
/// reported last.
pub proof fn law_session_end_means_idle<T, S, P>(s: ReceiverState<T>, r: DecoderReport<S, P>)
    requires
        s.phase is Streaming || s.phase is Lost,
    ensures
        s.after_report(r).phase is Idle <==> s.report_events(r).len() > 0 && s.report_events(
            r,
        ).last() is SessionEnd,
{
    let events = s.report_events(r);
    if s.phase is Streaming && !s.completes(r) && !s.pauses() && events.len() > 0 {
        lemma_progress_events(s, r, events.len() - 1);
    }
}

/// A lost signal that stays away is given up: once the silence is long enough, the
/// decoder is asked, and whatever it says the receiver becomes idle.
pub proof fn law_lost_signal_is_given_up<T, S, P>(
    s: ReceiverState<T>,
    samples: Seq<T>,
    r: DecoderReport<S, P>,
)
    requires
        s.phase is Lost,
        s.phase->Lost_silence + samples.len() >= ABORT_SAMPLES,
    ensures
        s.after_feed(samples, true).request is Report,
        s.after_feed(samples, true).after_report(r).phase is Idle,
{
}

/// A lost signal that comes back is reported, and the session goes on with the same
/// profile, preamble and header.
pub proof fn law_signal_comes_back<T, S, P>(s: ReceiverState<T>, samples: Seq<T>)
    requires
        s.phase is Lost,
    ensures
        s.feed_events::<S, P>(false) == seq![EventViewV2::<S, P>::SignalReacquired],
        s.after_feed(samples, false).phase == (Phase::Streaming {
            profile: s.phase->Lost_profile,
            preamble_offset: s.phase->Lost_preamble_offset,
            header: s.phase->Lost_header,
            silence: 0,
            last_marker: None,
        }),
{
}

/// A session does not outlast its limit.
pub proof fn law_session_limit_ends_the_session<T, S, P>(
    s: ReceiverState<T>,
    r: DecoderReport<S, P>,
)
    requires
        s.phase is Streaming,
        s.at_limit(),
    ensures
        s.after_report(r).phase is Idle,
        s.report_events(r).last() is SessionEnd,
{
}

/// A false lock is given up: an attempt without a header is the last, or it is counted
/// and fewer than four are.
pub proof fn law_false_lock_is_given_up<T>(s: ReceiverState<T>)
    requires
        s.valid(),
        s.phase is Training,
    ensures
        ({
            let t = s.after_header(None);
            ||| t.phase is Idle && t.buffer == s.buffer
            ||| t.phase is Training && t.phase->Training_attempts
                == s.phase->Training_attempts + 1 && t.phase->Training_attempts
                < MAX_TRAINING_ATTEMPTS
        }),
{
}

/// A session header is shown once while streaming: once it was, no progress report
/// shows it again before the session ends.
pub proof fn law_session_header_is_shown_once<T, S, P>(
    s: ReceiverState<T>,
    r: DecoderReport<S, P>,
    q: DecoderReport<S, P>,
)
    requires
        s.phase is Streaming,
        s.shows_app_header(r),
        !(s.after_report(r).phase is Idle),
    ensures
        s.after_report(r).app_header_shown,
        !s.after_report(r).shows_app_header(q),
{
}

// ---------------------------------------------------------------------------
// Laws on the audio of a session
// ---------------------------------------------------------------------------

/// The audio of a session is `audio`, counted from its preamble: it is what the receiver
/// keeps from the preamble on, and all that was fed since.
pub open spec fn session_is<T>(s: ReceiverState<T>, audio: Seq<T>) -> bool {
    &&& !(s.phase is Idle)
    &&& s.session() == audio
    &&& s.preamble_at() + audio.len() == s.buffer.len()
    &&& match s.phase {
        Phase::Idle => false,
        Phase::Training { preamble_offset, .. } => preamble_offset + audio.len() == s.total,
        Phase::Streaming { preamble_offset, .. } => preamble_offset + audio.len() == s.total,
        Phase::Lost { preamble_offset, .. } => preamble_offset + audio.len() == s.total,
    }
}

/// A session begins at its preamble: after a scan that found one at place `at` of the audio,
/// the audio of the session is the audio that was scanned, from `at` on.
pub proof fn law_session_begins_at_the_preamble<T>(
    s: ReceiverState<T>,
    profile: ProfileIndex,
    at: usize,
)
    requires
        s.valid(),
        at <= s.buffer.len(),
    ensures
        ({
            let t = s.after_scan(Some((profile, at)));
            &&& t.session() == s.buffer.skip(at as int)
            &&& session_is(t, s.buffer.skip(at as int))
        }),
{
}

/// The audio of a session grows by every chunk, and nothing of it is lost before the 25
/// minutes of the session limit are over.
pub proof fn law_session_grows_by_each_chunk<T>(
    s: ReceiverState<T>,
    audio: Seq<T>,
    samples: Seq<T>,
    silent: bool,
)
    requires
        s.valid(),
        s.total + samples.len() <= u64::MAX,
        session_is(s, audio),
        audio.len() + samples.len() <= 25 * 60 * 48_000,
    ensures
        ({
            let t = s.after_feed(samples, silent);
            &&& t.session() == audio + samples
            &&& session_is(t, audio + samples)
        }),
{
    let t = s.after_feed(samples, silent);
    assert(t.buffer.skip(t.preamble_at()) =~= audio + samples) by {
        assert forall|i: int| 0 <= i < audio.len() implies t.buffer.skip(t.preamble_at())[i]
            == audio[i] by {
            assert(s.buffer.skip(s.preamble_at())[i] == audio[i]);
        }
    }
}

/// Reading a header and asking the decoder leave the audio of a session alone, unless they
/// end the session.
pub proof fn law_session_is_kept<T, S, P>(
    s: ReceiverState<T>,
    audio: Seq<T>,
    found: Option<(ProfileIndex, Header)>,
    r: DecoderReport<S, P>,
)
    requires
        s.valid(),
        session_is(s, audio),
    ensures
        s.phase is Training ==> {
            let t = s.after_header(found);
            t.phase is Idle || session_is(t, audio) && t.session() == audio
        },
        s.phase is Streaming || s.phase is Lost ==> {
            let t = s.after_report(r);
            t.phase is Idle || session_is(t, audio) && t.session() == audio
        },
{
}

/// A session is over its limit when it has lasted 25 minutes, however long the receiver
/// was running before it.
pub proof fn law_session_limit_counts_from_the_preamble<T, S, P>(
    s: ReceiverState<T>,
    audio: Seq<T>,
    r: DecoderReport<S, P>,
)
    requires
        s.valid(),
        session_is(s, audio),
        s.phase is Streaming,
        !r.payload_there(),
    ensures
        s.after_report(r).phase is Idle <==> audio.len() >= 25 * 60 * 48_000,
{
}

// ---------------------------------------------------------------------------
// Laws on times
// ---------------------------------------------------------------------------

/// An idle receiver keeps the last three seconds of audio, and asks for a scan once a second
/// has gone by since the last one and it has a second of audio.
pub proof fn law_idle_receiver_scans_every_second<T>(
    s: ReceiverState<T>,
    samples: Seq<T>,
    silent: bool,
    i: int,
)
    requires
        s.phase is Idle,
    ensures
        ({
            let all = s.buffer + samples;
            let t = s.after_feed(samples, silent);
            let kept = t.buffer.len();
            &&& t.phase is Idle
            &&& kept == if all.len() <= 3 * 48_000 {
                all.len()
            } else {
                3 * 48_000
            }
            &&& 0 <= i < kept ==> t.buffer[i] == all[all.len() - kept + i]
            &&& t.request is Scan <==> t.total - s.last_scan >= 48_000 && kept >= 48_000
            &&& t.request is Scan ==> t.last_scan == t.total
            &&& !(t.request is Scan) ==> t.request is Nothing && t.last_scan == s.last_scan
            &&& t.total - s.total == samples.len()
        }),
{
}

/// The header is tried at the next chunk after a lock, with all profiles, and then every
/// half second with the profile of the lock.
pub proof fn law_header_is_tried_every_half_second<T>(
    s: ReceiverState<T>,
    samples: Seq<T>,
    silent: bool,
)
    requires
        s.phase is Training,
    ensures
        ({
            let t = s.after_feed(samples, silent);
            let attempts = s.phase->Training_attempts;
            &&& t.phase == s.phase
            &&& attempts == 0 ==> t.request == (RequestV2::ReadHeader { try_all: true })
            &&& attempts > 0 ==> t.request == if 2 * (s.total + samples.len()
                - s.phase->Training_last_attempt) >= 48_000 {
                RequestV2::ReadHeader { try_all: false }
            } else {
                RequestV2::Nothing
            }
        }),
{
}

/// A lock without a header is given up at the fourth attempt, or at the first one if the
/// session already holds eight tenths of a second, which is enough for the header of every
/// profile. Each attempt that is not the last is counted, and its time is kept.
pub proof fn law_lock_without_header_is_given_up<T>(s: ReceiverState<T>, audio: Seq<T>)
    requires
        s.valid(),
        s.phase is Training,
        session_is(s, audio),
    ensures
        ({
            let t = s.after_header(None);
            let attempts = s.phase->Training_attempts;
            let last = attempts == 3 || attempts == 0 && 10 * audio.len() >= 8 * 48_000;
            &&& t.phase is Idle <==> last
            &&& !last ==> t.phase == (Phase::Training {
                profile: s.phase->Training_profile,
                preamble_offset: s.phase->Training_preamble_offset,
                attempts: (attempts + 1) as usize,
                last_attempt: s.total as u64,
            })
            &&& t.buffer == s.buffer
        }),
{
}

/// After a false lock the audio that is there is scanned again at the next chunk.
pub proof fn law_false_lock_is_scanned_again<T>(
    s: ReceiverState<T>,
    samples: Seq<T>,
    silent: bool,
)
    requires
        s.valid(),
        s.phase is Training,
        s.after_header(None).phase is Idle,
        s.buffer.len() >= 48_000,
    ensures
        s.after_header(None).after_feed(samples, silent).request is Scan,
{
}

/// A header opens the session: it goes on with the profile of the header and its preamble.
pub proof fn law_header_opens_the_session<T>(
    s: ReceiverState<T>,
    used: ProfileIndex,
    h: Header,
)
    requires
        s.phase is Training,
    ensures
        s.after_header(Some((used, h))).phase == (Phase::Streaming {
            profile: profile_of(h, used),
            preamble_offset: s.phase->Training_preamble_offset,
            header: h,
            silence: 0,
            last_marker: None,
        }),
        s.after_header(Some((used, h))).buffer == s.buffer,
{
}

/// A session without its payload waits for the signal after half a second of silence on end,
/// and goes on before that.
pub proof fn law_half_a_second_of_silence_loses_the_signal<T, S, P>(
    s: ReceiverState<T>,
    audio: Seq<T>,
    samples: Seq<T>,
    silent: bool,
    r: DecoderReport<S, P>,
)
    requires
        s.valid(),
        s.phase is Streaming,
        session_is(s, audio),
        s.total + samples.len() <= u64::MAX,
        audio.len() + samples.len() < 25 * 60 * 48_000,
        !r.payload_there(),
    ensures
        ({
            let quiet = if silent {
                s.phase->Streaming_silence + samples.len()
            } else {
                0
            };
            let t = s.after_feed(samples, silent).after_report(r);
            &&& s.after_feed(samples, silent).request is Report
            &&& 2 * quiet >= 48_000 ==> t.phase is Lost && t.phase->Lost_silence == quiet
            &&& 2 * quiet < 48_000 ==> t.phase is Streaming && t.phase->Streaming_silence == quiet
        }),
{
    law_session_grows_by_each_chunk(s, audio, samples, silent);
}

/// A lost signal is waited for until 15 seconds of silence have gone by.
pub proof fn law_lost_signal_is_awaited_for_15_seconds<T>(s: ReceiverState<T>, samples: Seq<T>)
    requires
        s.valid(),
        s.phase is Lost,
        s.total + samples.len() <= u64::MAX,
    ensures
        ({
            let t = s.after_feed(samples, true);
            let quiet = s.phase->Lost_silence + samples.len();
            &&& t.phase is Lost
            &&& t.phase->Lost_silence == quiet
            &&& t.request is Report <==> quiet >= 15 * 48_000
            &&& !(t.request is Report) ==> t.request is Nothing
        }),
{
}

// ---------------------------------------------------------------------------
// Laws on reports
// ---------------------------------------------------------------------------

/// The payload of a session is there where it was put together and its hash is that of the
/// session header, and it completes the session at a pause of half a second, at the limit,
/// when a lost signal is given up, or, with all data there, at a progress report.
pub open spec fn is_complete_at<T, S, P>(s: ReceiverState<T>, r: DecoderReport<S, P>) -> bool {
    &&& r.assembled matches Some(data) && r.app_header matches Some(a)
        && app_header::content_hash(data@) == a.hash_short
    &&& match s.phase {
        Phase::Streaming { preamble_offset, silence, .. } => {
            ||| 2 * silence >= 48_000
            ||| s.total - preamble_offset >= 25 * 60 * 48_000
            ||| s.total - s.last_tick >= 3 * 48_000 && r.all_data_present
        },
        Phase::Lost { .. } => true,
        _ => false,
    }
}

/// A payload is reported exactly where it completes the session, once, and behind its
/// session header and its names. What is reported is the content of its envelope.
pub proof fn law_complete_payload_is_reported<T, S, P>(
    s: ReceiverState<T>,
    r: DecoderReport<S, P>,
    env: PayloadEnvelope,
    i: int,
)
    requires
        s.phase is Streaming || s.phase is Lost,
        env.fits(),
        env.version == 1,
        r.assembled matches Some(data) ==> data@ == env.spec_bytes(),
        0 <= i < s.report_events(r).len(),
    ensures
        ({
            let events = s.report_events(r);
            let n = events.len();
            let done = is_complete_at(s, r);
            &&& events[i] is FileComplete ==> done && i == n - 2
            &&& events[i] is EnvelopeDecoded ==> done && i == n - 3
            &&& done ==> {
                &&& n >= 4
                &&& events[n - 4] == app_header_event::<S, P>(r.app_header->0)
                &&& events[n - 3] == (EventViewV2::<S, P>::EnvelopeDecoded {
                    filename: env.filename@,
                    callsign: env.callsign@,
                })
                &&& events[n - 2] == (EventViewV2::<S, P>::FileComplete {
                    filename: env.filename@,
                    callsign: env.callsign@,
                    mime_type: r.app_header->0.mime_type,
                    content: env.content@,
                    sigma2: r.sigma2,
                })
                &&& events[n - 1] == (EventViewV2::<S, P>::SessionEnd {
                    reason: SessionEndReason::Completed,
                })
                &&& s.after_report(r).phase is Idle
            }
        }),
{
    let events = s.report_events(r);
    let base = s.progress_events(r);
    if i < base.len() && s.phase is Streaming {
        lemma_no_file_before(s, r, i);
        assert(events[i] == base[i]);
    }
    if is_complete_at(s, r) {
        let buf = env.spec_bytes();
        payload_envelope::lemma_written_envelope_is_read(env);
        assert(r.payload_there());
        let tail = r.payload_events().push(
            EventViewV2::<S, P>::SessionEnd { reason: SessionEndReason::Completed },
        );
        if s.phase is Streaming {
            assert(events =~= base + tail);
        }
    }
}

proof fn lemma_no_file_before<T, S, P>(s: ReceiverState<T>, r: DecoderReport<S, P>, i: int)
    requires
        0 <= i < s.progress_events(r).len(),
    ensures
        !(s.progress_events(r)[i] is FileComplete),
        !(s.progress_events(r)[i] is EnvelopeDecoded),
        !(s.progress_events(r)[i] is SessionEnd),
{
    let last = s.phase->Streaming_last_marker;
    let n = r.markers@.len() as int;
    if i < marker_events::<S, P>(last, r.markers@, n).len() {
        lemma_marker_events::<S, P>(last, r.markers@, n, i);
    }
}

/// Progress is shown every three seconds while it changes, with the counts of the decoder,
/// and the session header as soon as a report after three seconds knows it. Markers come
/// first, then the session header, then the progress.
pub proof fn law_progress_is_shown_every_three_seconds<T, S, P>(
    s: ReceiverState<T>,
    r: DecoderReport<S, P>,
)
    requires
        s.phase is Streaming,
    ensures
        ({
            let due = s.total - s.last_tick >= 3 * 48_000;
            let header = due && !s.app_header_shown && r.app_header is Some;
            let progress = due && r.expected_data_blocks > 0 && s.last_progress != Some(
                (r.data_blocks_recovered, r.expected_data_blocks),
            );
            let marks = marker_events::<S, P>(
                s.phase->Streaming_last_marker,
                r.markers@,
                r.markers@.len() as int,
            );
            let m = marks.len() as int;
            let shown = s.progress_events(r);
            &&& shown.take(m) == marks
            &&& shown.len() == m + (if header {
                1int
            } else {
                0
            }) + (if progress {
                1int
            } else {
                0
            })
            &&& header ==> shown[m] == app_header_event::<S, P>(r.app_header->0)
            &&& progress ==> shown.last() == (EventViewV2::<S, P>::ProgressUpdate {
                blocks_converged: r.data_blocks_recovered,
                blocks_total: r.total_blocks,
                blocks_expected: r.expected_data_blocks,
                sigma2: r.sigma2,
                converged_bitmap: r.converged_bitmap@,
                constellation_sample: r.constellation_sample@,
            })
            &&& s.report_events(r).take(shown.len() as int) == shown
            &&& s.after_report(r).phase is Idle || {
                let t = s.after_report(r);
                &&& t.last_tick == if due {
                    s.total
                } else {
                    s.last_tick
                }
                &&& t.app_header_shown == (s.app_header_shown || header)
                &&& t.last_progress == if progress {
                    Some((r.data_blocks_recovered, r.expected_data_blocks))
                } else {
                    s.last_progress
                }
            }
        }),
{
    let marks = marker_events::<S, P>(
        s.phase->Streaming_last_marker,
        r.markers@,
        r.markers@.len() as int,
    );
    let shown = s.progress_events(r);
    assert(shown.take(marks.len() as int) =~= marks);
    assert(s.report_events(r).take(shown.len() as int) =~= shown);
}

/// A marker is reported where its number is not that of the marker before it, with its
/// number, its first codeword and whether it is a meta marker.
pub proof fn law_new_markers_are_reported<S, P>(
    last: Option<u16>,
    markers: Seq<MarkerPayload>,
    i: int,
)
    requires
        0 <= i < markers.len(),
    ensures
        ({
            let m = markers[i];
            let before = marker_events::<S, P>(last, markers, i);
            let after = marker_events::<S, P>(last, markers, i + 1);
            let known = if i == 0 {
                last == Some(m.seg_id)
            } else {
                markers[i - 1].seg_id == m.seg_id
            };
            &&& known ==> after == before
            &&& !known ==> after == before.push(
                EventViewV2::MarkerSynced {
                    seg_id: m.seg_id,
                    base_esi: m.base_esi,
                    is_meta: m.flags % 2 == 1,
                },
            )
            &&& last_marker(last, markers, i + 1) == Some(m.seg_id)
            &&& marker_events::<S, P>(last, markers, 0).len() == 0
        }),
{
    walk::lemma_meta_is_the_low_bit(markers[i]);
}

// ---------------------------------------------------------------------------
// Laws on profiles and places
// ---------------------------------------------------------------------------

/// The header that a sender writes for a profile leads back to that profile, whichever
/// filters read it.
pub proof fn law_header_names_its_profile(h: Header, p: ProfileIndex, used: ProfileIndex)
    requires
        h.profile_index == p.spec_as_u8(),
        h.mode_code == p.spec_config().spec_mode_code(),
    ensures
        profile_of(h, used) == p,
{
    profile::law_profile_byte_round_trip(p, h.profile_index);
    assert(has_mode(p, h.mode_code));
    lemma_profile_of(p, h, used);
}

/// The profile of a header runs in the mode of the header, if any profile does; and where
/// none does, it is the one whose filters read the header.
pub proof fn law_profile_runs_in_the_mode_of_the_header(
    p: ProfileIndex,
    h: Header,
    used: ProfileIndex,
    q: ProfileIndex,
)
    requires
        is_profile_of(p, h, used),
    ensures
        q.spec_config().spec_mode_code() == h.mode_code ==> p.spec_config().spec_mode_code()
            == h.mode_code,
        (forall|o: ProfileIndex| (#[trigger] o.spec_config()).spec_mode_code() != h.mode_code)
            ==> p == used,
        used.spec_config().spec_mode_code() == h.mode_code && p != used
            ==> p.spec_as_u8() == h.profile_index,
{
    assert(has_mode(q, h.mode_code) <==> q.spec_config().spec_mode_code() == h.mode_code);
    assert(has_mode(p, h.mode_code) <==> p.spec_config().spec_mode_code() == h.mode_code);
    profile::law_profile_byte_round_trip(p, h.profile_index);
}

/// Sidelobes are measured one, two, three, four, six and eight symbols to each side of a
/// preamble, wherever a preamble still fits.
pub proof fn law_sidelobes_lie_on_both_sides(center: int, pitch: int, n: int, at: int)
    requires
        0 <= center <= usize::MAX,
        pitch >= 1,
        0 <= n <= usize::MAX,
        0 <= at <= usize::MAX,
    ensures
        sidelobes(center, pitch, last_start(n, pitch), 12).contains(at as usize) <==> {
            &&& at + 256 * pitch <= n || at == 0
            &&& {
                let away = if at < center {
                    center - at
                } else {
                    at - center
                };
                ||| away == pitch
                ||| away == 2 * pitch
                ||| away == 3 * pitch
                ||| away == 4 * pitch
                ||| away == 6 * pitch
                ||| away == 8 * pitch
            }
        },
{
    let end = last_start(n, pitch);
    lemma_sidelobes(center, pitch, end, 12, at);
    assert(-8 * pitch == -(8 * pitch) && -6 * pitch == -(6 * pitch) && -4 * pitch == -(4 * pitch)
        && -3 * pitch == -(3 * pitch) && -2 * pitch == -(2 * pitch) && -1 * pitch == -pitch && 1
        * pitch == pitch);
    let listed = exists|k: int|
        0 <= k < 12 && at == center + #[trigger] sidelobe_offset(k) * pitch;
    assert(listed ==> {
        let away = if at < center {
            center - at
        } else {
            at - center
        };
        away == pitch || away == 2 * pitch || away == 3 * pitch || away == 4 * pitch || away == 6
            * pitch || away == 8 * pitch
    });
    assert(sidelobe_offset(0) == -8 && sidelobe_offset(1) == -6 && sidelobe_offset(2) == -4
        && sidelobe_offset(3) == -3 && sidelobe_offset(4) == -2 && sidelobe_offset(5) == -1
        && sidelobe_offset(6) == 1 && sidelobe_offset(7) == 2 && sidelobe_offset(8) == 3
        && sidelobe_offset(9) == 4 && sidelobe_offset(10) == 6 && sidelobe_offset(11) == 8);
}

/// The places of sidelobes are listed where they lie within the signal.
proof fn lemma_sidelobes(center: int, pitch: int, end: int, k: int, at: int)
    requires
        0 <= k <= 12,
        0 <= at <= usize::MAX,
        0 <= end <= usize::MAX,
    ensures
        sidelobes(center, pitch, end, k).contains(at as usize) <==> at <= end && exists|j: int|
            0 <= j < k && at == center + #[trigger] sidelobe_offset(j) * pitch,
    decreases k,
{
    if k > 0 {
        lemma_sidelobes(center, pitch, end, k - 1, at);
        let before = sidelobes(center, pitch, end, k - 1);
        let here = center + sidelobe_offset(k - 1) * pitch;
        let all = sidelobes(center, pitch, end, k);
        if 0 <= here <= end {
            assert(all == before.push(here as usize));
            assert(all[before.len() as int] == here as usize);
            if before.contains(at as usize) {
                let i = choose|i: int| 0 <= i < before.len() && before[i] == at as usize;
                assert(all[i] == at as usize);
            }
            if all.contains(at as usize) && at != here {
                let i = choose|i: int| 0 <= i < all.len() && all[i] == at as usize;
                assert(before[i] == at as usize);
            }
        }
    }
}

/// A scan for the last marker looks 64 symbols ahead, as far as a whole marker fits.
pub proof fn law_marker_scan_stays_within_the_region(s: MarkerScan)
    requires
        s.cursor + 64 <= s.region_len,
    ensures
        s.cursor + 64 + s.width() <= s.region_len,
        s.cursor + 128 <= s.region_len ==> s.width() == 64,
        s.cursor + 128 > s.region_len ==> s.cursor + 64 + s.width() == s.region_len,
{
}

/// A header that was read is reported with its profile; a lock that is given up is reported
/// as aborted; and an attempt that is not the last is not reported.
pub proof fn law_attempts_at_a_header_are_reported<T, S, P>(
    s: ReceiverState<T>,
    p: ProfileIndex,
    used: ProfileIndex,
    h: Header,
)
    requires
        s.phase is Training,
        h.profile_index == p.spec_as_u8(),
        h.mode_code == p.spec_config().spec_mode_code(),
    ensures
        s.header_events::<S, P>(Some((used, h))) == seq![
            EventViewV2::<S, P>::HeaderDecoded {
                profile: p,
                mode_code: h.mode_code,
                payload_length: h.payload_length,
            },
        ],
        s.after_header(None).phase is Idle ==> s.header_events::<S, P>(None) == seq![
            EventViewV2::<S, P>::SessionEnd { reason: SessionEndReason::AbortTimeout },
        ],
        !(s.after_header(None).phase is Idle) ==> s.header_events::<S, P>(None).len() == 0,
{
    law_header_names_its_profile(h, p, used);
}

/// Behind the end of a session the receiver starts over: idle, without audio, and with
/// nothing shown yet.
pub proof fn law_session_end_starts_over<T, S, P>(s: ReceiverState<T>, r: DecoderReport<S, P>)
    requires
        s.after_report(r).phase is Idle,
        s.phase is Streaming || s.phase is Lost,
    ensures
        ({
            let t = s.after_report(r);
            &&& t.buffer.len() == 0
            &&& t.total == s.total
            &&& t.last_scan == s.total
            &&& t.last_tick == s.total
            &&& t.last_progress is None
            &&& !t.app_header_shown
            &&& t.request is Nothing
        }),
{
}

/// A session that ends without its payload ends as aborted, and shows its session header
/// where a lost signal was given up.
pub proof fn law_session_without_payload_is_aborted<T, S, P>(
    s: ReceiverState<T>,
    r: DecoderReport<S, P>,
)
    requires
        s.phase is Streaming || s.phase is Lost,
        !r.payload_there(),
        s.after_report(r).phase is Idle,
    ensures
        s.report_events(r).len() >= 1,
        s.report_events(r).last() == (EventViewV2::<S, P>::SessionEnd {
            reason: SessionEndReason::AbortTimeout,
        }),
        s.phase is Lost ==> (r.app_header matches Some(a) ==> s.report_events(r).len() == 2
            && s.report_events(r)[0] == app_header_event::<S, P>(a)),
        s.phase is Lost ==> (r.app_header is None ==> s.report_events(r).len() == 1),
{
}

/// The event of a session header holds what the header says.
pub proof fn law_session_header_is_shown_as_it_is<S, P>(a: AppHeader)
    ensures
        app_header_event::<S, P>(a) == (EventViewV2::<S, P>::AppHeaderDecoded {
            session_id: a.session_id,
            file_size: a.file_size,
            mime_type: a.mime_type,
            hash_short: a.hash_short,
        }),
{
}

/// A scan for the last marker moves on by a marker from where it looked or found one, and
/// keeps the last marker that could be read.
pub proof fn law_marker_scan_keeps_the_last_marker(
    s: MarkerScan,
    pos: usize,
    read: MarkerPayload,
)
    ensures
        s.cursor_after(None) - s.cursor == 64,
        s.cursor_after(Some((pos, None))) - pos == 64,
        s.cursor_after(Some((pos, Some(read)))) - pos == 64,
        s.latest_after(Some((pos, Some(read)))) == Some(read),
        s.latest_after(Some((pos, None))) == s.latest,
        s.latest_after(None) == s.latest,
{
}

/// Behind the guess the profiles are tried in the order of their bytes.
pub proof fn law_other_profiles_are_tried_in_order(guess: ProfileIndex, i: int, j: int)
    requires
        1 <= i < j < 10,
    ensures
        trial_order(guess)[i].spec_as_u8() < trial_order(guess)[j].spec_as_u8(),
{
    let g = guess.spec_as_u8() as int;
    let (a, b) = (
        if i - 1 < g {
            i - 1
        } else {
            i
        },
        if j - 1 < g {
            j - 1
        } else {
            j
        },
    );
    let (p, q) = (trial_order(guess)[i], trial_order(guess)[j]);
    assert(p == ProfileIndex::spec_from_u8(a as u8)->0);
    assert(q == ProfileIndex::spec_from_u8(b as u8)->0);
    assert(ProfileIndex::spec_from_u8(a as u8) is Some);
    assert(ProfileIndex::spec_from_u8(b as u8) is Some);
    profile::law_profile_byte_round_trip(p, a as u8);
    profile::law_profile_byte_round_trip(q, b as u8);
}

/// A receiver starts idle and without audio.
pub proof fn law_receiver_starts_idle<T>()
    ensures
        ({
            let s = ReceiverState::<T>::start();
            &&& s.total == 0 && s.last_scan == 0 && s.last_tick == 0
            &&& s.buffer.len() == 0
            &&& s.phase is Idle && s.request is Nothing
            &&& s.last_progress is None
            &&& !s.app_header_shown
        }),
{
}

/// Where neither the profile that a header names nor the one that read it runs in its mode,
/// the first that does is taken.
pub proof fn law_first_profile_of_the_mode_is_taken(
    p: ProfileIndex,
    h: Header,
    used: ProfileIndex,
    q: ProfileIndex,
)
    requires
        is_profile_of(p, h, used),
        used.spec_config().spec_mode_code() != h.mode_code,
        q.spec_config().spec_mode_code() == h.mode_code,
    ensures
        p.spec_as_u8() == h.profile_index || p.spec_as_u8() <= q.spec_as_u8(),
{
    assert(has_mode(q, h.mode_code));
    assert(!has_mode(used, h.mode_code));
    profile::law_profile_byte_round_trip(p, h.profile_index);
}

/// No marker is looked for where none fits any more.
pub proof fn law_marker_scan_ends_with_the_region(s: MarkerScan)
    requires
        s.cursor + 64 > s.region_len,
    ensures
        s.width() == 0,
{
}

/// A session whose preamble has left the buffer is all that the buffer still holds.
pub proof fn law_overlong_session_keeps_what_is_left<T>(s: ReceiverState<T>)
    requires
        s.valid(),
        match s.phase {
            Phase::Idle => true,
            Phase::Training { preamble_offset, .. } => preamble_offset + s.buffer.len() <= s.total,
            Phase::Streaming { preamble_offset, .. } => preamble_offset + s.buffer.len() <= s.total,
            Phase::Lost { preamble_offset, .. } => preamble_offset + s.buffer.len() <= s.total,
        },
    ensures
        s.session() == s.buffer,
{
    assert(s.buffer.skip(0) =~= s.buffer);
}

/// After a false lock the last scan counts as a second old, and the audio stays.
pub proof fn law_false_lock_counts_as_a_second_old<T>(s: ReceiverState<T>)
    requires
        s.valid(),
        s.phase is Training,
        s.after_header(None).phase is Idle,
        s.total >= 48_000,
    ensures
        s.after_header(None).last_scan + 48_000 == s.total,
        s.after_header(None).buffer == s.buffer,
        s.after_header(None).total == s.total,
{
}

} // verus!
