//! A live receiver: audio comes in by chunks, events go out.
//!
//! The receiver keeps the audio and decides when to scan it for a preamble and when
//! to decode it. Scanning and decoding are signal processing and are left to the
//! caller: `feed` says what is due, and the caller hands back what was found.

use std::collections::VecDeque;

use vstd::prelude::*;

use crate::app_header;
use crate::app_header::AppHeader;
use crate::header::Header;
use crate::payload_envelope;
use crate::payload_envelope::PayloadEnvelope;
use crate::profile::ProfileIndex;

verus! {

/// Audio kept while no preamble is locked: three seconds.
pub const IDLE_WINDOW_SAMPLES: usize = 144_000;

/// Audio needed before a scan: one second, enough for the slowest preamble.
pub const MIN_BUFFER_FOR_SCAN: usize = 48_000;

/// Silence that ends a transmission: one and a half seconds.
pub const SILENCE_TIMEOUT_SAMPLES: u64 = 72_000;

/// Longest transmission: 25 minutes.
pub const SESSION_TIMEOUT_SAMPLES: u64 = 72_000_000;

/// How many chunks lie between two decodes of a transmission under way.
pub const RETRY_DECODE_EVERY: usize = 5;

// ---------------------------------------------------------------------------
// Audio
// ---------------------------------------------------------------------------

/// The last `n` items of a sequence, or all where there are fewer.
pub open spec fn last_of<T>(s: Seq<T>, n: int) -> Seq<T> {
    if s.len() > n {
        s.skip(s.len() - n)
    } else {
        s
    }
}

/// Audio that a receiver keeps.
pub struct SampleBuffer<T> {
    items: VecDeque<T>,
}

impl<T> View for SampleBuffer<T> {
    type V = Seq<T>;

    closed spec fn view(&self) -> Seq<T> {
        self.items@
    }
}

impl<T: Copy> SampleBuffer<T> {
    /// An empty buffer.
    pub fn new() -> (b: Self)
        ensures
            b@ == Seq::<T>::empty(),
    {
        SampleBuffer { items: VecDeque::new() }
    }

    /// Number of samples.
    pub fn len(&self) -> (n: usize)
        ensures
            n == self@.len(),
    {
        self.items.len()
    }

    /// Add samples; the oldest make room where there would be more than `max`.
    pub fn append(&mut self, samples: &[T], max: usize)
        requires
            max >= 1,
            old(self)@.len() <= max,
        ensures
            final(self)@ == last_of(old(self)@ + samples@, max as int),
    {
        let ghost before = self@;
        let mut i: usize = 0;
        assert(before + samples@.take(0) =~= before);
        while i < samples.len()
            invariant
                i <= samples@.len(),
                max >= 1,
                self@ == last_of(before + samples@.take(i as int), max as int),
            decreases samples@.len() - i,
        {
            let ghost all = before + samples@.take(i as int);
            let ghost next = before + samples@.take(i + 1);
            assert(next =~= all.push(samples@[i as int]));
            if self.items.len() >= max {
                self.items.pop_front();
            }
            self.items.push_back(samples[i]);
            assert(self@ =~= last_of(next, max as int));
            i = i + 1;
        }
        assert(samples@.take(i as int) =~= samples@);
    }

    /// Keep the last `n` samples.
    pub fn trim(&mut self, n: usize)
        ensures
            final(self)@ == last_of(old(self)@, n as int),
    {
        let ghost before = self@;
        while self.items.len() > n
            invariant
                n <= before.len() || self@ == before,
                self@.len() <= before.len(),
                self@.len() >= n || self@ == before,
                self@ == last_of(before, self@.len() as int),
            decreases self@.len(),
        {
            let ghost now = self@;
            self.items.pop_front();
            assert(self@ =~= last_of(before, self@.len() as int));
        }
    }

    /// Drop all samples.
    pub fn clear(&mut self)
        ensures
            final(self)@ == Seq::<T>::empty(),
    {
        self.items.clear();
    }

    /// The samples from `start` on.
    pub fn slice_from(&self, start: usize) -> (out: Vec<T>)
        requires
            start <= self@.len(),
        ensures
            out@ == self@.skip(start as int),
    {
        let mut out: Vec<T> = Vec::new();
        let mut i: usize = start;
        while i < self.items.len()
            invariant
                start <= i <= self@.len(),
                out@ == self@.subrange(start as int, i as int),
            decreases self@.len() - i,
        {
            out.push(self.items[i]);
            assert(self@.subrange(start as int, i + 1) =~= self@.subrange(
                start as int,
                i as int,
            ).push(self@[i as int]));
            i = i + 1;
        }
        assert(self@.subrange(start as int, i as int) =~= self@.skip(start as int));
        out
    }
}

// ---------------------------------------------------------------------------
// Choosing a preamble
// ---------------------------------------------------------------------------

/// A preamble found with the filters of one profile. Scores of one scan compare as
/// the correlations that they stand for.
#[derive(Clone, Copy, Debug, PartialEq, Eq, Structural)]
pub struct Candidate {
    pub profile: ProfileIndex,
    pub position: usize,
    pub score: u64,
}

/// Candidate `w` scores highest, and is the first of equals.
pub open spec fn is_best_candidate(found: Seq<Candidate>, w: int) -> bool {
    &&& 0 <= w < found.len()
    &&& forall|j: int| 0 <= j < found.len() ==> found[j].score <= found[w].score
    &&& forall|j: int| 0 <= j < w ==> found[j].score < found[w].score
}

/// Choose the candidate with the highest score, the first of equals. `None` unless
/// its score is above the threshold.
pub fn pick_candidate(found: &Vec<Candidate>, threshold: u64) -> (best: Option<
    (ProfileIndex, usize),
>)
    ensures
        best is None <==> forall|j: int|
            0 <= j < found@.len() ==> (#[trigger] found@[j]).score <= threshold,
        best matches Some((profile, position)) ==> exists|w: int| #[trigger]
            is_best_candidate(found@, w) && profile == found@[w].profile && position
                == found@[w].position,
{
    let mut best: usize = 0;
    let mut i: usize = 1;
    if found.len() == 0 {
        return None;
    }
    while i < found.len()
        invariant
            1 <= i <= found@.len(),
            best < i,
            forall|j: int| 0 <= j < i ==> found@[j].score <= found@[best as int].score,
            forall|j: int| 0 <= j < best ==> found@[j].score < found@[best as int].score,
        decreases found@.len() - i,
    {
        if found[i].score > found[best].score {
            best = i;
        }
        i = i + 1;
    }
    assert(is_best_candidate(found@, best as int));
    if found[best].score > threshold {
        Some((found[best].profile, found[best].position))
    } else {
        None
    }
}

// ---------------------------------------------------------------------------
// Decoding
// ---------------------------------------------------------------------------

/// What decoding a transmission gave. `S` is a noise estimate.
pub struct DecodeResult<S> {
    pub header: Option<Header>,
    pub app_header: Option<AppHeader>,
    pub converged_blocks: usize,
    pub total_blocks: usize,
    pub sigma2: S,
    pub data: Vec<u8>,
}

/// The profile that a header names, if it names one.
pub open spec fn named_profile(header: Option<Header>) -> Option<ProfileIndex> {
    match header {
        Some(h) => ProfileIndex::spec_from_u8(h.profile_index),
        None => None,
    }
}

/// The profile to decode again with: the one that the header names, if another.
pub open spec fn other_profile(header: Option<Header>, profile: ProfileIndex) -> Option<
    ProfileIndex,
> {
    match named_profile(header) {
        Some(p) => if p != profile {
            Some(p)
        } else {
            None
        },
        None => None,
    }
}

/// The profile to decode again with, where the header of a first decode with
/// `profile` names another one.
pub fn retry_profile(header: &Option<Header>, profile: ProfileIndex) -> (retry: Option<
    ProfileIndex,
>)
    ensures
        retry == other_profile(*header, profile),
{
    match header {
        Some(h) => match ProfileIndex::from_u8(h.profile_index) {
            Some(p) => if p != profile {
                Some(p)
            } else {
                None
            },
            None => None,
        },
        None => None,
    }
}

/// The payload is that of the session header.
pub open spec fn hash_matches(app_header: Option<AppHeader>, data: Seq<u8>) -> bool {
    app_header matches Some(a) && app_header::content_hash(data) == a.hash_short
}

/// Whether a payload is that of its session header.
pub fn payload_matches(app_header: &Option<AppHeader>, data: &Vec<u8>) -> (yes: bool)
    ensures
        yes == hash_matches(*app_header, data@),
{
    match app_header {
        Some(a) => app_header::fnv1a_u16(data.as_slice()) == a.hash_short,
        None => false,
    }
}

/// All codewords converged and the payload is that of the session header.
pub open spec fn is_complete<S>(r: DecodeResult<S>) -> bool {
    &&& r.total_blocks > 0
    &&& r.converged_blocks == r.total_blocks
    &&& hash_matches(r.app_header, r.data@)
}

// ---------------------------------------------------------------------------
// Events
// ---------------------------------------------------------------------------

/// What a receiver reports.
#[derive(Debug, Clone)]
pub enum StreamEvent<S> {
    /// A preamble was found; the profile is a first guess.
    PreambleDetected { profile: ProfileIndex },
    /// The header was decoded; its profile is the right one.
    HeaderDecoded { profile: ProfileIndex, mode_code: u8, payload_length: u16 },
    /// The session header was decoded.
    AppHeaderDecoded { session_id: u32, file_size: u32, mime_type: u8, hash_short: u16 },
    /// The names in the envelope.
    EnvelopeDecoded { filename: String, callsign: String },
    /// How far decoding came.
    ProgressUpdate { blocks_converged: usize, blocks_total: usize, sigma2: S },
    /// The payload is there, out of its envelope.
    FileComplete {
        filename: String,
        callsign: String,
        mime_type: u8,
        content: Vec<u8>,
        sigma2: S,
    },
    /// The transmission is over; the receiver waits for the next.
    SessionEnd,
}

/// An event with its texts and bytes as sequences.
#[verifier::ext_equal]
pub enum EventView<S> {
    PreambleDetected { profile: ProfileIndex },
    HeaderDecoded { profile: ProfileIndex, mode_code: u8, payload_length: u16 },
    AppHeaderDecoded { session_id: u32, file_size: u32, mime_type: u8, hash_short: u16 },
    EnvelopeDecoded { filename: Seq<char>, callsign: Seq<char> },
    ProgressUpdate { blocks_converged: usize, blocks_total: usize, sigma2: S },
    FileComplete {
        filename: Seq<char>,
        callsign: Seq<char>,
        mime_type: u8,
        content: Seq<u8>,
        sigma2: S,
    },
    SessionEnd,
}

impl<S> View for StreamEvent<S> {
    type V = EventView<S>;

    open spec fn view(&self) -> EventView<S> {
        match *self {
            StreamEvent::PreambleDetected { profile } => EventView::PreambleDetected { profile },
            StreamEvent::HeaderDecoded { profile, mode_code, payload_length } =>
                EventView::HeaderDecoded { profile, mode_code, payload_length },
            StreamEvent::AppHeaderDecoded { session_id, file_size, mime_type, hash_short } =>
                EventView::AppHeaderDecoded { session_id, file_size, mime_type, hash_short },
            StreamEvent::EnvelopeDecoded { filename, callsign } => EventView::EnvelopeDecoded {
                filename: filename@,
                callsign: callsign@,
            },
            StreamEvent::ProgressUpdate { blocks_converged, blocks_total, sigma2 } =>
                EventView::ProgressUpdate { blocks_converged, blocks_total, sigma2 },
            StreamEvent::FileComplete { filename, callsign, mime_type, content, sigma2 } =>
                EventView::FileComplete {
                filename: filename@,
                callsign: callsign@,
                mime_type,
                content: content@,
                sigma2,
            },
            StreamEvent::SessionEnd => EventView::SessionEnd,
        }
    }
}

/// Events as views.
pub open spec fn views<S>(events: Seq<StreamEvent<S>>) -> Seq<EventView<S>> {
    events.map_values(|e: StreamEvent<S>| e@)
}

/// The event of a header; the profile is the one that it names, else `used`.
pub open spec fn header_event<S>(h: Header, used: ProfileIndex) -> EventView<S> {
    EventView::HeaderDecoded {
        profile: match ProfileIndex::spec_from_u8(h.profile_index) {
            Some(p) => p,
            None => used,
        },
        mode_code: h.mode_code,
        payload_length: h.payload_length,
    }
}

/// The event of a session header.
pub open spec fn app_header_event<S>(a: AppHeader) -> EventView<S> {
    EventView::AppHeaderDecoded {
        session_id: a.session_id,
        file_size: a.file_size,
        mime_type: a.mime_type,
        hash_short: a.hash_short,
    }
}

/// The events of a payload that is there.
pub open spec fn file_events<S>(mime_type: u8, data: Seq<u8>, sigma2: S) -> Seq<EventView<S>> {
    seq![
        EventView::EnvelopeDecoded {
            filename: payload_envelope::name_of(data),
            callsign: payload_envelope::callsign_of(data),
        },
        EventView::FileComplete {
            filename: payload_envelope::name_of(data),
            callsign: payload_envelope::callsign_of(data),
            mime_type,
            content: payload_envelope::content_of(data),
            sigma2,
        },
    ]
}

/// The events of a decode. `ending` tells that nothing more is to come.
pub open spec fn decode_events<S>(r: DecodeResult<S>, used: ProfileIndex, ending: bool) -> Seq<
    EventView<S>,
> {
    (match r.header {
        Some(h) => seq![header_event::<S>(h, used)],
        None => Seq::empty(),
    }) + (match r.app_header {
        Some(a) => seq![app_header_event::<S>(a)],
        None => Seq::empty(),
    }) + seq![
        EventView::ProgressUpdate {
            blocks_converged: r.converged_blocks,
            blocks_total: r.total_blocks,
            sigma2: r.sigma2,
        },
    ] + (if is_complete(r) {
        file_events(r.app_header->0.mime_type, r.data@, r.sigma2).push(EventView::SessionEnd)
    } else if ending {
        seq![EventView::SessionEnd]
    } else {
        Seq::empty()
    })
}

fn push_event<S>(events: &mut Vec<StreamEvent<S>>, event: StreamEvent<S>)
    ensures
        views(final(events)@) == views(old(events)@).push(event@),
{
    events.push(event);
    assert(views(events@) =~= views(old(events)@).push(event@));
}

/// The events of a decode.
fn report_decode<S: Copy>(r: &DecodeResult<S>, used: ProfileIndex, ending: bool) -> (events: Vec<
    StreamEvent<S>,
>)
    ensures
        views(events@) == decode_events(*r, used, ending),
{
    let mut events: Vec<StreamEvent<S>> = Vec::new();
    assert(views(events@) =~= Seq::empty());
    match r.header {
        Some(h) => {
            let profile = match ProfileIndex::from_u8(h.profile_index) {
                Some(p) => p,
                None => used,
            };
            push_event(
                &mut events,
                StreamEvent::HeaderDecoded {
                    profile,
                    mode_code: h.mode_code,
                    payload_length: h.payload_length,
                },
            );
        },
        None => {},
    }
    match r.app_header {
        Some(a) => {
            push_event(
                &mut events,
                StreamEvent::AppHeaderDecoded {
                    session_id: a.session_id,
                    file_size: a.file_size,
                    mime_type: a.mime_type,
                    hash_short: a.hash_short,
                },
            );
        },
        None => {},
    }
    push_event(
        &mut events,
        StreamEvent::ProgressUpdate {
            blocks_converged: r.converged_blocks,
            blocks_total: r.total_blocks,
            sigma2: r.sigma2,
        },
    );
    let complete: bool = r.total_blocks > 0 && r.converged_blocks == r.total_blocks
        && payload_matches(&r.app_header, &r.data);
    if complete {
        let mime_type: u8 = match r.app_header {
            Some(a) => a.mime_type,
            None => 0,
        };
        let envelope = PayloadEnvelope::decode_or_fallback(r.data.as_slice());
        push_event(
            &mut events,
            StreamEvent::EnvelopeDecoded {
                filename: envelope.filename.clone(),
                callsign: envelope.callsign.clone(),
            },
        );
        push_event(
            &mut events,
            StreamEvent::FileComplete {
                filename: envelope.filename,
                callsign: envelope.callsign,
                mime_type,
                content: envelope.content,
                sigma2: r.sigma2,
            },
        );
        push_event(&mut events, StreamEvent::SessionEnd);
    } else if ending {
        push_event(&mut events, StreamEvent::SessionEnd);
    }
    assert(views(events@) =~= decode_events(*r, used, ending));
    events
}

// ---------------------------------------------------------------------------
// The receiver
// ---------------------------------------------------------------------------

/// A transmission that is being received.
#[derive(Clone, Copy, Debug, PartialEq, Eq, Structural)]
pub struct Lock {
    pub profile: ProfileIndex,
    /// Where its preamble starts, counted from the first sample ever fed.
    pub preamble_offset: u64,
    /// Payload length from its header, once decoded.
    pub payload_length: Option<u16>,
    /// Samples of silence at the end so far.
    pub silence: u64,
    /// Chunks fed so far.
    pub feeds: usize,
}

/// What the caller has to do next.
#[derive(Clone, Copy, Debug, PartialEq, Eq, Structural)]
pub enum Request {
    /// Feed more audio.
    Nothing,
    /// Scan the audio for a preamble and call `scanned`.
    Scan,
    /// Decode the audio from the preamble on and call `decoded`. `ending` tells that
    /// the transmission is over.
    Decode { ending: bool },
}

/// State of a receiver.
#[verifier::ext_equal]
pub struct StreamState<T> {
    pub buffer: Seq<T>,
    pub max_buffer: int,
    pub total: int,
    pub lock: Option<Lock>,
    pub scan_interval: int,
    pub last_scan: int,
    pub retry_every: int,
    pub request: Request,
}

impl<T> StreamState<T> {
    /// A receiver before the first sample.
    pub open spec fn start(max_buffer: int, scan_interval: int, retry_every: int) -> Self {
        StreamState {
            buffer: Seq::empty(),
            max_buffer,
            total: 0,
            lock: None,
            scan_interval,
            last_scan: 0,
            retry_every,
            request: Request::Nothing,
        }
    }

    /// The audio kept is the end of all audio, and a locked preamble lies in the past.
    pub open spec fn valid(self) -> bool {
        &&& 1 <= self.max_buffer
        &&& self.buffer.len() <= self.max_buffer
        &&& self.buffer.len() <= self.total <= u64::MAX
        &&& self.last_scan <= self.total
        &&& 1 <= self.retry_every
        &&& self.lock matches Some(l) ==> l.preamble_offset <= self.total && l.silence
            <= self.total
        &&& self.request is Scan ==> self.lock is None
        &&& self.request is Decode ==> self.lock is Some
    }

    /// The counters have room for a chunk.
    pub open spec fn has_room(self, n: int) -> bool {
        &&& self.total + n <= u64::MAX
        &&& self.lock matches Some(l) ==> l.feeds < usize::MAX
    }

    /// Where the locked preamble stands in the buffer.
    pub open spec fn preamble_at(self) -> int {
        let start = self.total - self.buffer.len();
        if self.lock->0.preamble_offset >= start {
            self.lock->0.preamble_offset - start
        } else {
            0
        }
    }

    /// The audio from the preamble on.
    pub open spec fn transmission(self) -> Seq<T> {
        self.buffer.skip(self.preamble_at())
    }

    /// Back to waiting for a preamble, without any audio.
    pub open spec fn cleared(self) -> Self {
        StreamState {
            buffer: Seq::empty(),
            lock: None,
            last_scan: self.total,
            request: Request::Nothing,
            ..self
        }
    }

    /// A chunk was fed.
    pub open spec fn after_feed(self, samples: Seq<T>, silent: bool) -> Self {
        let buffer = last_of(self.buffer + samples, self.max_buffer);
        let total = self.total + samples.len();
        match self.lock {
            None => {
                let kept = last_of(buffer, IDLE_WINDOW_SAMPLES as int);
                let scan = total - self.last_scan >= self.scan_interval && kept.len()
                    >= MIN_BUFFER_FOR_SCAN;
                StreamState {
                    buffer: kept,
                    total,
                    last_scan: if scan {
                        total
                    } else {
                        self.last_scan
                    },
                    request: if scan {
                        Request::Scan
                    } else {
                        Request::Nothing
                    },
                    ..self
                }
            },
            Some(l) => {
                let silence = if silent {
                    l.silence + samples.len()
                } else {
                    0
                };
                let feeds = l.feeds + 1;
                let ending = silence >= SILENCE_TIMEOUT_SAMPLES || total - l.preamble_offset
                    >= SESSION_TIMEOUT_SAMPLES;
                StreamState {
                    buffer,
                    total,
                    lock: Some(Lock { silence: silence as u64, feeds: feeds as usize, ..l }),
                    request: if ending || feeds % self.retry_every == 0 {
                        Request::Decode { ending }
                    } else {
                        Request::Nothing
                    },
                    ..self
                }
            },
        }
    }

    /// A scan found a preamble, or none.
    pub open spec fn after_scan(self, found: Option<(ProfileIndex, usize)>) -> Self {
        StreamState {
            lock: match found {
                Some((profile, at)) => Some(
                    Lock {
                        profile,
                        preamble_offset: (self.total - self.buffer.len() + at) as u64,
                        payload_length: None,
                        silence: 0,
                        feeds: 0,
                    },
                ),
                None => None,
            },
            request: Request::Nothing,
            ..self
        }
    }

    /// The decode to go by, and the profile it was made with: the second one where the
    /// header of the first names another profile and the second gave something.
    pub open spec fn chosen<S>(
        self,
        first: Option<DecodeResult<S>>,
        second: Option<DecodeResult<S>>,
    ) -> Option<(DecodeResult<S>, ProfileIndex)> {
        match first {
            None => None,
            Some(r) => match other_profile(r.header, self.lock->0.profile) {
                Some(p) => match second {
                    Some(r2) => Some((r2, p)),
                    None => Some((r, self.lock->0.profile)),
                },
                None => Some((r, self.lock->0.profile)),
            },
        }
    }

    /// The audio was decoded.
    pub open spec fn after_decode<S>(
        self,
        first: Option<DecodeResult<S>>,
        second: Option<DecodeResult<S>>,
    ) -> Self {
        let ending = self.request->ending;
        match self.chosen(first, second) {
            None => if ending {
                self.cleared()
            } else {
                StreamState { request: Request::Nothing, ..self }
            },
            Some((r, _)) => if is_complete(r) || ending {
                self.cleared()
            } else {
                StreamState {
                    lock: Some(
                        Lock {
                            profile: match other_profile(
                                first->0.header,
                                self.lock->0.profile,
                            ) {
                                Some(p) => p,
                                None => self.lock->0.profile,
                            },
                            payload_length: match r.header {
                                Some(h) => Some(h.payload_length),
                                None => self.lock->0.payload_length,
                            },
                            ..self.lock->0
                        },
                    ),
                    request: Request::Nothing,
                    ..self
                }
            },
        }
    }

    /// The events of a scan.
    pub open spec fn events_of_scan<S>(self, found: Option<(ProfileIndex, usize)>) -> Seq<
        EventView<S>,
    > {
        match found {
            Some((profile, _)) => seq![EventView::PreambleDetected { profile }],
            None => Seq::empty(),
        }
    }

    /// The state after a whole feed: a chunk comes in, and what is then due is done. A scan
    /// gives `found`, a decode gives `first` and `second`.
    pub open spec fn after_chunk<S>(
        self,
        samples: Seq<T>,
        silent: bool,
        found: Option<(ProfileIndex, usize)>,
        first: Option<DecodeResult<S>>,
        second: Option<DecodeResult<S>>,
    ) -> Self {
        let fed = self.after_feed(samples, silent);
        match fed.request {
            Request::Nothing => fed,
            Request::Scan => fed.after_scan(found),
            Request::Decode { .. } => fed.after_decode(first, second),
        }
    }

    /// The events of a whole feed.
    pub open spec fn events_of_chunk<S>(
        self,
        samples: Seq<T>,
        silent: bool,
        found: Option<(ProfileIndex, usize)>,
        first: Option<DecodeResult<S>>,
        second: Option<DecodeResult<S>>,
    ) -> Seq<EventView<S>> {
        let fed = self.after_feed(samples, silent);
        match fed.request {
            Request::Nothing => Seq::empty(),
            Request::Scan => fed.events_of_scan(found),
            Request::Decode { .. } => fed.events_of_decode(first, second),
        }
    }

    /// The events of a decode.
    pub open spec fn events_of_decode<S>(
        self,
        first: Option<DecodeResult<S>>,
        second: Option<DecodeResult<S>>,
    ) -> Seq<EventView<S>> {
        let ending = self.request->ending;
        match self.chosen(first, second) {
            Some((r, used)) => decode_events(r, used, ending),
            None => if ending {
                seq![EventView::SessionEnd]
            } else {
                Seq::empty()
            },
        }
    }
}

/// A live receiver. `T` is an audio sample.
pub struct StreamReceiver<T> {
    buffer: SampleBuffer<T>,
    max_buffer: usize,
    total: u64,
    lock: Option<Lock>,
    scan_interval: usize,
    last_scan: u64,
    retry_every: usize,
    request: Request,
}

impl<T> View for StreamReceiver<T> {
    type V = StreamState<T>;

    closed spec fn view(&self) -> StreamState<T> {
        StreamState {
            buffer: self.buffer@,
            max_buffer: self.max_buffer as int,
            total: self.total as int,
            lock: self.lock,
            scan_interval: self.scan_interval as int,
            last_scan: self.last_scan as int,
            retry_every: self.retry_every as int,
            request: self.request,
        }
    }
}

impl<T: Copy> StreamReceiver<T> {
    /// Create a receiver that keeps at most `max_buffer_samples` of audio, scans for a
    /// preamble every `scan_interval_samples`, and decodes a transmission under way
    /// every few chunks. The last sample is always kept.
    pub fn new(max_buffer_samples: usize, scan_interval_samples: usize) -> (r: Self)
        ensures
            r@ == StreamState::<T>::start(
                if max_buffer_samples == 0 {
                    1
                } else {
                    max_buffer_samples as int
                },
                scan_interval_samples as int,
                RETRY_DECODE_EVERY as int,
            ),
            r@.valid(),
    {
        StreamReceiver {
            buffer: SampleBuffer::new(),
            max_buffer: if max_buffer_samples == 0 {
                1
            } else {
                max_buffer_samples
            },
            total: 0,
            lock: None,
            scan_interval: scan_interval_samples,
            last_scan: 0,
            retry_every: RETRY_DECODE_EVERY,
            request: Request::Nothing,
        }
    }

    /// Create a receiver for live capture: 20 minutes of audio, a scan every second,
    /// and one decode at the end of a transmission.
    pub fn default_live() -> (r: Self)
        ensures
            r@ == StreamState::<T>::start(57_600_000, 48_000, usize::MAX as int),
            r@.valid(),
    {
        let mut r = Self::new(57_600_000, 48_000);
        r.retry_every = usize::MAX;
        r
    }

    /// Drop all audio and wait for a preamble.
    pub fn reset(&mut self)
        requires
            old(self)@.valid(),
        ensures
            final(self)@ == old(self)@.cleared(),
            final(self)@.valid(),
    {
        self.buffer.clear();
        self.lock = None;
        self.last_scan = self.total;
        self.request = Request::Nothing;
        assert(self@ =~= old(self)@.cleared());
    }

    /// Take in a chunk of audio. `silent` tells whether it is. The request says what
    /// is due; an earlier one that was not answered is dropped.
    pub fn feed(&mut self, samples: &[T], silent: bool) -> (request: Request)
        requires
            old(self)@.valid(),
            old(self)@.has_room(samples@.len() as int),
        ensures
            final(self)@ == old(self)@.after_feed(samples@, silent),
            final(self)@.valid(),
            request == final(self)@.request,
    {
        self.buffer.append(samples, self.max_buffer);
        let n: u64 = samples.len() as u64;
        self.total = self.total + n;
        match self.lock {
            None => {
                self.buffer.trim(IDLE_WINDOW_SAMPLES);
                if self.total - self.last_scan >= self.scan_interval as u64 && self.buffer.len()
                    >= MIN_BUFFER_FOR_SCAN {
                    self.last_scan = self.total;
                    self.request = Request::Scan;
                } else {
                    self.request = Request::Nothing;
                }
            },
            Some(l) => {
                let silence: u64 = if silent {
                    l.silence + n
                } else {
                    0
                };
                let feeds: usize = l.feeds + 1;
                let ending: bool = silence >= SILENCE_TIMEOUT_SAMPLES || self.total
                    - l.preamble_offset >= SESSION_TIMEOUT_SAMPLES;
                self.lock = Some(Lock { silence, feeds, ..l });
                self.request = if ending || feeds % self.retry_every == 0 {
                    Request::Decode { ending }
                } else {
                    Request::Nothing
                };
            },
        }
        assert(self@ =~= old(self)@.after_feed(samples@, silent));
        self.request
    }

    /// The audio to scan.
    pub fn audio(&self) -> (out: Vec<T>)
        ensures
            out@ == self@.buffer,
    {
        let out = self.buffer.slice_from(0);
        assert(self.buffer@.skip(0) =~= self.buffer@);
        out
    }

    /// Answer a scan: the profile and place of the preamble, if there is one.
    pub fn scanned<S>(&mut self, found: Option<(ProfileIndex, usize)>) -> (events: Vec<
        StreamEvent<S>,
    >)
        requires
            old(self)@.valid(),
            old(self)@.request is Scan,
            found matches Some((_, at)) ==> at <= old(self)@.buffer.len(),
        ensures
            final(self)@ == old(self)@.after_scan(found),
            final(self)@.valid(),
            found matches Some((_, at)) ==> final(self)@.transmission() == old(
                self,
            )@.buffer.skip(at as int),
            views(events@) == old(self)@.events_of_scan::<S>(found),
    {
        let mut events: Vec<StreamEvent<S>> = Vec::new();
        assert(views(events@) =~= Seq::empty());
        self.request = Request::Nothing;
        match found {
            Some((profile, at)) => {
                let start: u64 = self.total - self.buffer.len() as u64;
                self.lock = Some(
                    Lock {
                        profile,
                        preamble_offset: start + at as u64,
                        payload_length: None,
                        silence: 0,
                        feeds: 0,
                    },
                );
                push_event(&mut events, StreamEvent::PreambleDetected { profile });
            },
            None => {},
        }
        assert(self@ =~= old(self)@.after_scan(found));
        events
    }

    /// The profile and the audio to decode, from the preamble on.
    pub fn to_decode(&self) -> (task: Option<(ProfileIndex, Vec<T>)>)
        requires
            self@.valid(),
        ensures
            task is Some <==> self@.lock is Some,
            task matches Some((profile, audio)) ==> profile == self@.lock->0.profile && audio@
                == self@.transmission(),
    {
        match self.lock {
            Some(l) => {
                let start: u64 = self.total - self.buffer.len() as u64;
                let at: u64 = if l.preamble_offset >= start {
                    l.preamble_offset - start
                } else {
                    0
                };
                Some((l.profile, self.buffer.slice_from(at as usize)))
            },
            None => None,
        }
    }

    /// Answer a decode. `first` was made with the locked profile, and `second` with
    /// the one that `retry_profile` names, where it does.
    pub fn decoded<S: Copy>(
        &mut self,
        first: Option<DecodeResult<S>>,
        second: Option<DecodeResult<S>>,
    ) -> (events: Vec<StreamEvent<S>>)
        requires
            old(self)@.valid(),
            old(self)@.request is Decode,
        ensures
            final(self)@ == old(self)@.after_decode(first, second),
            final(self)@.valid(),
            views(events@) == old(self)@.events_of_decode(first, second),
    {
        let ending: bool = match self.request {
            Request::Decode { ending } => ending,
            _ => false,
        };
        let mut events: Vec<StreamEvent<S>> = Vec::new();
        assert(views(events@) =~= Seq::<EventView<S>>::empty());
        self.request = Request::Nothing;
        match self.lock {
            None => {},
            Some(l) => {
                match first {
                    None => {
                        if ending {
                            push_event(&mut events, StreamEvent::SessionEnd);
                            self.reset();
                        }
                    },
                    Some(r) => {
                        let retry = retry_profile(&r.header, l.profile);
                        let (result, used) = match retry {
                            Some(p) => match second {
                                Some(r2) => (r2, p),
                                None => (r, l.profile),
                            },
                            None => (r, l.profile),
                        };
                        events = report_decode(&result, used, ending);
                        let complete: bool = result.total_blocks > 0 && result.converged_blocks
                            == result.total_blocks && payload_matches(
                            &result.app_header,
                            &result.data,
                        );
                        if complete || ending {
                            self.reset();
                        } else {
                            let profile = match retry {
                                Some(p) => p,
                                None => l.profile,
                            };
                            let payload_length = match result.header {
                                Some(h) => Some(h.payload_length),
                                None => l.payload_length,
                            };
                            self.lock = Some(Lock { profile, payload_length, ..l });
                        }
                    },
                }
            },
        }
        assert(self@ =~= old(self)@.after_decode(first, second));
        assert(views(events@) =~= old(self)@.events_of_decode(first, second));
        events
    }

    /// Number of samples ever fed.
    pub fn total_samples_fed(&self) -> (n: u64)
        ensures
            n == self@.total,
    {
        self.total
    }

    /// Whether a transmission is being received.
    pub fn is_locked(&self) -> (yes: bool)
        ensures
            yes == (self@.lock is Some),
    {
        self.lock.is_some()
    }
}

// ---------------------------------------------------------------------------
// Laws
// ---------------------------------------------------------------------------

/// An event says that the payload is there.
pub open spec fn is_file_complete<S>(e: EventView<S>) -> bool {
    e is FileComplete
}

/// No payload is reported whose hash is not that of the session header: a report
/// comes only of a decode whose codewords all converged and whose hash matches, and
/// then the receiver is waiting again.
pub proof fn law_reported_payload_matches_its_hash<T, S>(
    s: StreamState<T>,
    first: Option<DecodeResult<S>>,
    second: Option<DecodeResult<S>>,
    i: int,
)
    requires
        s.request is Decode,
        0 <= i < s.events_of_decode(first, second).len(),
        is_file_complete(s.events_of_decode(first, second)[i]),
    ensures
        s.chosen(first, second) matches Some((r, _)) && is_complete(r),
        s.after_decode(first, second).lock is None,
{
}

/// The end of a transmission is reported exactly when the receiver goes back to
/// waiting, and it is reported last.
pub proof fn law_session_end_means_waiting<T, S>(
    s: StreamState<T>,
    first: Option<DecodeResult<S>>,
    second: Option<DecodeResult<S>>,
)
    requires
        s.valid(),
        s.request is Decode,
    ensures
        ({
            let events = s.events_of_decode(first, second);
            s.after_decode(first, second).lock is None <==> events.len() > 0 && events.last()
                is SessionEnd
        }),
{
    let events = s.events_of_decode(first, second);
    match s.chosen(first, second) {
        Some((r, used)) => {
            if !is_complete(r) && !s.request->ending {
                assert(events.last() is ProgressUpdate);
            }
        },
        None => {},
    }
}

/// A transmission does not stay locked for ever: once the silence or the session
/// limit is reached, whatever the decode gives, the receiver waits again.
pub proof fn law_ended_transmission_is_let_go<T, S>(
    s: StreamState<T>,
    samples: Seq<T>,
    silent: bool,
    first: Option<DecodeResult<S>>,
    second: Option<DecodeResult<S>>,
)
    requires
        s.valid(),
        s.has_room(samples.len() as int),
        s.lock matches Some(l) && (s.total + samples.len() - l.preamble_offset
            >= SESSION_TIMEOUT_SAMPLES || silent && l.silence + samples.len()
            >= SILENCE_TIMEOUT_SAMPLES),
    ensures
        s.after_feed(samples, silent).request == (Request::Decode { ending: true }),
        s.after_feed(samples, silent).after_decode(first, second).lock is None,
{
}

/// What the events of a chunk say of each other and of the receiver.
pub open spec fn in_order<S>(events: Seq<EventView<S>>, was_locked: bool, locked: bool) -> bool {
    // A preamble is reported alone, when the receiver locks.
    &&& forall|i: int|
        0 <= i < events.len() && (#[trigger] events[i]) is PreambleDetected ==> events.len() == 1
            && !was_locked && locked
    // The end comes last, when the receiver lets go.
    &&& forall|i: int|
        0 <= i < events.len() && (#[trigger] events[i]) is SessionEnd ==> i == events.len() - 1
            && !locked
    // A file stands between the envelope with its names and the end.
    &&& forall|i: int|
        0 <= i < events.len() && (#[trigger] events[i]) is FileComplete ==> {
            &&& 1 <= i < events.len() - 1
            &&& events[i] matches EventView::FileComplete { filename, callsign, .. } && events[i
                - 1] == (EventView::<S>::EnvelopeDecoded { filename, callsign })
            &&& events[i + 1] is SessionEnd
        }
    // Nothing else locks the receiver or lets it go.
    &&& (forall|i: int|
        0 <= i < events.len() ==> !((#[trigger] events[i]) is PreambleDetected)
            && !(events[i] is SessionEnd)) ==> locked == was_locked
}

/// One chunk, whatever the scan or the decode that it makes due gives: the samples are
/// counted, and the events come in order and go with the lock.
pub proof fn law_events_of_a_chunk_are_in_order<T, S>(
    s: StreamState<T>,
    samples: Seq<T>,
    silent: bool,
    found: Option<(ProfileIndex, usize)>,
    first: Option<DecodeResult<S>>,
    second: Option<DecodeResult<S>>,
)
    requires
        s.valid(),
        s.has_room(samples.len() as int),
    ensures
        ({
            let after = s.after_chunk(samples, silent, found, first, second);
            let events = s.events_of_chunk(samples, silent, found, first, second);
            &&& after.total == s.total + samples.len()
            &&& in_order(events, s.lock is Some, after.lock is Some)
        }),
{
    let fed = s.after_feed(samples, silent);
    let after = s.after_chunk(samples, silent, found, first, second);
    let events = s.events_of_chunk(samples, silent, found, first, second);
    match fed.request {
        Request::Nothing => {},
        Request::Scan => {
            if found is Some {
                assert(events[0] is PreambleDetected);
            }
        },
        Request::Decode { ending } => {
            if after.lock is None {
                law_session_end_means_waiting(fed, first, second);
                assert(events[events.len() - 1] is SessionEnd);
            }
        },
    }
}

// ---------------------------------------------------------------------------
// Laws on the audio of a transmission
// ---------------------------------------------------------------------------

/// The audio of a transmission is `audio`, counted from its preamble: it is what the
/// receiver keeps from the preamble on, and all that was fed since.
pub open spec fn transmission_is<T>(s: StreamState<T>, audio: Seq<T>) -> bool {
    &&& s.transmission() == audio
    &&& s.preamble_at() + audio.len() == s.buffer.len()
    &&& s.lock matches Some(l) && l.preamble_offset + audio.len() == s.total
}

/// A transmission begins at its preamble: after a scan that found one at place `at` of the
/// audio, the audio to decode is the audio that was scanned, from `at` on.
pub proof fn law_transmission_begins_at_the_preamble<T>(
    s: StreamState<T>,
    profile: ProfileIndex,
    at: usize,
)
    requires
        s.valid(),
        at <= s.buffer.len(),
    ensures
        ({
            let t = s.after_scan(Some((profile, at)));
            &&& t.lock matches Some(l) && l.profile == profile
            &&& t.transmission() == s.buffer.skip(at as int)
            &&& transmission_is(t, s.buffer.skip(at as int))
        }),
{
}

/// The audio of a transmission grows by every chunk, and nothing of it is lost as long as
/// the receiver may keep that much.
pub proof fn law_transmission_grows_by_each_chunk<T>(
    s: StreamState<T>,
    audio: Seq<T>,
    samples: Seq<T>,
    silent: bool,
)
    requires
        s.valid(),
        s.has_room(samples.len() as int),
        transmission_is(s, audio),
        audio.len() + samples.len() <= s.max_buffer,
    ensures
        ({
            let t = s.after_feed(samples, silent);
            &&& t.transmission() == audio + samples
            &&& transmission_is(t, audio + samples)
        }),
{
    let t = s.after_feed(samples, silent);
    assert(t.buffer.skip(t.preamble_at()) =~= audio + samples) by {
        assert forall|i: int| 0 <= i < audio.len() implies t.buffer.skip(t.preamble_at())[i]
            == audio[i] by {
            assert(s.buffer.skip(s.preamble_at())[i] == audio[i]);
        }
    }
}

/// A decode leaves the audio of a transmission alone, unless it ends the transmission.
pub proof fn law_transmission_is_kept<T, S>(
    s: StreamState<T>,
    audio: Seq<T>,
    first: Option<DecodeResult<S>>,
    second: Option<DecodeResult<S>>,
)
    requires
        s.valid(),
        s.request is Decode,
        transmission_is(s, audio),
    ensures
        ({
            let t = s.after_decode(first, second);
            t.lock is None || transmission_is(t, audio)
        }),
{
}

/// A transmission is over after one and a half seconds of silence on end or after 25
/// minutes, and not before: then, and only then, a decode is asked for that ends it.
pub proof fn law_transmission_ends_in_time<T>(
    s: StreamState<T>,
    audio: Seq<T>,
    samples: Seq<T>,
    silent: bool,
)
    requires
        s.valid(),
        s.has_room(samples.len() as int),
        transmission_is(s, audio),
    ensures
        ({
            let t = s.after_feed(samples, silent);
            let quiet = if silent {
                s.lock->0.silence + samples.len()
            } else {
                0
            };
            t.request == (Request::Decode { ending: true }) <==> 2 * quiet >= 3 * 48_000
                || audio.len() + samples.len() >= 25 * 60 * 48_000
        }),
{
}

/// A receiver without a lock keeps the last three seconds of audio, and asks for a scan once
/// its interval has gone by since the last one and it has a second of audio.
pub proof fn law_waiting_receiver_scans_at_its_interval<T>(
    s: StreamState<T>,
    samples: Seq<T>,
    silent: bool,
    i: int,
)
    requires
        s.lock is None,
        s.max_buffer >= 3 * 48_000,
    ensures
        ({
            let all = s.buffer + samples;
            let t = s.after_feed(samples, silent);
            let kept = t.buffer.len();
            &&& t.lock is None
            &&& kept == if all.len() <= 3 * 48_000 {
                all.len()
            } else {
                3 * 48_000
            }
            &&& 0 <= i < kept ==> t.buffer[i] == all[all.len() - kept + i]
            &&& t.request is Scan <==> t.total - s.last_scan >= s.scan_interval && kept >= 48_000
            &&& t.request is Scan ==> t.last_scan == t.total
            &&& !(t.request is Scan) ==> t.request is Nothing && t.last_scan == s.last_scan
        }),
{
}

/// A transmission under way is decoded again every so many chunks, and in between nothing is
/// asked for.
pub proof fn law_transmission_is_decoded_at_intervals<T>(
    s: StreamState<T>,
    audio: Seq<T>,
    samples: Seq<T>,
    silent: bool,
    k: int,
)
    requires
        s.valid(),
        s.has_room(samples.len() as int),
        transmission_is(s, audio),
        audio.len() + samples.len() < 25 * 60 * 48_000,
        !silent || 2 * (s.lock->0.silence + samples.len()) < 3 * 48_000,
    ensures
        ({
            let t = s.after_feed(samples, silent);
            let chunks = s.lock->0.feeds + 1;
            &&& t.lock->0.feeds == chunks
            &&& chunks == k * s.retry_every ==> t.request == (Request::Decode { ending: false })
            &&& k * s.retry_every < chunks < (k + 1) * s.retry_every ==> t.request is Nothing
        }),
{
    let chunks = s.lock->0.feeds + 1;
    let every = s.retry_every;
    if chunks == k * every {
        vstd::arithmetic::div_mod::lemma_fundamental_div_mod_converse(chunks, every, k, 0);
    }
    if k * every < chunks < (k + 1) * every {
        assert((k + 1) * every == k * every + every) by (nonlinear_arith);
        vstd::arithmetic::div_mod::lemma_fundamental_div_mod_converse(
            chunks,
            every,
            k,
            chunks - k * every,
        );
    }
}

/// A second decode counts where the header of the first names another profile than the one
/// that it was made with; otherwise the first does.
pub proof fn law_second_decode_counts_where_the_profile_was_wrong<T, S>(
    s: StreamState<T>,
    first: DecodeResult<S>,
    second: DecodeResult<S>,
    named: ProfileIndex,
)
    requires
        s.lock is Some,
        first.header matches Some(h) && h.profile_index == named.spec_as_u8(),
    ensures
        s.chosen(Some(first), Some(second)) == if named == s.lock->0.profile {
            Some((first, named))
        } else {
            Some((second, named))
        },
        s.chosen(Some(first), None) == Some((first, s.lock->0.profile)),
        s.chosen(None, Some(second)) is None,
{
    crate::profile::law_profile_byte_round_trip(named, named.spec_as_u8());
}

/// A payload is reported exactly where every codeword converged and its hash is that of the
/// session header. What is reported is the content of its envelope, behind its names and
/// before the end.
pub proof fn law_complete_payload_is_reported<S>(
    r: DecodeResult<S>,
    used: ProfileIndex,
    ending: bool,
    env: PayloadEnvelope,
    i: int,
)
    requires
        env.fits(),
        env.version == 1,
        r.data@ == env.spec_bytes(),
        0 <= i < decode_events(r, used, ending).len(),
    ensures
        ({
            let events = decode_events(r, used, ending);
            let n = events.len();
            let done = r.total_blocks > 0 && r.converged_blocks == r.total_blocks && (r.app_header
                matches Some(a) && app_header::content_hash(env.spec_bytes()) == a.hash_short);
            &&& events[i] is FileComplete ==> done && i == n - 2
            &&& events[i] is EnvelopeDecoded ==> done && i == n - 3
            &&& events[i] is SessionEnd ==> i == n - 1
            &&& events[n - 1] is SessionEnd <==> done || ending
            &&& done ==> {
                &&& n >= 3
                &&& events[n - 3] == (EventView::<S>::EnvelopeDecoded {
                    filename: env.filename@,
                    callsign: env.callsign@,
                })
                &&& events[n - 2] == (EventView::<S>::FileComplete {
                    filename: env.filename@,
                    callsign: env.callsign@,
                    mime_type: r.app_header->0.mime_type,
                    content: env.content@,
                    sigma2: r.sigma2,
                })
            }
        }),
{
    payload_envelope::lemma_written_envelope_is_read(env);
}

/// A decode reports its header with the profile that the header names, its session header
/// and how far it came, in this order.
pub proof fn law_decode_is_reported_in_order<S>(
    r: DecodeResult<S>,
    used: ProfileIndex,
    ending: bool,
    named: ProfileIndex,
)
    requires
        r.header matches Some(h) && h.profile_index == named.spec_as_u8(),
        r.app_header is Some,
    ensures
        ({
            let events = decode_events(r, used, ending);
            let (h, a) = (r.header->0, r.app_header->0);
            &&& events.len() >= 3
            &&& events[0] == (EventView::<S>::HeaderDecoded {
                profile: named,
                mode_code: h.mode_code,
                payload_length: h.payload_length,
            })
            &&& events[1] == (EventView::<S>::AppHeaderDecoded {
                session_id: a.session_id,
                file_size: a.file_size,
                mime_type: a.mime_type,
                hash_short: a.hash_short,
            })
            &&& events[2] == (EventView::<S>::ProgressUpdate {
                blocks_converged: r.converged_blocks,
                blocks_total: r.total_blocks,
                sigma2: r.sigma2,
            })
        }),
{
    crate::profile::law_profile_byte_round_trip(named, named.spec_as_u8());
}

/// A scan that finds a preamble is reported with its profile.
pub proof fn law_found_preamble_is_reported<T, S>(
    s: StreamState<T>,
    profile: ProfileIndex,
    at: usize,
)
    ensures
        s.events_of_scan::<S>(Some((profile, at))) == seq![
            EventView::<S>::PreambleDetected { profile },
        ],
        s.events_of_scan::<S>(None).len() == 0,
{
}

/// A header that names no profile is reported with the profile that decoded it, and calls
/// for no second decode.
pub proof fn law_unnamed_profile_is_the_one_used<T, S>(
    s: StreamState<T>,
    r: DecodeResult<S>,
    second: Option<DecodeResult<S>>,
    used: ProfileIndex,
    ending: bool,
)
    requires
        s.lock is Some,
        r.header matches Some(h) && h.profile_index >= 10,
    ensures
        s.chosen(Some(r), second) == Some((r, s.lock->0.profile)),
        decode_events(r, used, ending)[0] == (EventView::<S>::HeaderDecoded {
            profile: used,
            mode_code: r.header->0.mode_code,
            payload_length: r.header->0.payload_length,
        }),
{
}

/// While a transmission goes on, its lock takes over the profile that the header of a decode
/// names and the length of its payload, and keeps its preamble.
pub proof fn law_lock_follows_the_header<T, S>(
    s: StreamState<T>,
    r: DecodeResult<S>,
    named: ProfileIndex,
)
    requires
        s.request == (Request::Decode { ending: false }),
        s.lock is Some,
        r.header matches Some(h) && h.profile_index == named.spec_as_u8(),
        r.converged_blocks < r.total_blocks,
    ensures
        ({
            let t = s.after_decode(Some(r), Some(r));
            &&& t.lock is Some
            &&& t.lock->0.profile == named
            &&& t.lock->0.payload_length == Some(r.header->0.payload_length)
            &&& t.lock->0.preamble_offset == s.lock->0.preamble_offset
            &&& t.lock->0.silence == s.lock->0.silence
            &&& t.lock->0.feeds == s.lock->0.feeds
            &&& t.buffer == s.buffer
            &&& t.request is Nothing
        }),
{
    crate::profile::law_profile_byte_round_trip(named, named.spec_as_u8());
}

/// Behind the end of a transmission the receiver starts over: without audio and lock, and
/// with a scan no sooner than its interval.
pub proof fn law_receiver_starts_over<T, S>(
    s: StreamState<T>,
    first: Option<DecodeResult<S>>,
    second: Option<DecodeResult<S>>,
)
    requires
        s.request is Decode,
        s.after_decode(first, second).lock is None,
        s.lock is Some,
    ensures
        ({
            let t = s.after_decode(first, second);
            &&& t.buffer.len() == 0
            &&& t.last_scan == s.total
            &&& t.total == s.total
            &&& t.request is Nothing
            &&& t.max_buffer == s.max_buffer
            &&& t.scan_interval == s.scan_interval
            &&& t.retry_every == s.retry_every
        }),
{
}

// ---------------------------------------------------------------------------
// Laws on parts
// ---------------------------------------------------------------------------

/// A buffer keeps the latest samples: as many as it may, in their order, up to the newest.
pub proof fn law_latest_samples_are_kept<T>(s: Seq<T>, n: int, i: int)
    requires
        n >= 0,
    ensures
        last_of(s, n).len() == if s.len() <= n {
            s.len() as int
        } else {
            n
        },
        0 <= i < last_of(s, n).len() ==> last_of(s, n)[last_of(s, n).len() - 1 - i] == s[s.len() - 1
            - i],
{
}

/// A decode is made again with the profile that the header names, unless it was made with
/// that already or the header names none.
pub proof fn law_retry_is_with_the_named_profile(h: Header, used: ProfileIndex, named: ProfileIndex)
    ensures
        h.profile_index == named.spec_as_u8() ==> other_profile(Some(h), used) == if named == used {
            None
        } else {
            Some(named)
        },
        h.profile_index >= 10 ==> other_profile(Some(h), used) is None,
        other_profile(None, used) is None,
{
    crate::profile::law_profile_byte_round_trip(named, h.profile_index);
}

/// A payload is taken for that of a session where its hash is the one in the header.
pub proof fn law_payload_is_known_by_its_hash(a: AppHeader, data: Seq<u8>)
    ensures
        hash_matches(Some(a), data) <==> app_header::content_hash(data) == a.hash_short,
        !hash_matches(None, data),
{
}

/// A receiver starts without audio and lock.
pub proof fn law_receiver_starts_empty<T>(max_buffer: int, scan_interval: int, retry_every: int)
    ensures
        ({
            let s = StreamState::<T>::start(max_buffer, scan_interval, retry_every);
            &&& s.total == 0 && s.last_scan == 0
            &&& s.buffer.len() == 0
            &&& s.lock is None && s.request is Nothing
            &&& s.max_buffer == max_buffer
            &&& s.scan_interval == scan_interval
            &&& s.retry_every == retry_every
        }),
{
}

/// A transmission whose preamble has left the buffer is all that the buffer still holds.
pub proof fn law_overlong_transmission_keeps_what_is_left<T>(s: StreamState<T>)
    requires
        s.valid(),
        s.lock matches Some(l) && l.preamble_offset + s.buffer.len() <= s.total,
    ensures
        s.transmission() == s.buffer,
{
    assert(s.buffer.skip(0) =~= s.buffer);
}

} // verus!
