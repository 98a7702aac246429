use modem_core::app_header::{fnv1a_u16, AppHeader};
use modem_core::header::Header;
use modem_core::marker::MarkerPayload;
use modem_core::payload_envelope::PayloadEnvelope;
use modem_core::profile::ProfileIndex;
use modem_core::rx_stream::{
    pick_candidate, retry_profile, Candidate, DecodeResult, Request, SampleBuffer, StreamEvent,
    StreamReceiver,
};
use modem_core::rx_stream_v2::{
    expected_data_blocks, finalise_events_from_result, header_trial_order,
    resolve_authoritative_profile, sidelobe_positions, DecoderReport, FinaliseOutcome, MarkerScan,
    RequestV2, SessionEndReason, StreamEventV2, StreamReceiverV2,
};

const SECOND: usize = 48_000;

fn header(profile: ProfileIndex) -> Header {
    Header {
        version: 3,
        mode_code: profile.to_config().mode_code(),
        frame_counter: 0,
        payload_length: 300,
        flags: 0,
        freq_offset: 0,
        profile_index: profile.as_u8(),
    }
}

fn wire() -> Vec<u8> {
    PayloadEnvelope::new("test.bin", "HB9TST", vec![1, 2, 3]).unwrap().encode()
}

fn app_header(data: &[u8]) -> AppHeader {
    AppHeader {
        session_id: 0xBEEF_CAFE,
        file_size: data.len() as u32,
        k_symbols: 4,
        t_bytes: 144,
        mode_code: 0,
        mime_type: 2,
        hash_short: fnv1a_u16(data),
    }
}

fn decode_result(profile: ProfileIndex, converged: usize, damaged: bool) -> DecodeResult<f64> {
    let mut data = wire();
    let ah = app_header(&data);
    if damaged {
        data[4] ^= 1;
    }
    DecodeResult {
        header: Some(header(profile)),
        app_header: Some(ah),
        converged_blocks: converged,
        total_blocks: 5,
        sigma2: 0.25,
        data,
    }
}

// --- buffers and candidates --------------------------------------------------

#[test]
fn buffer_keeps_the_latest_samples() {
    let mut b: SampleBuffer<f32> = SampleBuffer::new();
    b.append(&[1.0, 2.0, 3.0], 4);
    b.append(&[4.0, 5.0, 6.0], 4);
    assert_eq!(b.slice_from(0), vec![3.0, 4.0, 5.0, 6.0]);
    assert_eq!(b.slice_from(3), vec![6.0]);
    b.trim(2);
    assert_eq!(b.slice_from(0), vec![5.0, 6.0]);
    b.clear();
    assert_eq!(b.len(), 0);
}

#[test]
fn best_candidate_must_be_above_the_threshold() {
    let c = |profile, position, score| Candidate { profile, position, score };
    let found =
        vec![c(ProfileIndex::Ultra, 1, 5), c(ProfileIndex::Normal, 2, 9), c(ProfileIndex::High, 3, 9)];
    assert_eq!(pick_candidate(&found, 8), Some((ProfileIndex::Normal, 2)));
    assert_eq!(pick_candidate(&found, 9), None);
    assert_eq!(pick_candidate(&vec![], 0), None);
}

#[test]
fn retry_goes_by_the_header() {
    assert_eq!(
        retry_profile(&Some(header(ProfileIndex::High)), ProfileIndex::Normal),
        Some(ProfileIndex::High)
    );
    assert_eq!(retry_profile(&Some(header(ProfileIndex::High)), ProfileIndex::High), None);
    assert_eq!(retry_profile(&None, ProfileIndex::High), None);
}

// --- first receiver ------------------------------------------------------------

fn locked() -> StreamReceiver<f32> {
    let mut rx = StreamReceiver::default_live();
    assert_eq!(rx.feed(&vec![0.1; SECOND], false), Request::Scan);
    assert_eq!(rx.audio().len(), SECOND);
    let events: Vec<StreamEvent<f64>> = rx.scanned(Some((ProfileIndex::Normal, 1000)));
    assert!(matches!(events[0], StreamEvent::PreambleDetected { profile: ProfileIndex::Normal }));
    assert!(rx.is_locked());
    rx
}

#[test]
fn receiver_scans_once_a_second_and_keeps_three() {
    let mut rx: StreamReceiver<f32> = StreamReceiver::default_live();
    assert_eq!(rx.feed(&vec![0.0; SECOND / 2], true), Request::Nothing);
    assert_eq!(rx.feed(&vec![0.0; SECOND / 2], true), Request::Scan);
    let events: Vec<StreamEvent<f64>> = rx.scanned(None);
    assert!(events.is_empty());
    for _ in 0..9 {
        rx.feed(&vec![0.0; SECOND / 2], true);
    }
    assert_eq!(rx.audio().len(), 3 * SECOND);
    assert_eq!(rx.total_samples_fed(), 11 * SECOND as u64 / 2);
    assert!(!rx.is_locked());
}

#[test]
fn silence_ends_a_transmission_with_its_file() {
    let mut rx = locked();
    assert_eq!(rx.feed(&vec![0.1; SECOND], false), Request::Nothing);
    assert_eq!(rx.feed(&vec![0.0; SECOND], true), Request::Nothing);
    assert_eq!(rx.feed(&vec![0.0; SECOND], true), Request::Decode { ending: true });
    let (profile, audio) = rx.to_decode().unwrap();
    assert_eq!(profile, ProfileIndex::Normal);
    assert_eq!(audio.len(), 4 * SECOND - 1000);
    let events = rx.decoded(Some(decode_result(ProfileIndex::Normal, 5, false)), None);
    assert_eq!(events.len(), 6);
    assert!(matches!(
        events[0],
        StreamEvent::HeaderDecoded { profile: ProfileIndex::Normal, payload_length: 300, .. }
    ));
    assert!(matches!(events[1], StreamEvent::AppHeaderDecoded { session_id: 0xBEEF_CAFE, .. }));
    assert!(matches!(
        events[2],
        StreamEvent::ProgressUpdate { blocks_converged: 5, blocks_total: 5, .. }
    ));
    match &events[3] {
        StreamEvent::EnvelopeDecoded { filename, callsign } => {
            assert_eq!(filename, "test.bin");
            assert_eq!(callsign, "HB9TST");
        }
        other => panic!("unexpected event {other:?}"),
    }
    match &events[4] {
        StreamEvent::FileComplete { content, mime_type, sigma2, .. } => {
            assert_eq!(content, &vec![1, 2, 3]);
            assert_eq!(*mime_type, 2);
            assert_eq!(*sigma2, 0.25);
        }
        other => panic!("unexpected event {other:?}"),
    }
    assert!(matches!(events[5], StreamEvent::SessionEnd));
    assert!(!rx.is_locked());
    assert!(rx.audio().is_empty());
}

#[test]
fn damaged_payload_is_never_reported_complete() {
    let mut rx = locked();
    rx.feed(&vec![0.0; 2 * SECOND], true);
    let events = rx.decoded(Some(decode_result(ProfileIndex::Normal, 5, true)), None);
    assert!(!events.iter().any(|e| matches!(e, StreamEvent::FileComplete { .. })));
    assert!(matches!(events.last(), Some(StreamEvent::SessionEnd)));
    assert!(!rx.is_locked());
}

#[test]
fn header_names_the_right_profile() {
    let mut rx = locked();
    rx.feed(&vec![0.0; 2 * SECOND], true);
    let first = decode_result(ProfileIndex::High, 0, false);
    let second = decode_result(ProfileIndex::High, 5, false);
    let events = rx.decoded(Some(first), Some(second));
    assert!(matches!(
        events[0],
        StreamEvent::HeaderDecoded { profile: ProfileIndex::High, .. }
    ));
    assert!(events.iter().any(|e| matches!(e, StreamEvent::FileComplete { .. })));
}

#[test]
fn retries_go_on_until_the_payload_is_there() {
    let mut rx: StreamReceiver<f32> = StreamReceiver::new(10 * SECOND, SECOND);
    rx.feed(&vec![0.1; SECOND], false);
    let _: Vec<StreamEvent<f64>> = rx.scanned(Some((ProfileIndex::Normal, 0)));
    for _ in 0..4 {
        assert_eq!(rx.feed(&[0.1; 10], false), Request::Nothing);
    }
    assert_eq!(rx.feed(&[0.1; 10], false), Request::Decode { ending: false });
    let events: Vec<StreamEvent<f64>> = rx.decoded(None, None);
    assert!(events.is_empty());
    assert!(rx.is_locked());
    rx.reset();
    assert!(!rx.is_locked());
}

// --- second receiver -----------------------------------------------------------

type Event = StreamEventV2<f64, [f32; 2]>;

fn report(markers: Vec<MarkerPayload>, complete: bool, damaged: bool) -> DecoderReport<f64, [f32; 2]> {
    let mut data = wire();
    let ah = app_header(&data);
    if damaged {
        data[4] ^= 1;
    }
    DecoderReport {
        markers,
        app_header: Some(ah),
        data_blocks_recovered: if complete { 3 } else { 1 },
        expected_data_blocks: 3,
        total_blocks: 4,
        sigma2: 0.5,
        converged_bitmap: vec![7],
        constellation_sample: vec![[1.0, 0.0]],
        all_data_present: complete,
        assembled: if complete { Some(data) } else { None },
    }
}

fn marker(seg_id: u16) -> MarkerPayload {
    MarkerPayload { seg_id, session_id_low: 1, base_esi: 2 * seg_id as u32, flags: 0 }
}

fn training() -> StreamReceiverV2<f32> {
    let mut rx = StreamReceiverV2::new();
    let _: Vec<Event> = rx.feed(&vec![0.1; SECOND], false);
    assert_eq!(rx.request(), RequestV2::Scan);
    let events: Vec<Event> = rx.scanned(Some((ProfileIndex::Normal, 20_000)));
    assert!(matches!(events[0], StreamEventV2::PreambleDetected { .. }));
    assert!(rx.is_locked());
    rx
}

fn streaming() -> StreamReceiverV2<f32> {
    let mut rx = training();
    let _: Vec<Event> = rx.feed(&[0.1; 480], false);
    assert_eq!(rx.request(), RequestV2::ReadHeader { try_all: true });
    assert_eq!(rx.session_audio().len(), 28_480);
    assert_eq!(rx.header_profiles().len(), 10);
    let events: Vec<Event> =
        rx.header_read(Some((ProfileIndex::Normal, header(ProfileIndex::Normal))));
    assert!(matches!(
        events[0],
        StreamEventV2::HeaderDecoded { profile: ProfileIndex::Normal, .. }
    ));
    assert_eq!(rx.decoding(), Some(ProfileIndex::Normal));
    rx
}

#[test]
fn payload_at_a_pause_completes_the_session() {
    let mut rx = streaming();
    let _: Vec<Event> = rx.feed(&vec![0.0; SECOND / 2], true);
    assert_eq!(rx.request(), RequestV2::Report);
    let events = rx.reported(report(vec![marker(0), marker(0), marker(1)], true, false));
    let synced = events
        .iter()
        .filter(|e| matches!(e, StreamEventV2::MarkerSynced { .. }))
        .count();
    assert_eq!(synced, 2);
    let app = events
        .iter()
        .position(|e| matches!(e, StreamEventV2::AppHeaderDecoded { .. }))
        .unwrap();
    let complete = events
        .iter()
        .position(|e| matches!(e, StreamEventV2::FileComplete { .. }))
        .unwrap();
    assert!(app < complete);
    assert!(matches!(
        events.last(),
        Some(StreamEventV2::SessionEnd { reason: SessionEndReason::Completed })
    ));
    assert!(!rx.is_locked());
    assert_eq!(rx.decoding(), None);
}

#[test]
fn payload_may_complete_before_a_pause() {
    let mut rx = streaming();
    let _: Vec<Event> = rx.feed(&vec![0.1; 3 * SECOND], false);
    let events = rx.reported(report(vec![], true, false));
    assert!(events.iter().any(|e| matches!(e, StreamEventV2::ProgressUpdate { .. })));
    assert!(events.iter().any(|e| matches!(e, StreamEventV2::FileComplete { .. })));
    assert!(!rx.is_locked());
}

#[test]
fn gap_loses_and_regains_the_signal() {
    let mut rx = streaming();
    let _: Vec<Event> = rx.feed(&vec![0.0; SECOND], true);
    let events = rx.reported(report(vec![], false, false));
    assert!(matches!(events.last(), Some(StreamEventV2::SignalLost)));
    assert!(rx.is_locked());
    let events: Vec<Event> = rx.feed(&[0.1; 480], false);
    assert!(matches!(events[0], StreamEventV2::SignalReacquired));
    assert_eq!(rx.request(), RequestV2::Nothing);
    let _: Vec<Event> = rx.feed(&[0.1; 480], false);
    assert_eq!(rx.request(), RequestV2::Report);
}

#[test]
fn lost_signal_is_aborted_after_fifteen_seconds() {
    let mut rx = streaming();
    let _: Vec<Event> = rx.feed(&vec![0.0; SECOND], true);
    let _ = rx.reported(report(vec![], false, false));
    let _: Vec<Event> = rx.feed(&vec![0.0; 13 * SECOND], true);
    assert_eq!(rx.request(), RequestV2::Nothing);
    let _: Vec<Event> = rx.feed(&vec![0.0; SECOND], true);
    assert_eq!(rx.request(), RequestV2::Report);
    let events = rx.reported(report(vec![], true, true));
    assert!(!events.iter().any(|e| matches!(e, StreamEventV2::FileComplete { .. })));
    assert!(matches!(
        events.last(),
        Some(StreamEventV2::SessionEnd { reason: SessionEndReason::AbortTimeout })
    ));
    assert!(!rx.is_locked());
}

#[test]
fn progress_is_reported_when_it_changes() {
    let mut rx = streaming();
    let mut n = 0;
    for _ in 0..3 {
        let _: Vec<Event> = rx.feed(&vec![0.1; 3 * SECOND], false);
        let events = rx.reported(report(vec![], false, false));
        n += events
            .iter()
            .filter(|e| {
                matches!(
                    e,
                    StreamEventV2::ProgressUpdate {
                        blocks_converged: 1,
                        blocks_total: 4,
                        blocks_expected: 3,
                        ..
                    }
                )
            })
            .count();
    }
    assert_eq!(n, 1);
}

#[test]
fn false_lock_is_dropped_but_its_audio_kept() {
    let mut rx = training();
    for attempt in 0..4 {
        let _: Vec<Event> = rx.feed(&vec![0.1; SECOND / 10], false);
        if rx.request() == RequestV2::Nothing {
            let _: Vec<Event> = rx.feed(&vec![0.1; SECOND / 2], false);
        }
        assert_eq!(rx.request(), RequestV2::ReadHeader { try_all: attempt == 0 });
        let events: Vec<Event> = rx.header_read(None);
        assert_eq!(events.len(), if attempt == 3 { 1 } else { 0 });
    }
    assert!(!rx.is_locked());
    assert!(!rx.audio().is_empty());
    // The next scan is due at once.
    let _: Vec<Event> = rx.feed(&[0.1; 10], false);
    assert_eq!(rx.request(), RequestV2::Scan);
}

#[test]
fn enough_audio_without_a_header_is_a_false_lock() {
    let mut rx = training();
    let _: Vec<Event> = rx.feed(&vec![0.1; SECOND], false);
    let events: Vec<Event> = rx.header_read(None);
    assert!(matches!(
        events[0],
        StreamEventV2::SessionEnd { reason: SessionEndReason::AbortTimeout }
    ));
    assert!(!rx.is_locked());
}

#[test]
fn session_limit_ends_a_session() {
    let mut rx = streaming();
    let _: Vec<Event> = rx.feed(&vec![0.1; 25 * 60 * SECOND], false);
    let events = rx.reported(report(vec![], false, false));
    assert!(matches!(
        events.last(),
        Some(StreamEventV2::SessionEnd { reason: SessionEndReason::AbortTimeout })
    ));
}

#[test]
fn profile_byte_is_trusted_only_if_it_fits_the_mode() {
    let mut h = header(ProfileIndex::High);
    assert_eq!(resolve_authoritative_profile(&h, ProfileIndex::Normal), ProfileIndex::High);
    h.profile_index = ProfileIndex::Ultra.as_u8();
    assert_eq!(resolve_authoritative_profile(&h, ProfileIndex::High), ProfileIndex::High);
    let found = resolve_authoritative_profile(&h, ProfileIndex::Robust);
    assert_eq!(found.to_config().mode_code(), h.mode_code);
    h.mode_code = 0xFF;
    assert_eq!(resolve_authoritative_profile(&h, ProfileIndex::Robust), ProfileIndex::Robust);
}

#[test]
fn header_trials_begin_with_the_guess() {
    let order = header_trial_order(ProfileIndex::Normal);
    assert_eq!(order[0], ProfileIndex::Normal);
    assert_eq!(order[1], ProfileIndex::Ultra);
    assert_eq!(order[2], ProfileIndex::Robust);
    assert_eq!(order[3], ProfileIndex::High);
    assert_eq!(order.len(), 10);
}

#[test]
fn expected_blocks_known_values() {
    assert_eq!(expected_data_blocks(300, ProfileIndex::Normal), 3);
    assert_eq!(expected_data_blocks(288, ProfileIndex::Normal), 2);
    assert_eq!(expected_data_blocks(0, ProfileIndex::Normal), 0);
}

#[test]
fn outcome_goes_by_the_hash_alone() {
    let out: FinaliseOutcome<f64, u8> =
        finalise_events_from_result(decode_result(ProfileIndex::Normal, 4, false));
    match out {
        FinaliseOutcome::Clean(events) => assert_eq!(events.len(), 3),
        FinaliseOutcome::Partial(_) => panic!("payload is there"),
    }
    let out: FinaliseOutcome<f64, u8> =
        finalise_events_from_result(decode_result(ProfileIndex::Normal, 5, true));
    match out {
        FinaliseOutcome::Clean(_) => panic!("payload is damaged"),
        FinaliseOutcome::Partial(events) => assert_eq!(events.len(), 1),
    }
}

#[test]
fn sidelobes_known_values() {
    // Room on both sides.
    let places = sidelobe_positions(1000, 10, 5000).unwrap();
    assert_eq!(
        places,
        vec![920, 940, 960, 970, 980, 990, 1010, 1020, 1030, 1040, 1060, 1080]
    );
    // At the start only those behind, and too few where the signal is short.
    assert_eq!(sidelobe_positions(0, 10, 5000).unwrap().len(), 6);
    assert_eq!(sidelobe_positions(0, 10, 2590), None);
}

#[test]
fn latest_marker_wins() {
    let scan = MarkerScan::new(1000);
    assert_eq!(scan.next_search(), Some((0, 64)));
    let scan = scan.searched(Some((10, Some(marker(3)))));
    assert_eq!(scan.next_search(), Some((74, 64)));
    let scan = scan.searched(Some((80, None))).searched(None);
    assert_eq!(scan.latest, Some(marker(3)));
    assert_eq!(scan.cursor, 208);
    let scan = MarkerScan { cursor: 936, ..scan };
    assert_eq!(scan.next_search(), None);
}

#[test]
fn events_of_each_chunk_are_in_order() {
    let mut rx: StreamReceiver<f32> = StreamReceiver::new(20 * SECOND, SECOND);
    let chunk = vec![0.1f32; SECOND];
    for step in 0..14u64 {
        let was_locked = rx.is_locked();
        let events: Vec<StreamEvent<f64>> = match rx.feed(&chunk, false) {
            Request::Nothing => vec![],
            Request::Scan => rx.scanned(if step == 1 || step > 8 {
                Some((ProfileIndex::Normal, 0))
            } else {
                None
            }),
            Request::Decode { .. } => {
                rx.decoded(Some(decode_result(ProfileIndex::Normal, 5, false)), None)
            }
        };
        assert_eq!(rx.total_samples_fed(), (step + 1) * SECOND as u64);
        let found = events.iter().any(|e| matches!(e, StreamEvent::PreambleDetected { .. }));
        let ended = events.iter().any(|e| matches!(e, StreamEvent::SessionEnd));
        assert_eq!(found, !was_locked && rx.is_locked());
        assert_eq!(ended, was_locked && !rx.is_locked());
        assert_eq!(found, step == 1 || step == 9);
        assert_eq!(ended, step == 6);
        if ended {
            assert!(matches!(events.last(), Some(StreamEvent::SessionEnd)));
            let at = events.len() - 2;
            match (&events[at - 1], &events[at]) {
                (
                    StreamEvent::EnvelopeDecoded { filename: a, callsign: b },
                    StreamEvent::FileComplete { filename: c, callsign: d, .. },
                ) => assert_eq!((a, b), (c, d)),
                other => panic!("unexpected events {other:?}"),
            }
        }
    }
}
