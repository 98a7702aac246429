use modem_core::acquire::{last_lag, refine_span, segment_starts};
use modem_core::app_header::AppHeader;
use modem_core::equalizer::{
    equalizer_len, references, symbol_windows, symbols_available, training_positions,
    training_windows, window_start,
};
use modem_core::filter::{centred_span, convolution_span, fade_level, upsample};
use modem_core::gate::{choose_template, fft_len_for, next_pow2, probe_templates};
use modem_core::header::Header;
use modem_core::marker::{MarkerPayload, MARKER_LEN, META_FLAG_BIT};
use modem_core::pilot::{interleave_data_pilots, pilots_for_group};
use modem_core::preamble::PreambleFamily;
use modem_core::profile::{PilotPattern, ProfileIndex};
use modem_core::raptorq_codec::encode_packets_range;
use modem_core::rx::{collect_burst, find_pilot, plan_burst};
use modem_core::rx_v2::assemble::{assemble, check_header};
use modem_core::rx_v2::drift::{DriftSearch, SearchOptions, Trial};
use modem_core::rx_v2::perf::{PerfBreakdown, PerfStage};
use modem_core::rx_v2::profile_choice::{candidates, detect_best_profile, SCORE_ONE};
use modem_core::rx_v2::scatter::{add_points, MAX_POINTS};
use modem_core::rx_v2::tally::Tally;
use modem_core::rx_v2::timing::{correlation_span, FoundMarker, TimingScan};
use modem_core::rx_v2::walk::{DecodedWord, Layout, Walk};
use modem_core::rx_v2::window::{
    fresh_positions, position_cap, Capture, Pass, Sweep, SweepOptions, WindowResult, WindowTask,
};
use modem_core::symbol::Symbol;
use modem_core::tracking::{
    neighbours, pilot_at, pilot_centres, pilot_starts, surroundings, Surroundings,
};
use std::collections::HashMap;

fn tally(decoded: usize, lost: usize, total: usize, converged: usize, data: usize) -> Tally {
    Tally {
        converged_blocks: converged,
        total_blocks: total,
        segments_decoded: decoded,
        segments_lost: lost,
        data_blocks_recovered: data,
    }
}

fn clean() -> Tally {
    tally(4, 0, 22, 22, 21)
}

#[test]
fn is_fully_clean_rejects_meta_only_decode() {
    let full = tally(4, 0, 22, 22, 21);
    assert!(full.is_clean(), "full-clean must pass loose is_clean");
    assert!(full.is_fully_clean(), "full-clean must pass strict is_fully_clean");

    let meta_only_marker_loss = tally(1, 3, 1, 1, 0);
    assert!(meta_only_marker_loss.is_clean(), "loose is_clean accepts meta-only");
    assert!(
        !meta_only_marker_loss.is_fully_clean(),
        "is_fully_clean MUST reject meta-only decode (segments_lost > 0)"
    );

    let meta_only_window_cut = tally(1, 0, 1, 1, 0);
    assert!(meta_only_window_cut.is_clean(), "loose is_clean accepts window-cut meta-only");
    assert!(
        !meta_only_window_cut.is_fully_clean(),
        "is_fully_clean MUST reject meta-only when data_blocks_recovered == 0"
    );

    let partial_cw = tally(4, 0, 22, 21, 20);
    assert!(!partial_cw.is_clean(), "loose is_clean already rejects 21/22");
    assert!(!partial_cw.is_fully_clean(), "is_fully_clean MUST reject any CW failure");

    let one_seg_lost = tally(3, 1, 18, 18, 17);
    assert!(!one_seg_lost.is_fully_clean(), "is_fully_clean MUST reject any lost segment");
}

#[test]
fn score_known_values() {
    assert_eq!(tally(4, 0, 22, 21, 20).score_result(), 214);
    assert_eq!(tally(3, 9, 0, 0, 0).score_result(), 3);
}

// --- drift search ----------------------------------------------------------

fn options(estimate: bool, grid: bool, fast: bool, batched: bool) -> SearchOptions {
    SearchOptions {
        estimate_usable: estimate,
        allow_grid: grid,
        allow_fast_path: fast,
        batched,
    }
}

fn at(delta_ppm: i32) -> Trial {
    Trial { from_estimate: false, delta_ppm }
}

#[test]
fn clean_estimate_makes_the_trial_at_zero_superfluous() {
    let search = DriftSearch::new(options(true, true, false, false));
    assert_eq!(search.next(), vec![Trial { from_estimate: true, delta_ppm: 0 }]);
    let search = search.record(vec![Some(clean())]);
    assert!(search.next().is_empty());
    assert_eq!(search.best(), Some((0, Trial { from_estimate: true, delta_ppm: 0 })));
}

#[test]
fn failed_estimate_falls_back_to_zero() {
    let search = DriftSearch::new(options(true, false, false, false));
    let search = search.record(vec![None]);
    assert_eq!(search.next(), vec![at(0)]);
    let search = search.record(vec![Some(clean())]);
    assert!(search.next().is_empty());
    assert_eq!(search.best(), Some((1, at(0))));
}

#[test]
fn grid_runs_around_the_best_trial_and_the_first_of_equals_wins() {
    let dirty = tally(2, 2, 10, 5, 4);
    let mut search = DriftSearch::new(options(false, true, true, false));
    let mut tried = Vec::new();
    loop {
        let trials = search.next();
        if trials.is_empty() {
            break;
        }
        tried.extend(trials.iter().map(|t| t.delta_ppm));
        search = search.record(trials.iter().map(|_| Some(dirty)).collect());
    }
    assert_eq!(tried, vec![0, -15, -10, -5, 5, 10, 15]);
    assert_eq!(search.best(), Some((0, at(0))));
}

#[test]
fn batched_grid_stops_behind_a_fully_clean_batch() {
    let search = DriftSearch::new(options(false, true, true, true));
    let search = search.record(vec![None]);
    let batch: Vec<i32> = search.next().iter().map(|t| t.delta_ppm).collect();
    assert_eq!(batch, vec![-5, 5, -10, 10]);
    let search = search.record(vec![None, Some(clean()), None, None]);
    assert!(search.next().is_empty());
    assert_eq!(search.best(), Some((2, at(5))));
}

#[test]
fn wide_search_refines_around_its_winner() {
    let weak = tally(1, 1, 10, 4, 3);
    let mut search = DriftSearch::new_wide(false);
    let mut tried = Vec::new();
    loop {
        let trials = search.next();
        if trials.is_empty() {
            break;
        }
        let found = trials
            .iter()
            .map(|t| {
                tried.push(t.delta_ppm);
                if t.delta_ppm == 40 { Some(weak) } else { None }
            })
            .collect();
        search = search.record(found);
    }
    assert_eq!(tried, vec![0, -80, -60, -40, -20, 20, 40, 60, 80, 30, 35, 45, 50]);
    assert_eq!(search.best(), Some((6, at(40))));
}

#[test]
fn noise_gives_no_result() {
    let mut search = DriftSearch::new_wide(true);
    let mut n = 0;
    loop {
        let trials = search.next();
        if trials.is_empty() {
            break;
        }
        n += trials.len();
        search = search.record(trials.iter().map(|_| None).collect());
    }
    assert_eq!(n, 9);
    assert_eq!(search.best(), None);
}

// --- profile choice --------------------------------------------------------

fn scores(values: [u64; 6]) -> Vec<u64> {
    values.iter().map(|v| v * SCORE_ONE).collect()
}

#[test]
fn candidates_leave_out_experimental_profiles() {
    assert!(candidates().iter().all(|p| !p.is_experimental()));
    assert_eq!(candidates().len(), 6);
}

#[test]
fn unique_winner_makes_a_switch() {
    // Order: Ultra, Robust, Normal, High, High+, High 5/6.
    let s = scores([900, 10, 10, 10, 10, 10]);
    assert_eq!(detect_best_profile(&s, ProfileIndex::High), Some(ProfileIndex::Ultra));
    let s = scores([10, 900, 10, 10, 10, 10]);
    assert_eq!(detect_best_profile(&s, ProfileIndex::High), Some(ProfileIndex::Robust));
}

#[test]
fn tie_with_the_current_profile_makes_none() {
    let s = scores([10, 10, 800, 800, 800, 800]);
    assert_eq!(detect_best_profile(&s, ProfileIndex::High), None);
    assert_eq!(detect_best_profile(&s, ProfileIndex::Ultra), Some(ProfileIndex::Normal));
}

#[test]
fn noise_makes_no_switch() {
    let s = scores([20, 22, 25, 18, 21, 19]);
    assert_eq!(detect_best_profile(&s, ProfileIndex::Ultra), None);
}

// --- walk ------------------------------------------------------------------

fn layout() -> Layout {
    Layout {
        region_len: 4000,
        syms_per_cw: 320,
        k_bytes: 144,
        pattern: PilotPattern::default_v3(),
    }
}

fn marker(seg_id: u16, session: u8, base_esi: u32, meta: bool) -> MarkerPayload {
    MarkerPayload {
        seg_id,
        session_id_low: session,
        base_esi,
        flags: if meta { META_FLAG_BIT } else { 0 },
    }
}

fn word(byte: u8, converged: bool) -> DecodedWord {
    DecodedWord { bytes: vec![byte; 144], converged }
}

#[test]
fn walk_collects_converged_codewords_by_number() {
    let walk = Walk::new(layout());
    assert_eq!(walk.next_search(), Some((0, 8)));
    let walk = walk.read_marker(3, marker(0, 7, 10, false));
    let span = walk.pending_segment().unwrap();
    assert_eq!(span.start, 3 + MARKER_LEN);
    assert_eq!(span.len, 640 + 20 * 2);
    assert_eq!(span.n_cw, 2);
    let walk = walk.segment(vec![word(1, true), word(2, false)]);
    let out = walk.finish();
    assert_eq!(out.words.len(), 1);
    assert_eq!(out.words[&10], vec![1u8; 144]);
    assert_eq!(out.tally, tally(1, 0, 2, 1, 1));
}

#[test]
fn walk_widens_its_window_after_two_misses() {
    let walk = Walk::new(layout()).no_sync();
    assert_eq!(walk.next_search(), Some((64, 8)));
    let walk = walk.bad_marker(70);
    assert_eq!(walk.next_search(), Some((70 + MARKER_LEN, 512)));
    let walk = walk.read_marker(300, marker(0, 1, 0, true));
    let walk = walk.segment(vec![word(0, true)]);
    // A read marker narrows the window again.
    let (start, width) = walk.next_search().unwrap();
    assert_eq!(start, 300 + MARKER_LEN + 320 + 10 * 2);
    assert_eq!(width, 8);
    assert_eq!(walk.finish().tally, tally(1, 2, 1, 1, 0));
}

#[test]
fn walk_ends_at_another_session() {
    let walk = Walk::new(layout()).read_marker(0, marker(0, 1, 0, true));
    let walk = walk.segment(vec![word(0, false)]);
    let (start, _) = walk.next_search().unwrap();
    let walk = walk.read_marker(start, marker(1, 2, 0, false));
    assert_eq!(walk.next_search(), None);
    assert!(walk.pending_segment().is_none());
}

#[test]
fn walk_ends_where_a_segment_is_cut_off() {
    let mut l = layout();
    l.region_len = 400;
    let walk = Walk::new(l).read_marker(0, marker(0, 1, 0, false));
    assert!(walk.pending_segment().is_none());
    assert_eq!(walk.next_search(), None);
}

#[test]
fn walk_counts_a_short_segment_as_lost() {
    let walk = Walk::new(layout()).read_marker(0, marker(0, 1, 0, true)).short_segment();
    assert_eq!(walk.finish().tally, tally(0, 1, 0, 0, 0));
}

// --- timing ----------------------------------------------------------------

#[test]
fn timing_scan_tells_found_from_expected() {
    let l = layout();
    let meta = MARKER_LEN + 320 + 10 * 2;
    let data = MARKER_LEN + 640 + 20 * 2;
    let scan = TimingScan::new(l);
    assert_eq!(scan.next_search(), Some((0, 64)));
    let scan = scan.read_marker(1, marker(0, 1, 0, true));
    let scan = scan.missed();
    let scan = scan.read_marker(meta + MARKER_LEN + 5, marker(1, 1, 0, false));
    let (next, _) = scan.next_search().unwrap();
    assert_eq!(next, meta + MARKER_LEN + 5 + data);
    let scan = scan.read_marker(next, marker(2, 1, 2, false));
    let markers = scan.finish().unwrap();
    assert_eq!(markers[0], FoundMarker { found: 1, expected: 0 });
    assert_eq!(markers[1], FoundMarker { found: meta + MARKER_LEN + 5, expected: meta });
    assert_eq!(markers[2], FoundMarker { found: next, expected: meta + data });
}

#[test]
fn two_markers_are_too_few_for_an_estimate() {
    let scan = TimingScan::new(layout());
    let scan = scan.read_marker(0, marker(0, 1, 0, true));
    let (next, _) = scan.next_search().unwrap();
    assert!(scan.read_marker(next, marker(1, 1, 0, true)).finish().is_none());
}

#[test]
fn correlation_stays_within_the_signal() {
    assert_eq!(correlation_span(1000, 32, 5000), (968, 1032));
    assert_eq!(correlation_span(10, 32, 5000), (0, 42));
    assert_eq!(correlation_span(1000, 32, 2000), (968, 976));
    assert_eq!(correlation_span(1000, 32, 100), (968, 0));
}

// --- windows ---------------------------------------------------------------

fn capture() -> Capture {
    Capture { n_samples: 100_000, pitch: 32, k_bytes: 4 }
}

fn sweep_options(finalize: bool, power_mode: bool, session_hint: bool) -> SweepOptions {
    SweepOptions {
        finalize,
        position_cap: false,
        allow_legacy_grid: true,
        power_mode,
        has_session_hint: session_hint,
    }
}

fn header(counter: u16) -> Header {
    Header {
        version: 3,
        mode_code: 0,
        frame_counter: counter,
        payload_length: 9,
        flags: 0,
        freq_offset: 0,
        profile_index: 2,
    }
}

fn app_header(file_size: u32) -> AppHeader {
    AppHeader {
        session_id: 5,
        file_size,
        k_symbols: 1,
        t_bytes: 4,
        mode_code: 0,
        mime_type: 0,
        hash_short: 0,
    }
}

fn result(drift: f64, words: &[(u32, u8)], file_size: u32, eot: bool) -> WindowResult<f64> {
    let mut map = HashMap::new();
    for (esi, b) in words {
        map.insert(*esi, vec![*b; 4]);
    }
    WindowResult {
        drift,
        tally: tally(1, 0, 2, 2, words.len()),
        header: Some(header(words.len() as u16)),
        app_header: Some(app_header(file_size)),
        words: map,
        eot_seen: eot,
    }
}

#[test]
fn positions_are_sorted_and_old_ones_dropped() {
    assert_eq!(fresh_positions(&vec![900, 100, 500, 500], 200), vec![500, 500, 900]);
    assert!(fresh_positions(&vec![1, 2], 10).is_empty());
    assert!(Sweep::<f64>::new(capture(), sweep_options(true, false, false), &vec![], 0).is_none());
}

#[test]
fn low_power_scans_look_for_two_positions() {
    assert_eq!(position_cap(true, false), Some(2));
    assert_eq!(position_cap(true, true), None);
    assert_eq!(position_cap(false, false), None);
}

#[test]
fn sweep_merges_windows_and_the_first_codeword_wins() {
    let found = vec![60_000, 10_000];
    let sweep =
        Sweep::<f64>::new(capture(), sweep_options(true, false, false), &found, 0).unwrap();
    assert_eq!(
        sweep.next(),
        Some(WindowTask {
            start: 10_000 - 16 * 32,
            end: 60_000 + 16 * 32,
            closed: true,
            pass: Pass::Search { allow_grid: true, allow_fast_path: true },
        })
    );
    let sweep = sweep.record(Some(result(3.5, &[(0, 1), (1, 2)], 0, false)));
    assert_eq!(sweep.hint(), Some(3.5));
    let task = sweep.next().unwrap();
    assert_eq!(task.pass, Pass::FromWindow);
    assert!(!task.closed);
    assert_eq!(task.end, 100_000);
    let sweep = sweep.record(Some(result(4.5, &[(1, 9), (2, 3)], 12, true)));
    assert_eq!(sweep.next(), None);
    let out = sweep.finish();
    assert_eq!(out.words[&1], vec![2u8; 4]);
    assert_eq!(out.words[&2], vec![3u8; 4]);
    assert_eq!(out.tally, tally(2, 0, 4, 4, 3));
    assert_eq!(out.drift, Some(4.5));
    // The session header of the first window had no payload.
    assert_eq!(out.app_header.unwrap().file_size, 12);
    assert_eq!(out.header.unwrap().frame_counter, 2);
    assert!(out.eot_seen);
    assert_eq!(out.last_preamble_offset, 60_000);
}

#[test]
fn live_scan_decodes_the_open_window() {
    let options = sweep_options(false, false, false);
    let sweep = Sweep::<f64>::new(capture(), options, &vec![10_000], 0).unwrap();
    let task = sweep.next().unwrap();
    assert_eq!((task.pass, task.closed, task.end), (Pass::Single, false, 100_000));
    let out = sweep.record(Some(result(1.0, &[(7, 7)], 4, false))).finish();
    assert_eq!(out.header, Some(header(1)));
    assert_eq!(out.tally.total_blocks, 2);
    assert_eq!(out.words[&7], vec![7u8; 4]);
    assert_eq!(out.last_preamble_offset, 10_000);

    let sweep = Sweep::<f64>::new(capture(), options, &vec![10_000, 60_000], 0).unwrap();
    let sweep = sweep.record(Some(result(1.0, &[], 0, false)));
    assert_eq!(sweep.next().map(|t| t.pass), Some(Pass::FromWindow));
}

#[test]
fn capped_scan_leaves_its_last_preamble_to_the_next() {
    let options = SweepOptions { position_cap: true, ..sweep_options(false, false, false) };
    let found = vec![10_000, 60_000];
    let sweep = Sweep::<f64>::new(capture(), options, &found, 0).unwrap();
    assert!(sweep.next().unwrap().closed);
    let going_on = sweep.record(Some(result(1.0, &[], 0, false)));
    assert_eq!(going_on.next(), None);
    assert_eq!(going_on.finish().last_preamble_offset, 60_000);
    let sweep = Sweep::<f64>::new(capture(), options, &found, 0).unwrap();
    let ended = sweep.record(Some(result(1.0, &[], 0, true)));
    assert_eq!(ended.next().map(|t| t.pass), Some(Pass::FromWindow));
    // A lone preamble is no such boundary.
    let sweep = Sweep::<f64>::new(capture(), options, &vec![10_000], 0).unwrap();
    assert_eq!(sweep.next().map(|t| t.pass), Some(Pass::Single));
}

#[test]
fn windows_fall_back_from_hint_to_search() {
    let pass = |found: &Vec<usize>, o| {
        Sweep::<f64>::new(capture(), o, found, 0).unwrap().next().unwrap().pass
    };
    let open = vec![10_000];
    assert_eq!(pass(&open, sweep_options(true, false, true)), Pass::FromSession);
    assert_eq!(pass(&open, sweep_options(false, false, true)), Pass::FromSession);
    assert_eq!(
        pass(&open, sweep_options(true, false, false)),
        Pass::Search { allow_grid: true, allow_fast_path: true }
    );
    assert_eq!(pass(&open, sweep_options(true, true, true)), Pass::Single);
    assert_eq!(pass(&open, sweep_options(false, true, false)), Pass::Single);
    let closed = vec![10_000, 60_000];
    assert_eq!(pass(&closed, sweep_options(false, false, true)), Pass::FromSession);
    assert_eq!(pass(&closed, sweep_options(false, true, true)), Pass::WideGrid);
    let lean = SweepOptions { allow_legacy_grid: false, ..sweep_options(false, false, false) };
    assert_eq!(pass(&closed, lean), Pass::Search { allow_grid: false, allow_fast_path: false });
    let last = SweepOptions { finalize: true, ..lean };
    assert_eq!(pass(&open, last), Pass::Search { allow_grid: true, allow_fast_path: true });
}

#[test]
fn windows_too_short_for_a_preamble_are_passed_over() {
    let found = vec![10_000, 11_000, 99_000];
    let sweep =
        Sweep::<f64>::new(capture(), sweep_options(true, false, false), &found, 0).unwrap();
    let task = sweep.next().unwrap();
    assert_eq!(task.start, 11_000 - 512);
    assert_eq!(sweep.record(None).next(), None);
}

// --- points for display -------------------------------------------------------

#[test]
fn kept_points_are_spread_over_a_segment() {
    let mut sample: Vec<usize> = Vec::new();
    let points: Vec<usize> = (0..1300).collect();
    add_points(&mut sample, &points);
    assert_eq!(sample.len(), MAX_POINTS);
    assert_eq!(sample[..4], [0, 2, 4, 6]);
    add_points(&mut sample, &points);
    assert_eq!(sample.len(), MAX_POINTS);
    let mut few: Vec<usize> = vec![9; 480];
    add_points(&mut few, &points[..100]);
    assert_eq!(few[480..484], [0, 5, 10, 15]);
    assert_eq!(few.len(), 500);
    let mut short: Vec<usize> = Vec::new();
    add_points(&mut short, &[7, 8]);
    assert_eq!(short, vec![7, 8]);
}

// --- assembling ------------------------------------------------------------

#[test]
fn gaps_are_filled_with_zeros_where_packets_are_missing() {
    let mut words = HashMap::new();
    words.insert(0u32, vec![1u8, 2, 3, 4]);
    words.insert(2u32, vec![5u8, 6, 7, 8]);
    let h = app_header(18);
    assert!(check_header(&h, 4));
    let out = assemble(&Some(h), &words, 4, None);
    assert_eq!(out, vec![1, 2, 3, 4, 0, 0, 0, 0, 5, 6, 7, 8, 0, 0, 0, 0, 0, 0]);
}

#[test]
fn complete_payload_is_assembled_from_any_packets() {
    let data: Vec<u8> = (0..120u32).map(|i| (i * 11) as u8).collect();
    let packets = encode_packets_range(&data, 4, 0, 45);
    let mut words = HashMap::new();
    for (esi, p) in packets.iter().enumerate().skip(5) {
        words.insert(esi as u32, p.clone());
    }
    let out = assemble(&Some(app_header(120)), &words, 4, None);
    assert_eq!(out, data);
}

#[test]
fn without_a_session_header_codewords_are_joined_in_order() {
    let mut words = HashMap::new();
    words.insert(7u32, vec![7u8; 4]);
    words.insert(3u32, vec![3u8; 4]);
    assert_eq!(assemble(&None, &words, 4, None), vec![3, 3, 3, 3, 7, 7, 7, 7]);
    assert_eq!(assemble(&None, &words, 4, Some(5)), vec![3, 3, 3, 3, 7]);
}

#[test]
fn session_header_of_another_rate_does_not_fit() {
    assert!(!check_header(&app_header(18), 5));
    let mut words = HashMap::new();
    for esi in 1..9u32 {
        words.insert(esi, vec![esi as u8; 5]);
    }
    let mut expected = vec![0u8; 5];
    expected.extend([1, 1, 1, 1, 1, 2, 2, 2, 2, 2, 3, 3, 3]);
    assert_eq!(assemble(&Some(app_header(18)), &words, 5, None), expected);
}

#[test]
fn meta_marker_may_carry_the_last_number() {
    let walk = Walk::new(layout()).read_marker(0, marker(0, 1, 0xFF_FFFF, true));
    assert_eq!(walk.pending_segment().map(|s| s.n_cw), Some(1));
}

// --- single burst ----------------------------------------------------------

#[test]
fn burst_plan_holds_trailing_pilot_groups() {
    // One codeword of 64 symbols: two groups of 34; two more groups follow.
    let plan = plan_burst(10, 16, 64, 68 + 2 * 34 + 5).unwrap();
    assert_eq!(plan.n_codewords, 1);
    assert_eq!(plan.n_data, 64);
    assert_eq!(plan.len, 68);
    assert_eq!(plan.pilots, vec![(32, 34), (66, 68), (100, 102), (134, 136)]);
    assert!(plan_burst(10, 16, 64, 67).is_none());
    assert_eq!(plan_burst(0, 16, 64, 0).unwrap().n_codewords, 0);
    assert_eq!(plan_burst(17, 16, 64, 1000).unwrap().n_codewords, 2);
}

#[test]
fn pilots_of_a_burst_are_found() {
    // 40 data symbols: 32 and 2 pilots, then 8 and 2 pilots.
    let pilots: Vec<usize> = (0..44).filter(|&i| find_pilot(40, i).is_some()).collect();
    assert_eq!(pilots, vec![32, 33, 42, 43]);
    assert_eq!(find_pilot(40, 43), Some((1, 1)));
}

#[test]
fn burst_keeps_codewords_that_did_not_converge() {
    let words = vec![word(1, true), word(2, false)];
    let r = collect_burst(Some(header(1)), &words);
    assert_eq!(r.data.len(), 288);
    assert_eq!(r.data[287], 2);
    assert_eq!((r.converged_blocks, r.total_blocks), (1, 2));
    assert!(r.header.is_some());
}

// --- sizes and places ------------------------------------------------------

#[test]
fn equalizer_sizes_known_values() {
    assert_eq!(equalizer_len(2, 2), 17);
    assert_eq!(equalizer_len(16, 15), 65);
    assert_eq!(symbols_available(1000, 100, 10, 4), 223);
    assert_eq!(symbols_available(110, 100, 10, 4), 0);
    let places = training_positions(50, 4);
    assert_eq!(places.len(), 256);
    assert_eq!(places[255], 50 + 255 * 4);
}

#[test]
fn equalizer_windows_known_values() {
    assert_eq!(window_start(10, 5, 20), Some(8));
    assert_eq!(window_start(1, 5, 20), None);
    assert_eq!(window_start(17, 5, 20), Some(15));
    assert_eq!(window_start(18, 5, 20), None);
    assert_eq!(
        symbol_windows(0, 2, 4, 5, 8),
        vec![None, Some(0), Some(2), None]
    );
    // Passed over at the start, ended at the first one that overruns.
    assert_eq!(training_windows(&[1, 4, 19, 6], 5, 20), vec![(1, 2)]);
}

#[test]
fn training_symbols_are_found() {
    let known = [(1, 'a'), (1, 'b'), (3, 'c')];
    assert_eq!(references(&known, 5), vec![None, Some('a'), None, Some('c'), None]);
    // An entry out of order hides those behind it.
    assert_eq!(references(&[(2, 'x'), (1, 'y')], 3), vec![None, None, Some('x')]);
}

#[test]
fn filter_spans_known_values() {
    assert_eq!(upsample(&[1.5, 2.5], 3, 2, 0.0), vec![1.5, 0.0, 0.0, 2.5, 0.0]);
    assert!(upsample::<f64>(&[], 3, 2, 0.0).is_empty());
    assert_eq!(convolution_span(0, 10, 3), (0, 1));
    assert_eq!(convolution_span(5, 10, 3), (3, 6));
    assert_eq!(convolution_span(11, 10, 3), (9, 10));
    assert_eq!(centred_span(0, 10, 5), (2, 5));
    assert_eq!(centred_span(5, 10, 5), (0, 5));
    assert_eq!(centred_span(9, 10, 5), (0, 3));
    assert_eq!(fade_level(3, 100, 10), 3);
    assert_eq!(fade_level(50, 100, 10), 10);
    assert_eq!(fade_level(95, 100, 10), 4);
}

#[test]
fn surroundings_known_values() {
    let centres = vec![33, 67, 101];
    assert_eq!(surroundings(&centres, 10), Surroundings::First);
    assert_eq!(surroundings(&centres, 33), Surroundings::First);
    assert_eq!(surroundings(&centres, 34), Surroundings::Between(0));
    assert_eq!(surroundings(&centres, 67), Surroundings::Between(0));
    assert_eq!(surroundings(&centres, 68), Surroundings::Between(1));
    assert_eq!(surroundings(&centres, 101), Surroundings::Last);
    assert_eq!(neighbours(0, 3), (0, 1));
    assert_eq!(neighbours(1, 3), (0, 2));
    assert_eq!(neighbours(2, 3), (1, 2));
    assert_eq!(neighbours(0, 1), (0, 0));
}

#[test]
fn acquisition_places_known_values() {
    assert_eq!(last_lag(100, 30, 128), Some(70));
    assert_eq!(last_lag(200, 30, 128), Some(98));
    assert_eq!(last_lag(10, 30, 128), None);
    assert_eq!(refine_span(100, 30, 50, 8), Some((42, 58)));
    assert_eq!(refine_span(100, 30, 3, 8), Some((0, 11)));
    assert_eq!(refine_span(100, 30, 66, 8), Some((58, 70)));
    assert_eq!(refine_span(100, 30, 71, 8), None);
    assert_eq!(segment_starts(40, 16), vec![24, 16, 8, 0]);
    assert_eq!(segment_starts(39, 16), vec![23, 15, 7]);
    assert!(segment_starts(15, 16).is_empty());
}

#[test]
fn probe_chooses_the_first_of_the_best_templates() {
    let templates = probe_templates();
    assert_eq!(templates.len(), 3);
    let out = choose_template(vec![5, 80, 80]);
    assert_eq!(out.max_ratio, 80);
    assert_eq!(out.best_anchor, ProfileIndex::Robust);
    assert_eq!(out.best_family(), PreambleFamily::B);
    assert!(out.passes(80));
    assert!(!out.passes(81));
    assert_eq!(choose_template(vec![0, 0, 0]).best_anchor, templates[0].anchor);
}

#[test]
fn transform_lengths_are_powers_of_two() {
    assert_eq!(next_pow2(1), 1);
    assert_eq!(next_pow2(1000), 1024);
    assert_eq!(next_pow2(1024), 1024);
    assert_eq!(fft_len_for(96_000), 131_072);
}

#[test]
fn stage_times_add_up() {
    let mut perf = PerfBreakdown::zero();
    perf.record_stage(PerfStage::Ldpc, 40);
    perf.record_stage(PerfStage::Downmix, 2);
    perf.record_stage(PerfStage::PassDone, 0);
    let mut all = PerfBreakdown::zero();
    all.merge(&perf);
    all.merge(&perf);
    assert_eq!(all.ldpc_us, 80);
    assert_eq!(all.n_passes, 2);
    assert_eq!(all.total_us(), 84);
    assert_eq!(all.take_perf().total_us(), 84);
    assert_eq!(all, PerfBreakdown::zero());
}

#[test]
fn pilot_places_known_values() {
    let pattern = PilotPattern { d_syms: 32, p_syms: 2 };
    assert_eq!(pilot_starts(103, &pattern), vec![32, 66, 100]);
    assert_eq!(pilot_starts(101, &pattern), vec![32, 66]);
    assert_eq!(pilot_centres(103, &pattern), vec![33, 67, 101]);
    assert!(pilot_starts(33, &pattern).is_empty());
    assert_eq!(pilot_at(31, &pattern), None);
    assert_eq!(pilot_at(32, &pattern), Some((0, 0)));
    assert_eq!(pilot_at(67, &pattern), Some((1, 1)));
    assert_eq!(pilot_at(68, &pattern), None);
}

#[test]
fn pilots_stand_where_they_are_looked_for() {
    let pattern = PilotPattern { d_syms: 5, p_syms: 3 };
    let data = vec![Symbol { re: 7, im: -7 }; 20];
    let (stream, _) = interleave_data_pilots(&data, &pattern);
    for (i, &s) in stream.iter().enumerate() {
        match pilot_at(i, &pattern) {
            Some((g, k)) => assert_eq!(s, pilots_for_group(g, &pattern)[k]),
            None => assert_eq!(s, data[0]),
        }
    }
}

#[test]
fn layout_known_values() {
    let l = Layout::of(&ProfileIndex::High.to_config(), 5000);
    assert_eq!((l.region_len, l.syms_per_cw, l.k_bytes), (5000, 576, 216));
    assert_eq!(l.pattern, PilotPattern::default_v3());
    let l = Layout::of(&ProfileIndex::Normal.to_config(), 0);
    assert_eq!((l.syms_per_cw, l.k_bytes), (768, 144));
}
