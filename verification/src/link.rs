//! What is sent is received: from the payload to the symbols of a frame and back.

use vstd::prelude::*;

use crate::app_header::{self, AppHeader};
use crate::bits;
use crate::constellation::{self, Constellation};
use crate::frame::{self, FrameParts, SegmentPlan};
use crate::interleaver;
use crate::ldpc::clean;
use crate::ldpc::code;
use crate::ldpc::decoder;
use crate::ldpc::encoder;
use crate::marker;
use crate::marker::META_FLAG_BIT;
use crate::pilot;
use crate::profile::{ConstellationType, LdpcRate, ModemConfig, PilotPattern};
use crate::raptorq_codec;
use crate::rx_v2::assemble;
use crate::rx_v2::walk::{self, Layout, WalkState, WordResult};
use crate::symbol::Symbol;

verus! {

/// The bits that the decided labels of a codeword's symbols stand for, in the order of
/// the codeword.
pub open spec fn read_bits(config: ModemConfig, labels: Seq<usize>) -> Seq<u8> {
    let ct = config.constellation;
    interleaver::permuted(
        constellation::unmapped(labels, ct.spec_bits_per_sym() as int),
        interleaver::deinterleaving(frame::sent_bits(ct), ct),
    ).take(2304)
}

/// No two labels of a configuration share a point, where rounding keeps its rings apart.
pub proof fn law_points_of_a_configuration_are_distinct(config: ModemConfig)
    requires
        frame::rings_ready(config),
        frame::rings_stay_apart(config),
    ensures
        constellation::distinct(frame::points_of(config)),
{
    match config.constellation {
        crate::profile::ConstellationType::Apsk16 => {
            constellation::apart::law_apsk16_points_are_distinct(config.apsk_gamma);
        },
        crate::profile::ConstellationType::Apsk32 => {
            constellation::apart::law_apsk32_points_are_distinct(
                config.apsk_gamma,
                config.apsk_gamma2,
            );
        },
        crate::profile::ConstellationType::Apsk64 => {
            constellation::apart::law_apsk64_points_are_distinct(
                config.apsk_gamma,
                config.apsk_gamma2,
                config.apsk_gamma3,
            );
        },
        _ => {},
    }
}

/// A codeword is read from its symbols: deciding on them, undoing the interleaving and
/// decoding log-likelihood ratios with these signs gives the information back. `word` is
/// the codeword of `info`.
pub proof fn law_codeword_is_read_back(
    config: ModemConfig,
    c: Constellation,
    info: Seq<u8>,
    word: Seq<u8>,
    labels: Seq<usize>,
    llr: Seq<i32>,
    max_iter: nat,
)
    requires
        constellation::distinct(frame::points_of(config)),
        c.well_formed(),
        c.bits_per_sym == config.constellation.spec_bits_per_sym(),
        c.points@ == frame::points_of(config),
        clean::is_binary(info),
        info.len() == config.ldpc_rate.spec_k(),
        code::is_codeword(config.ldpc_rate, word),
        word.take(info.len() as int) == info,
        ({
            let y = frame::word_symbols(config, info);
            &&& labels.len() == y.len()
            &&& forall|i: int|
                0 <= i < y.len() ==> constellation::is_nearest(
                    c.points@,
                    y[i],
                    #[trigger] labels[i] as int,
                )
        }),
        clean::spells(llr, read_bits(config, labels)),
        max_iter >= 1,
    ensures
        read_bits(config, labels) == word,
        ({
            let rate = config.ldpc_rate;
            let (st, converged) = decoder::iterate(
                rate,
                decoder::start(rate, decoder::seed_of(llr, None)),
                max_iter,
            );
            converged && decoder::hard(st.totals).take(rate.spec_k() as int) == info
        }),
{
    let ct = config.constellation;
    let m = ct.spec_bits_per_sym() as int;
    let rate = config.ldpc_rate;
    frame::lemma_word_sizes(ct);
    code::law_codeword_is_determined_by_info(rate, word, frame::codeword_of(rate, info));
    clean::law_binary_info_gives_binary_codeword(rate, word);
    let n = frame::sent_bits(ct);
    let plain = frame::filled_word(word, ct);
    let sent = interleaver::permuted(plain, interleaver::interleaving(n, ct));
    assert(plain.len() == n);
    assert(sent.len() == n);
    constellation::law_map_and_decide_round_trip(c, sent, labels);
    let back = constellation::unmapped(labels, m);
    assert(back =~= sent) by {
        assert forall|p: int| 0 <= p < sent.len() implies back[p] == sent[p] by {
            interleaver::law_interleaving_is_a_bijection(n, ct, p);
            let from = interleaver::interleaving(n, ct)[p] as int;
            assert(sent[p] == plain[from]);
            assert(plain[from] == 0 || plain[from] == 1);
        }
    }
    interleaver::law_deinterleaving_undoes_interleaving(plain, ct);
    assert(read_bits(config, labels) =~= word);
    clean::law_decode_undoes_encode(rate, info, word, llr, max_iter);
}

/// The symbols of a segment behind its marker, without the pilots, open with those of its
/// codewords one behind the other, `w` symbols each.
pub proof fn law_segment_holds_its_codewords(parts: FrameParts, s: SegmentPlan, w: int)
    requires
        parts.d >= 1,
        parts.p >= 0,
        s.count <= 2,
        s.count == 0 ==> parts.meta.len() == w,
        s.count >= 1 ==> parts.words[s.base as int].len() == w,
        s.count == 2 ==> parts.words[s.base + 1].len() == w,
    ensures
        ({
            let back = pilot::without_pilots(
                pilot::with_pilots_at(parts.payload(s), parts.d, parts.p, parts.amplitude),
                parts.d,
                parts.p,
            );
            &&& s.count == 0 ==> back.len() >= w && back.take(w) == parts.meta
            &&& s.count >= 1 ==> back.len() >= s.count * w && back.take(w)
                == parts.words[s.base as int]
            &&& s.count == 2 ==> back.subrange(w, 2 * w) == parts.words[s.base + 1]
        }),
{
    let payload = parts.payload(s);
    let back = pilot::without_pilots(
        pilot::with_pilots_at(payload, parts.d, parts.p, parts.amplitude),
        parts.d,
        parts.p,
    );
    pilot::law_amplitude_leaves_the_data(payload, parts.d, parts.p, parts.amplitude);
    let front = back.take(payload.len() as int);
    if s.count <= 1 {
        assert(back.take(w) =~= front);
    } else {
        assert(back.take(w) =~= front.take(w));
        assert(payload.take(w) =~= parts.words[s.base as int]);
        assert(back.subrange(w, 2 * w) =~= front.subrange(w, 2 * w));
        assert(payload.subrange(w, 2 * w) =~= parts.words[s.base + 1]);
    }
}

// ---------------------------------------------------------------------------
// Frames
// ---------------------------------------------------------------------------

/// Bytes of block `b` of a payload, filled up with zeros.
pub open spec fn block_bytes(data: Seq<u8>, k_bytes: int, b: int) -> Seq<u8> {
    Seq::new(
        k_bytes as nat,
        |j: int|
            if b * k_bytes + j < data.len() {
                data[b * k_bytes + j]
            } else {
                0u8
            },
    )
}

/// Bytes of data codeword `b` of a frame: those of the payload, or those that fill the last
/// segment.
pub open spec fn sent_bytes(rate: LdpcRate, data: Seq<u8>, b: int) -> Seq<u8> {
    if b < encoder::n_blocks(rate, data.len()) {
        block_bytes(data, (rate.spec_k() / 8) as int, b)
    } else {
        frame::spare_block(rate, data)
    }
}

/// The data codewords of a frame below number `n`.
pub open spec fn sent_below(rate: LdpcRate, data: Seq<u8>, n: int) -> Map<u32, Seq<u8>> {
    Map::new(|esi: u32| esi < n, |esi: u32| sent_bytes(rate, data, esi as int))
}

/// The information bits of a data codeword spell its bytes.
pub proof fn law_information_spells_the_block(rate: LdpcRate, data: Seq<u8>, b: int)
    requires
        b >= 0,
    ensures
        bits::unpack(sent_bytes(rate, data, b)) == frame::sent_info(rate, data, b),
{
    let k = (rate.spec_k() / 8) as int;
    let block = block_bytes(data, k, b);
    assert(rate.spec_k() == 8 * k);
    assert(bits::unpack(block) =~= encoder::block_bits(rate, data, b)) by {
        assert forall|p: int| 0 <= p < 8 * k implies bits::unpack(block)[p]
            == encoder::block_bits(rate, data, b)[p] by {
            bits::lemma_zero_bits(p % 8);
        }
    }
}

/// Symbols before the marker of a segment: the anchor before a meta segment.
pub open spec fn anchor_len(parts: FrameParts, s: SegmentPlan) -> int {
    if s.count == 0 {
        (parts.preamble.len() + parts.warmup.len() + parts.header.len()) as int
    } else {
        0
    }
}

/// Place of the marker of segment `i` in a frame.
pub open spec fn marker_place(parts: FrameParts, plan: Seq<SegmentPlan>, i: int) -> int {
    parts.segments(plan, i).len() + anchor_len(parts, plan[i])
}

/// Codewords that a segment holds; a meta segment holds one.
pub open spec fn codewords_in(s: SegmentPlan) -> int {
    if s.count == 0 {
        1
    } else {
        s.count as int
    }
}

/// The codewords of a frame have `w` symbols each.
pub open spec fn words_have(parts: FrameParts, w: int) -> bool {
    &&& parts.meta.len() == w
    &&& forall|b: int| 0 <= b < parts.words.len() ==> (#[trigger] parts.words[b]).len() == w
}

/// The codewords of a frame have the size that its configuration says.
pub proof fn law_words_have_their_size(
    data: Seq<u8>,
    config: ModemConfig,
    header: AppHeader,
    header_syms: Seq<Symbol>,
)
    ensures
        words_have(
            frame::frame_parts(data, config, header, header_syms),
            frame::word_len(config.constellation),
        ),
{
    frame::lemma_word_sizes(config.constellation);
}

/// A segment costs what its plan counts for it: marker, codewords and pilots, and the
/// anchor before a meta segment.
pub proof fn law_segment_has_its_length(
    parts: FrameParts,
    ct: ConstellationType,
    pattern: PilotPattern,
    s: SegmentPlan,
)
    requires
        words_have(parts, frame::word_len(ct)),
        parts.d == pattern.d_syms,
        parts.p == pattern.p_syms,
        parts.d >= 1,
        s.count <= 2,
        s.base + s.count <= parts.words.len(),
    ensures
        parts.segment(s).len() == anchor_len(parts, s) + frame::segment_cost(
            ct,
            pattern,
            codewords_in(s),
        ),
{
    frame::lemma_word_sizes(ct);
    let w = frame::word_len(ct);
    marker::lemma_marker_len(parts.marker(s));
    if s.count >= 1 {
        assert(parts.words[s.base as int].len() == w);
    }
    if s.count == 2 {
        assert(parts.words[s.base + 1].len() == w);
    }
    assert(1 * w == w && 2 * w == w + w) by (nonlinear_arith);
    assert(parts.payload(s).len() == codewords_in(s) * w);
    vstd::arithmetic::div_mod::lemma_div_pos_is_pos(codewords_in(s) * w + parts.d - 1, parts.d);
    let g = pilot::n_groups(codewords_in(s) * w, parts.d);
    assert(g * parts.p >= 0) by (nonlinear_arith)
        requires
            g >= 0,
            parts.p >= 0,
    ;
}

/// The symbols of the first segments open those of more segments.
proof fn lemma_segments_open(parts: FrameParts, plan: Seq<SegmentPlan>, i: int, j: int)
    requires
        0 <= i <= j,
    ensures
        parts.segments(plan, i).len() <= parts.segments(plan, j).len(),
        parts.segments(plan, j).take(parts.segments(plan, i).len() as int) == parts.segments(
            plan,
            i,
        ),
    decreases j,
{
    let a = parts.segments(plan, i);
    let b = parts.segments(plan, j);
    if i == j {
        assert(b.take(a.len() as int) =~= a);
    } else {
        lemma_segments_open(parts, plan, i, j - 1);
        let c = parts.segments(plan, j - 1);
        assert(b.take(a.len() as int) =~= c.take(a.len() as int));
    }
}

/// The marker of every segment stands in the frame at its place.
pub proof fn law_markers_stand_in_the_frame(parts: FrameParts, plan: Seq<SegmentPlan>, i: int)
    requires
        0 <= i < plan.len(),
    ensures
        ({
            let at = marker_place(parts, plan, i);
            &&& at + 64 <= parts.frame(plan).len()
            &&& parts.frame(plan).subrange(at, at + 64) == marker::sync_symbols()
                + marker::control_symbols(parts.marker(plan[i]))
        }),
{
    let s = plan[i];
    let before = parts.segments(plan, i);
    let with = parts.segments(plan, i + 1);
    let whole = parts.frame(plan);
    let at = marker_place(parts, plan, i);
    let mark = marker::sync_symbols() + marker::control_symbols(parts.marker(s));
    marker::lemma_marker_len(parts.marker(s));
    lemma_segments_open(parts, plan, i + 1, plan.len() as int);
    assert(with == before + parts.segment(s));
    assert(whole.subrange(at, at + 64) =~= with.subrange(at, at + 64)) by {
        let all = parts.segments(plan, plan.len() as int);
        assert forall|k: int| at <= k < at + 64 implies whole[k] == with[k] by {
            assert(all.take(with.len() as int)[k] == all[k]);
        }
    }
    assert(with.subrange(at, at + 64) =~= mark);
}

/// Behind a segment the walk goes on where the next one begins: at its marker, or, before
/// a meta segment, at its anchor. `origin` is the place in the frame of the first symbol
/// of the region that is walked through.
pub proof fn law_walk_goes_on_at_the_next_segment(
    data: Seq<u8>,
    config: ModemConfig,
    header: AppHeader,
    header_syms: Seq<Symbol>,
    st: WalkState,
    l: Layout,
    i: int,
    origin: int,
)
    requires
        frame::n_sent(config.ldpc_rate, data.len()) <= usize::MAX,
        data.len() > 0 ==> frame::cadence_of(data, config).sound(),
        config.pilot_pattern.d_syms >= 1,
        l == Layout::spec_of(config, l.region_len),
        0 <= i < frame::full_plan(frame::cadence_of(data, config)).len(),
        ({
            let parts = frame::frame_parts(data, config, header, header_syms);
            let plan = frame::full_plan(frame::cadence_of(data, config));
            &&& !st.is_foreign(parts.marker(plan[i]))
            &&& parts.frame(plan).len() - origin <= l.region_len
        }),
    ensures
        ({
            let parts = frame::frame_parts(data, config, header, header_syms);
            let plan = frame::full_plan(frame::cadence_of(data, config));
            st.after_marker(
                l,
                marker_place(parts, plan, i) - origin,
                parts.marker(plan[i]),
            ).cursor + origin == parts.segments(plan, i + 1).len()
        }),
{
    law_frame_holds_what_is_read(data, config, header, header_syms, l, i);
}

/// A frame holds all symbols that the walk reads for any of its segments, and they end
/// where the next segment begins.
pub proof fn law_frame_holds_what_is_read(
    data: Seq<u8>,
    config: ModemConfig,
    header: AppHeader,
    header_syms: Seq<Symbol>,
    l: Layout,
    i: int,
)
    requires
        frame::n_sent(config.ldpc_rate, data.len()) <= usize::MAX,
        data.len() > 0 ==> frame::cadence_of(data, config).sound(),
        config.pilot_pattern.d_syms >= 1,
        l == Layout::spec_of(config, l.region_len),
        0 <= i < frame::full_plan(frame::cadence_of(data, config)).len(),
    ensures
        ({
            let parts = frame::frame_parts(data, config, header, header_syms);
            let plan = frame::full_plan(frame::cadence_of(data, config));
            let end = marker_place(parts, plan, i) + 64 + l.segment_len(
                walk::codewords_of(parts.marker(plan[i])),
            );
            &&& end == parts.segments(plan, i + 1).len()
            &&& end <= parts.frame(plan).len()
        }),
{
    let ct = config.constellation;
    let parts = frame::frame_parts(data, config, header, header_syms);
    let c = frame::cadence_of(data, config);
    let plan = frame::full_plan(c);
    let s = plan[i];
    frame::lemma_word_sizes(ct);
    encoder::lemma_n_blocks(config.ldpc_rate, data.len());
    frame::lemma_no_data_no_blocks(config.ldpc_rate, data.len());
    assert(0u8 & META_FLAG_BIT == 0 && META_FLAG_BIT & META_FLAG_BIT != 0) by (bit_vector)
        requires
            META_FLAG_BIT == 1,
    ;
    frame::law_plan_sends_everything_in_order(c);
    frame::lemma_plan_bounds(plan, 0, c.n, i);
    frame::law_data_segments_are_full(c, i);
    law_words_have_their_size(data, config, header, header_syms);
    law_segment_has_its_length(parts, ct, config.pilot_pattern, s);
    lemma_segments_open(parts, plan, i + 1, plan.len() as int);
    assert(parts.segments(plan, i + 1) == parts.segments(plan, i) + parts.segment(s));
}

/// What the codewords of a segment give where all of them are read: the session header
/// or two data codewords.
pub open spec fn read_as_sent(
    rate: LdpcRate,
    data: Seq<u8>,
    header: AppHeader,
    s: SegmentPlan,
    got: Seq<WordResult>,
) -> bool {
    if s.count == 0 {
        &&& got.len() == 1
        &&& got[0] == (WordResult {
            bytes: app_header::meta_payload(header, (rate.spec_k() / 8) as nat),
            converged: true,
        })
    } else {
        &&& got.len() == 2
        &&& got[0] == (WordResult {
            bytes: sent_bytes(rate, data, s.base as int),
            converged: true,
        })
        &&& got[1] == (WordResult {
            bytes: sent_bytes(rate, data, s.base + 1),
            converged: true,
        })
    }
}

/// A walk after `n` searches that found nothing.
pub open spec fn after_misses(st: WalkState, n: nat) -> WalkState
    decreases n,
{
    if n == 0 {
        st
    } else {
        after_misses(st, (n - 1) as nat).after_no_sync()
    }
}

/// How one segment of a frame is met on a walk.
pub struct Meeting {
    /// Searches before it that found nothing.
    pub misses: nat,
    /// Where its marker stands.
    pub place: int,
    /// What its codewords gave.
    pub got: Seq<WordResult>,
}

/// A walk after it has met the segments of a plan in turn.
pub open spec fn after_meetings(
    st: WalkState,
    l: Layout,
    parts: FrameParts,
    plan: Seq<SegmentPlan>,
    met: Seq<Meeting>,
) -> WalkState
    decreases plan.len(),
{
    if plan.len() == 0 || met.len() == 0 {
        st
    } else {
        after_meetings(
            after_misses(st, met[0].misses).after_marker(
                l,
                met[0].place,
                parts.marker(plan[0]),
            ).after_segment(met[0].got),
            l,
            parts,
            plan.drop_first(),
            met.drop_first(),
        )
    }
}

/// Every segment of a plan is met within the region, and read as it was sent.
pub open spec fn all_read(
    rate: LdpcRate,
    data: Seq<u8>,
    header: AppHeader,
    l: Layout,
    parts: FrameParts,
    plan: Seq<SegmentPlan>,
    met: Seq<Meeting>,
) -> bool {
    &&& met.len() == plan.len()
    &&& forall|i: int|
        0 <= i < plan.len() ==> {
            &&& read_as_sent(rate, data, header, plan[i], (#[trigger] met[i]).got)
            &&& met[i].place + 64 + l.segment_len(
                walk::codewords_of(parts.marker(plan[i])),
            ) <= l.region_len
        }
}

/// Searches that found nothing leave what was collected alone.
proof fn lemma_misses_keep(st: WalkState, n: nat)
    ensures
        ({
            let t = after_misses(st, n);
            &&& t.words == st.words
            &&& t.app_header == st.app_header
            &&& t.session == st.session
            &&& t.over == st.over
            &&& t.pending == st.pending
        }),
    decreases n,
{
    if n > 0 {
        lemma_misses_keep(st, (n - 1) as nat);
    }
}

/// Meeting one segment adds its data codewords, or sets the session header.
proof fn lemma_one_meeting(
    st: WalkState,
    rate: LdpcRate,
    data: Seq<u8>,
    header: AppHeader,
    l: Layout,
    parts: FrameParts,
    s: SegmentPlan,
    m: Meeting,
    cursor: int,
)
    requires
        0 <= cursor,
        cursor + s.count <= 0x100_0000,
        s.base == cursor,
        s.count == 0 || s.count == 2,
        st.words == sent_below(rate, data, cursor),
        st.session is None || st.session == Some(parts.session_id_low),
        st.pending is None,
        read_as_sent(rate, data, header, s, m.got),
        m.place + 64 + l.segment_len(walk::codewords_of(parts.marker(s))) <= l.region_len,
    ensures
        ({
            let t = after_misses(st, m.misses).after_marker(
                l,
                m.place,
                parts.marker(s),
            ).after_segment(m.got);
            &&& t.words == sent_below(rate, data, cursor + s.count)
            &&& t.app_header == if s.count == 0 {
                Some(header)
            } else {
                st.app_header
            }
            &&& t.session == Some(parts.session_id_low)
            &&& t.pending is None
        }),
{
    let k = (rate.spec_k() / 8) as int;
    lemma_misses_keep(st, m.misses);
    let payload = parts.marker(s);
    let there = after_misses(st, m.misses).after_marker(l, m.place, payload);
    assert(0u8 & META_FLAG_BIT == 0 && META_FLAG_BIT & META_FLAG_BIT != 0) by (bit_vector)
        requires
            META_FLAG_BIT == 1,
    ;
    assert(walk::is_meta(payload) == (s.count == 0));
    assert(there.pending matches Some(span) && span.payload == payload);
    let one = there.after_words(payload, m.got, 1);
    assert(there.after_words(payload, m.got, 0) == there);
    assert(one == there.after_word(payload, 0, m.got[0]));
    if s.count == 0 {
        app_header::law_meta_payload_round_trip(header, k as nat);
        assert(there.after_segment(m.got).words =~= sent_below(rate, data, cursor));
    } else {
        assert(one.words =~= sent_below(rate, data, cursor + 1));
        assert(there.after_words(payload, m.got, 2) == one.after_word(payload, 1, m.got[1]));
        assert(there.after_words(payload, m.got, 2).words =~= sent_below(rate, data, cursor + 2));
    }
}

/// Every data segment holds two codewords.
spec fn all_full(plan: Seq<SegmentPlan>) -> bool {
    forall|i: int|
        0 <= i < plan.len() ==> (#[trigger] plan[i]).count == 0 || plan[i].count == 2
}

/// Meeting the segments of a plan collects all data codewords.
proof fn lemma_meetings(
    st: WalkState,
    rate: LdpcRate,
    data: Seq<u8>,
    header: AppHeader,
    l: Layout,
    parts: FrameParts,
    plan: Seq<SegmentPlan>,
    met: Seq<Meeting>,
    cursor: int,
    n: int,
)
    requires
        0 <= cursor <= n <= 0x100_0000,
        frame::in_order(plan, cursor, n),
        all_full(plan),
        st.words == sent_below(rate, data, cursor),
        st.session is None || st.session == Some(parts.session_id_low),
        st.pending is None,
        all_read(rate, data, header, l, parts, plan, met),
    ensures
        ({
            let t = after_meetings(st, l, parts, plan, met);
            &&& t.words == sent_below(rate, data, n)
            &&& st.app_header == Some(header) || (plan.len() > 0 && plan[0].count == 0)
                ==> t.app_header == Some(header)
        }),
    decreases plan.len(),
{
    if plan.len() > 0 {
        frame::lemma_in_order_bound(plan, cursor, n);
        assert(read_as_sent(rate, data, header, plan[0], met[0].got));
        lemma_one_meeting(st, rate, data, header, l, parts, plan[0], met[0], cursor);
        let t = after_misses(st, met[0].misses).after_marker(
            l,
            met[0].place,
            parts.marker(plan[0]),
        ).after_segment(met[0].got);
        assert forall|i: int| 0 <= i < plan.drop_first().len() implies {
            &&& read_as_sent(
                rate,
                data,
                header,
                plan.drop_first()[i],
                (#[trigger] met.drop_first()[i]).got,
            )
            &&& met.drop_first()[i].place + 64 + l.segment_len(
                walk::codewords_of(parts.marker(plan.drop_first()[i])),
            ) <= l.region_len
        } by {
            assert(met.drop_first()[i] == met[i + 1]);
        }
        lemma_meetings(
            t,
            rate,
            data,
            header,
            l,
            parts,
            plan.drop_first(),
            met.drop_first(),
            cursor + plan[0].count,
            n,
        );
    }
}

/// A frame is received: a walk that meets all segments of a frame, however many searches
/// before each found nothing, collects the session header and every data codeword, and
/// the payload that is put together from them, `out`, is the one that was sent.
pub proof fn law_frame_is_received(
    data: Seq<u8>,
    config: ModemConfig,
    session_id: u32,
    mime_type: u8,
    hash_short: u16,
    header_syms: Seq<Symbol>,
    l: Layout,
    met: Seq<Meeting>,
    out: Seq<u8>,
)
    requires
        ({
            let rate = config.ldpc_rate;
            let k = (rate.spec_k() / 8) as int;
            let header = frame::frame_header(data, config, session_id, mime_type, hash_short);
            let parts = frame::frame_parts(data, config, header, header_syms);
            let plan = frame::full_plan(frame::cadence_of(data, config));
            let done = after_meetings(WalkState::start(), l, parts, plan, met);
            &&& data.len() <= u32::MAX
            &&& encoder::n_blocks(rate, data.len()) < 0x100_0000
            &&& data.len() > 0 ==> frame::cadence_of(data, config).sound()
            &&& all_read(rate, data, header, l, parts, plan, met)
            &&& assemble::is_assembly(out, done.app_header, done.words, k, None)
        }),
    ensures
        out == data,
{
    let rate = config.ldpc_rate;
    let n = frame::n_sent(rate, data.len());
    let k = (rate.spec_k() / 8) as int;
    let header = frame::frame_header(data, config, session_id, mime_type, hash_short);
    let parts = frame::frame_parts(data, config, header, header_syms);
    let cadence = frame::cadence_of(data, config);
    let plan = frame::full_plan(cadence);
    let start = WalkState::start();
    let done = after_meetings(start, l, parts, plan, met);
    encoder::lemma_n_blocks(rate, data.len());
    frame::lemma_no_data_no_blocks(rate, data.len());
    frame::law_plan_sends_everything_in_order(cadence);
    assert(all_full(plan)) by {
        assert forall|i: int| 0 <= i < plan.len() implies (#[trigger] plan[i]).count == 0
            || plan[i].count == 2 by {
            frame::law_data_segments_are_full(cadence, i);
        }
    }
    assert(start.words =~= sent_below(rate, data, 0));
    lemma_meetings(start, rate, data, header, l, parts, plan, met, 0, n);
    assert(plan[0].count == 0);
    lemma_blocks_fill(rate, data);
    if assemble::header_fits(header, k) {
        let decoded = choose|decoded: Option<Vec<u8>>|
            {
                &&& #[trigger] raptorq_codec::is_decoding(
                    decoded,
                    done.words,
                    header.file_size as int,
                    k,
                )
                &&& out == match decoded {
                    Some(p) => p@,
                    None => assemble::zero_filled(done.words, header.file_size as int, k),
                }
            };
        lemma_sent_are_packets(rate, data);
        raptorq_codec::law_packets_give_their_payload(data, k, done.words, decoded);
    }
}

/// The data codewords of a frame are fountain packets of the payload.
proof fn lemma_sent_are_packets(rate: LdpcRate, data: Seq<u8>)
    requires
        frame::n_sent(rate, data.len()) <= 0x100_0000,
        raptorq_codec::fits_one_block(data.len() as int, (rate.spec_k() / 8) as int),
    ensures
        ({
            let k = (rate.spec_k() / 8) as int;
            raptorq_codec::packets_of(
                sent_below(rate, data, frame::n_sent(rate, data.len())),
                raptorq_codec::filled(data, k),
                k as nat,
            )
        }),
{
    let k = (rate.spec_k() / 8) as int;
    let n = encoder::n_blocks(rate, data.len());
    let source = raptorq_codec::filled(data, k);
    let count = raptorq_codec::source_count(data.len() as int, k);
    let words = sent_below(rate, data, frame::n_sent(rate, data.len()));
    vstd::arithmetic::div_mod::lemma_div_multiples_vanish(count, k);
    assert(k * count == count * k) by (nonlinear_arith);
    assert forall|esi: u32| #[trigger] words.dom().contains(esi) implies words[esi]
        == raptorq_codec::packet_of(source, k as nat, esi as nat) by {
        if esi < n {
            assert(0 <= esi * k && esi * k + k <= count * k) by (nonlinear_arith)
                requires
                    0 <= esi < n <= count,
                    k >= 0,
            ;
            assert(source.subrange(esi * k, esi * k + k) =~= block_bytes(data, k, esi as int));
        }
    }
}

/// Byte `i` of a payload of `len` bytes stands in one of its `n` blocks.
proof fn lemma_block_is_below(len: int, k: int, n: int, i: int)
    requires
        k >= 1,
        0 <= i < len,
        n == len / k + (if len % k == 0 {
            0int
        } else {
            1int
        }),
    ensures
        0 <= i / k < n,
        i / k * k + i % k == i,
        0 <= i % k < k,
{
    let b = i / k;
    vstd::arithmetic::div_mod::lemma_fundamental_div_mod(i, k);
    vstd::arithmetic::div_mod::lemma_fundamental_div_mod(len, k);
    assert(0 <= b < n) by (nonlinear_arith)
        requires
            i == k * b + i % k,
            0 <= i % k < k,
            0 <= i < len,
            len == k * (len / k) + len % k,
            0 <= len % k < k,
            n == len / k + (if len % k == 0 {
                0int
            } else {
                1int
            }),
            k >= 1,
    ;
    assert(b * k + i % k == i) by (nonlinear_arith)
        requires
            i == k * b + i % k,
    ;
}

/// The data codewords hold the whole payload.
proof fn lemma_blocks_fill(rate: LdpcRate, data: Seq<u8>)
    requires
        frame::n_sent(rate, data.len()) <= 0x100_0000,
    ensures
        assemble::zero_filled(
            sent_below(rate, data, frame::n_sent(rate, data.len())),
            data.len() as int,
            (rate.spec_k() / 8) as int,
        ) == data,
{
    let k = (rate.spec_k() / 8) as int;
    let n = encoder::n_blocks(rate, data.len());
    let words = sent_below(rate, data, frame::n_sent(rate, data.len()));
    encoder::lemma_n_blocks(rate, data.len());
    assert forall|i: int| 0 <= i < data.len() implies #[trigger] assemble::zero_filled(
        words,
        data.len() as int,
        k,
    )[i] == data[i] by {
        lemma_block_is_below(data.len() as int, k, n, i);
        assert(words.dom().contains((i / k) as u32));
    }
    assert(assemble::zero_filled(words, data.len() as int, k) =~= data);
}

// ---------------------------------------------------------------------------
// Laws on the time between anchors
// ---------------------------------------------------------------------------

/// Symbols from the marker of the last meta segment before segment `i` of a plan to the end
/// of segment `i - 1`, where `first` symbols had gone by before the plan began.
spec fn since_meta(c: frame::Cadence, plan: Seq<SegmentPlan>, first: int, i: int) -> int
    decreases i,
{
    if i <= 0 {
        first
    } else if plan[i - 1].count == 0 {
        c.cost(1)
    } else {
        since_meta(c, plan, first, i - 1) + c.cost(plan[i - 1].count as int)
    }
}

/// The count goes on the same without the first segment.
proof fn lemma_since_meta_of_rest(
    c: frame::Cadence,
    plan: Seq<SegmentPlan>,
    rest: Seq<SegmentPlan>,
    first: int,
    i: int,
)
    requires
        plan.len() >= 1,
        rest == plan.drop_first(),
        1 <= i <= plan.len(),
    ensures
        since_meta(c, plan, first, i) == since_meta(c, rest, since_meta(c, plan, first, 1), i - 1),
    decreases i,
{
    if i > 1 {
        lemma_since_meta_of_rest(c, plan, rest, first, i - 1);
        assert(rest[i - 2] == plan[i - 1]);
    }
}

/// An anchor comes exactly where one is due.
proof fn lemma_anchors_are_due(c: frame::Cadence, cursor: int, seg_id: u16, elapsed: int, i: int)
    requires
        0 <= cursor <= c.n <= usize::MAX,
        c.n > 0 ==> c.sound(),
        0 <= i < frame::plan_from(c, cursor, seg_id, elapsed).len(),
    ensures
        ({
            let plan = frame::plan_from(c, cursor, seg_id, elapsed);
            plan[i].count == 0 <==> since_meta(c, plan, elapsed, i) >= c.period
        }),
    decreases
            c.n - cursor,
            (if elapsed >= c.period {
                1int
            } else {
                0
            }),
{
    let plan = frame::plan_from(c, cursor, seg_id, elapsed);
    if cursor < c.n {
        let (rest_cursor, rest_elapsed) = if elapsed >= c.period {
            (cursor, c.cost(1))
        } else {
            let count = frame::next_count(c.n, cursor);
            (cursor + count, elapsed + c.cost(count))
        };
        let rest = frame::plan_from(c, rest_cursor, seg_id.wrapping_add(1), rest_elapsed);
        assert(plan.drop_first() =~= rest);
        if i > 0 {
            assert(plan[i] == rest[i - 1]);
            assert(since_meta(c, plan, elapsed, 1) == rest_elapsed) by {
                reveal_with_fuel(since_meta, 2);
            }
            lemma_since_meta_of_rest(c, plan, rest, elapsed, i);
            lemma_anchors_are_due(c, rest_cursor, seg_id.wrapping_add(1), rest_elapsed, i - 1);
        }
    }
}

/// The count is that of the symbols in the frame.
proof fn lemma_since_meta_is_in_the_frame(
    data: Seq<u8>,
    config: ModemConfig,
    header: AppHeader,
    header_syms: Seq<Symbol>,
    a: int,
    i: int,
)
    requires
        frame::n_sent(config.ldpc_rate, data.len()) <= usize::MAX,
        data.len() > 0 ==> frame::cadence_of(data, config).sound(),
        config.pilot_pattern.d_syms >= 1,
        0 <= a < i <= frame::full_plan(frame::cadence_of(data, config)).len(),
        ({
            let plan = frame::full_plan(frame::cadence_of(data, config));
            &&& plan[a].count == 0
            &&& forall|m: int| a < m < i ==> (#[trigger] plan[m]).count != 0
        }),
    ensures
        ({
            let parts = frame::frame_parts(data, config, header, header_syms);
            let c = frame::cadence_of(data, config);
            let plan = frame::full_plan(c);
            since_meta(c, plan, 0, i) == parts.segments(plan, i).len() - marker_place(
                parts,
                plan,
                a,
            )
        }),
    decreases i,
{
    let parts = frame::frame_parts(data, config, header, header_syms);
    let c = frame::cadence_of(data, config);
    let plan = frame::full_plan(c);
    let s = plan[i - 1];
    encoder::lemma_n_blocks(config.ldpc_rate, data.len());
    frame::lemma_no_data_no_blocks(config.ldpc_rate, data.len());
    frame::law_plan_sends_everything_in_order(c);
    frame::lemma_plan_bounds(plan, 0, c.n, i - 1);
    law_words_have_their_size(data, config, header, header_syms);
    law_segment_has_its_length(parts, config.constellation, config.pilot_pattern, s);
    assert(parts.segments(plan, i) == parts.segments(plan, i - 1) + parts.segment(s));
    if i - 1 > a {
        lemma_since_meta_is_in_the_frame(data, config, header, header_syms, a, i - 1);
    }
}

/// Preamble, header and session header come again every four seconds. In the frame of any
/// payload, no data segment starts four seconds or more behind the marker of the last meta
/// segment, and no further anchor comes, but for a fraction of a symbol, before four seconds
/// are over. Times are counted in symbols at the symbol rate of the configuration.
pub proof fn law_anchors_come_every_four_seconds(
    data: Seq<u8>,
    config: ModemConfig,
    header: AppHeader,
    header_syms: Seq<Symbol>,
    a: int,
    i: int,
)
    requires
        frame::n_sent(config.ldpc_rate, data.len()) <= usize::MAX,
        data.len() > 0 ==> frame::cadence_of(data, config).sound(),
        config.pilot_pattern.d_syms >= 1,
        config.symbol_rate.den > 0,
        0 <= a < i < frame::full_plan(frame::cadence_of(data, config)).len(),
        ({
            let plan = frame::full_plan(frame::cadence_of(data, config));
            &&& plan[a].count == 0
            &&& forall|m: int| a < m < i ==> (#[trigger] plan[m]).count != 0
        }),
    ensures
        ({
            let parts = frame::frame_parts(data, config, header, header_syms);
            let plan = frame::full_plan(frame::cadence_of(data, config));
            let gone = parts.segments(plan, i).len() - marker_place(parts, plan, a);
            &&& plan[i].count != 0 ==> gone * config.symbol_rate.den < 4 * config.symbol_rate.num
            &&& plan[i].count == 0 ==> (gone + 1) * config.symbol_rate.den > 4
                * config.symbol_rate.num
        }),
{
    let parts = frame::frame_parts(data, config, header, header_syms);
    let c = frame::cadence_of(data, config);
    let plan = frame::full_plan(c);
    let rest = frame::plan_from(c, 0, 1, c.cost(1));
    encoder::lemma_n_blocks(config.ldpc_rate, data.len());
    frame::lemma_no_data_no_blocks(config.ldpc_rate, data.len());
    assert(plan.drop_first() =~= rest);
    assert(plan[i] == rest[i - 1]);
    assert(since_meta(c, plan, 0, 1) == c.cost(1)) by {
        reveal_with_fuel(since_meta, 2);
    }
    lemma_since_meta_of_rest(c, plan, rest, 0, i);
    lemma_anchors_are_due(c, 0, 1, c.cost(1), i - 1);
    lemma_since_meta_is_in_the_frame(data, config, header, header_syms, a, i);
    let gone = parts.segments(plan, i).len() - marker_place(parts, plan, a);
    let (num, den) = (config.symbol_rate.num as int, config.symbol_rate.den as int);
    let due = c.period;
    vstd::arithmetic::div_mod::lemma_fundamental_div_mod(4 * num, den);
    assert(gone < due ==> gone * den < 4 * num) by (nonlinear_arith)
        requires
            4 * num == den * due + (4 * num) % den,
            0 <= (4 * num) % den < den,
            den > 0,
    ;
    assert(gone >= due ==> (gone + 1) * den > 4 * num) by (nonlinear_arith)
        requires
            4 * num == den * due + (4 * num) % den,
            0 <= (4 * num) % den < den,
            den > 0,
    ;
}

} // verus!
