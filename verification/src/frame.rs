//! Superframes: preamble and header, a meta segment, data segments between resync
//! markers, and a fresh preamble, header and meta segment about every four seconds.
//!
//! Anchors are only inserted between segments, and a segment is a whole number of
//! codewords, so that no codeword is ever split. A data segment always holds two codewords:
//! where the payload has an odd number of them, the fountain packet behind the last one
//! fills the last segment.
//!
//! Preamble and pilots have the training amplitude of the configuration, and between
//! preamble and header stand the known symbols on which an equalizer settles.

use vstd::prelude::*;

use crate::app_header;
use crate::app_header::AppHeader;
use crate::bits;
use crate::constellation;
use crate::constellation::{apsk, ring, Constellation};
use crate::interleaver;
use crate::ldpc::code;
use crate::ldpc::encoder;
use crate::ldpc::encoder::LdpcEncoder;
use crate::marker;
use crate::marker::{MarkerPayload, META_FLAG_BIT};
use crate::pilot;
use crate::preamble;
use crate::profile::{ConstellationType, LdpcRate, ModemConfig, PilotPattern, ProfileIndex};
use crate::raptorq_codec;
use crate::ratio::Ratio;
use crate::symbol;
use crate::symbol::Symbol;

verus! {

/// Header version of this frame layout.
pub const HEADER_VERSION_V3: u8 = 3;

/// Data codewords per segment.
pub const V2_CODEWORDS_PER_SEGMENT: usize = 2;

/// Target time between anchors, in seconds.
pub const V3_PREAMBLE_PERIOD_S: u64 = 4;

/// Pilot groups of filler behind the last segment.
pub const EXTRA_PILOT_GROUPS: usize = 4;

/// Filler symbols at the very end.
pub const RUNOUT_LEN: usize = 24;

// ---------------------------------------------------------------------------
// Constellation
// ---------------------------------------------------------------------------

/// The ring ratios that the constellation needs are there, in rising order.
pub open spec fn rings_ready(config: ModemConfig) -> bool {
    match config.constellation {
        ConstellationType::Qpsk => true,
        ConstellationType::Psk8 => true,
        ConstellationType::Apsk16 => {
            &&& config.apsk_gamma.den > 0
            &&& constellation::below(constellation::unit_ratio(), config.apsk_gamma)
        },
        ConstellationType::Apsk32 => {
            &&& constellation::rings_fit_32(config.apsk_gamma, config.apsk_gamma2)
            &&& constellation::below(constellation::unit_ratio(), config.apsk_gamma)
            &&& constellation::below(config.apsk_gamma, config.apsk_gamma2)
        },
        ConstellationType::Apsk64 => {
            &&& constellation::rings_fit_64(
                config.apsk_gamma,
                config.apsk_gamma2,
                config.apsk_gamma3,
            )
            &&& constellation::below(constellation::unit_ratio(), config.apsk_gamma)
            &&& constellation::below(config.apsk_gamma, config.apsk_gamma2)
            &&& constellation::below(config.apsk_gamma2, config.apsk_gamma3)
        },
    }
}

/// Whether the ring ratios that the constellation needs are there, in rising order.
pub fn check_rings(config: &ModemConfig) -> (ready: bool)
    ensures
        ready == rings_ready(*config),
{
    let one = Ratio { num: 1, den: 1 };
    let (g1, g2, g3) = (config.apsk_gamma, config.apsk_gamma2, config.apsk_gamma3);
    match config.constellation {
        ConstellationType::Qpsk => true,
        ConstellationType::Psk8 => true,
        ConstellationType::Apsk16 => g1.den > 0 && constellation::check_below(one, g1),
        ConstellationType::Apsk32 => constellation::check_rings_32(g1, g2)
            && constellation::check_below(one, g1) && constellation::check_below(g1, g2),
        ConstellationType::Apsk64 => constellation::check_rings_64(g1, g2, g3)
            && constellation::check_below(one, g1) && constellation::check_below(g1, g2)
            && constellation::check_below(g2, g3),
    }
}

/// Rounding keeps the rings of the constellation apart.
pub open spec fn rings_stay_apart(config: ModemConfig) -> bool {
    match config.constellation {
        ConstellationType::Qpsk => true,
        ConstellationType::Psk8 => true,
        ConstellationType::Apsk16 => true,
        ConstellationType::Apsk32 => constellation::rings_apart(
            constellation::radii_32(config.apsk_gamma, config.apsk_gamma2),
        ),
        ConstellationType::Apsk64 => constellation::rings_apart(
            constellation::radii_64(config.apsk_gamma, config.apsk_gamma2, config.apsk_gamma3),
        ),
    }
}

/// The points of a configuration by label.
pub open spec fn points_of(config: ModemConfig) -> Seq<Symbol> {
    match config.constellation {
        ConstellationType::Qpsk => constellation::qpsk_points(),
        ConstellationType::Psk8 => constellation::psk8_points(),
        ConstellationType::Apsk16 => Seq::new(
            16,
            |label: int|
                apsk::point_at(apsk::place_16(label), constellation::radii_16(config.apsk_gamma)),
        ),
        ConstellationType::Apsk32 => Seq::new(
            32,
            |label: int|
                apsk::point_at(
                    apsk::place_32(label),
                    constellation::radii_32(config.apsk_gamma, config.apsk_gamma2),
                ),
        ),
        ConstellationType::Apsk64 => Seq::new(
            64,
            |label: int|
                apsk::point_at(
                    apsk::place_64(label),
                    constellation::radii_64(
                        config.apsk_gamma,
                        config.apsk_gamma2,
                        config.apsk_gamma3,
                    ),
                ),
        ),
    }
}

/// The constellation of a configuration.
pub fn make_constellation(config: &ModemConfig) -> (c: Constellation)
    requires
        rings_ready(*config),
    ensures
        c.well_formed(),
        c.bits_per_sym == config.constellation.spec_bits_per_sym(),
        c.points@ == points_of(*config),
        rings_stay_apart(*config) ==> constellation::distinct(c.points@),
{
    match config.constellation {
        ConstellationType::Qpsk => constellation::qpsk_gray(),
        ConstellationType::Psk8 => constellation::psk8_gray(),
        ConstellationType::Apsk16 => constellation::apsk16_dvbs2(config.apsk_gamma),
        ConstellationType::Apsk32 => constellation::apsk32_dvbs2(
            config.apsk_gamma,
            config.apsk_gamma2,
        ),
        ConstellationType::Apsk64 => constellation::apsk64_dvbs2x(
            config.apsk_gamma,
            config.apsk_gamma2,
            config.apsk_gamma3,
        ),
    }
}

/// Amplitude of training symbols, in units of `1 / symbol::ONE`: the radius of the
/// outermost ring of 64-APSK, else 1.
pub open spec fn amplitude_of(config: ModemConfig) -> int {
    match config.constellation {
        ConstellationType::Apsk64 => constellation::radii_64(
            config.apsk_gamma,
            config.apsk_gamma2,
            config.apsk_gamma3,
        )[3],
        _ => symbol::ONE as int,
    }
}

impl ModemConfig {
    /// Amplitude of training symbols, in units of `1 / symbol::ONE`.
    pub fn training_amplitude(&self) -> (a: u64)
        requires
            rings_ready(*self),
        ensures
            a == amplitude_of(*self),
            a <= 0x80_0000_0000_0000,
    {
        match self.constellation {
            ConstellationType::Apsk64 => {
                let radii = constellation::ring_radii_64(
                    self.apsk_gamma,
                    self.apsk_gamma2,
                    self.apsk_gamma3,
                );
                assert(apsk::as_radii(radii@).len() == 4);
                assert(apsk::as_radii(radii@)[3] == radii@[3]);
                radii[3]
            },
            _ => symbol::ONE as u64,
        }
    }
}

/// Training symbols of 64-APSK belong to the constellation: the QPSK points at the
/// training amplitude are those of the first four labels.
pub proof fn law_training_symbols_are_points(config: ModemConfig)
    requires
        config.constellation == ConstellationType::Apsk64,
    ensures
        points_of(config)[0] == ring::scaled(symbol::diagonal_point(0), amplitude_of(config)),
        points_of(config)[1] == ring::scaled(symbol::diagonal_point(3), amplitude_of(config)),
        points_of(config)[2] == ring::scaled(symbol::diagonal_point(1), amplitude_of(config)),
        points_of(config)[3] == ring::scaled(symbol::diagonal_point(2), amplitude_of(config)),
{
    apsk::lemma_first_labels_of_64(0);
    apsk::lemma_first_labels_of_64(1);
    apsk::lemma_first_labels_of_64(2);
    apsk::lemma_first_labels_of_64(3);
    ring::lemma_diagonals_are_directions(0);
    ring::lemma_diagonals_are_directions(1);
    ring::lemma_diagonals_are_directions(2);
    ring::lemma_diagonals_are_directions(3);
}

/// The known symbols between preamble and header: every point of 64-APSK once, in the order
/// of the labels; none for the other constellations.
pub open spec fn warmup_of(config: ModemConfig) -> Seq<Symbol> {
    match config.constellation {
        ConstellationType::Apsk64 => points_of(config),
        _ => Seq::empty(),
    }
}

/// The known symbols between preamble and header, on which the equalizer settles.
pub fn make_lms_warmup_for_config(config: &ModemConfig) -> (symbols: Vec<Symbol>)
    requires
        rings_ready(*config),
    ensures
        symbols@ == warmup_of(*config),
        symbols@.len() == config.spec_warmup_syms(),
{
    match config.constellation {
        ConstellationType::Apsk64 => make_constellation(config).points,
        _ => {
            let none: Vec<Symbol> = Vec::new();
            assert(none@ =~= warmup_of(*config));
            none
        },
    }
}

/// The preamble of a configuration, at its training amplitude.
pub open spec fn preamble_of(config: ModemConfig) -> Seq<Symbol> {
    ring::all_scaled(preamble::preamble_symbols(), amplitude_of(config))
}

/// The preamble of a configuration, at its training amplitude.
pub fn make_scaled_preamble(config: &ModemConfig) -> (symbols: Vec<Symbol>)
    requires
        rings_ready(*config),
    ensures
        symbols@ == preamble_of(*config),
        symbols@.len() == 256,
{
    let unit = preamble::make_preamble();
    proof {
        assert forall|i: int| 0 <= i < unit@.len() implies ring::in_unit(
            #[trigger] unit@[i],
        ) by {
            preamble::law_preamble_is_qpsk(i);
        }
    }
    ring::scale_all(&unit, config.training_amplitude())
}

// ---------------------------------------------------------------------------
// Codewords
// ---------------------------------------------------------------------------

/// The codeword of some info bits.
pub open spec fn codeword_of(rate: LdpcRate, info: Seq<u8>) -> Seq<u8> {
    choose|word: Seq<u8>|
        code::is_codeword(rate, word) && word.take(rate.spec_k() as int) == info
}

/// Bits of a codeword after filling up to whole symbols.
pub open spec fn sent_bits(ct: ConstellationType) -> int {
    interleaver::padded(2304, ct.spec_bits_per_sym() as int)
}

/// Symbols of a codeword.
pub open spec fn word_len(ct: ConstellationType) -> int {
    sent_bits(ct) / ct.spec_bits_per_sym() as int
}

/// A codeword filled up with zeros to whole symbols.
pub open spec fn filled_word(word: Seq<u8>, ct: ConstellationType) -> Seq<u8> {
    Seq::new(
        sent_bits(ct) as nat,
        |i: int|
            if i < word.len() {
                word[i]
            } else {
                0u8
            },
    )
}

/// The symbols of a codeword with given info bits.
pub open spec fn word_symbols(config: ModemConfig, info: Seq<u8>) -> Seq<Symbol> {
    let ct = config.constellation;
    constellation::mapped(
        points_of(config),
        ct.spec_bits_per_sym() as int,
        interleaver::permuted(
            filled_word(codeword_of(config.ldpc_rate, info), ct),
            interleaver::interleaving(sent_bits(ct), ct),
        ),
    )
}

/// Sizes of the codewords in each constellation.
pub proof fn lemma_word_sizes(ct: ConstellationType)
    ensures
        2304 <= sent_bits(ct) <= 2310,
        sent_bits(ct) % (ct.spec_bits_per_sym() as int) == 0,
        384 <= word_len(ct) <= 1152,
        word_len(ct) * ct.spec_bits_per_sym() == sent_bits(ct),
{
    let m = ct.spec_bits_per_sym() as int;
    if m == 5 {
        assert(interleaver::padded(2304, 5) == 2305);
    }
}

/// Encode one block of info bytes: LDPC, interleaving, mapping.
fn encode_one_codeword(
    info_bytes: &[u8],
    config: &ModemConfig,
    ldpc: &LdpcEncoder,
    table: &[usize],
    points: &Constellation,
) -> (syms: Vec<Symbol>)
    requires
        ldpc.spec_rate() == config.ldpc_rate,
        8 * info_bytes@.len() == config.ldpc_rate.spec_k(),
        points.well_formed(),
        points.points@ == points_of(*config),
        points.bits_per_sym == config.constellation.spec_bits_per_sym(),
        table@ == interleaver::interleaving(
            sent_bits(config.constellation),
            config.constellation,
        ),
        forall|i: int| 0 <= i < table@.len() ==> #[trigger] table@[i] < table@.len(),
    ensures
        syms@ == word_symbols(*config, bits::unpack(info_bytes@)),
        syms@.len() == word_len(config.constellation),
{
    let ct = config.constellation;
    let info = bits::bytes_to_bits(info_bytes);
    let mut word = ldpc.encode(info.as_slice());
    let ghost coded = word@;
    let n: usize = interleaver::padded_cw_bits(2304, ct);
    proof {
        lemma_word_sizes(ct);
        let w = codeword_of(config.ldpc_rate, info@);
        assert(code::is_codeword(config.ldpc_rate, coded) && coded.take(
            config.ldpc_rate.spec_k() as int,
        ) == info@);
        code::law_codeword_is_determined_by_info(config.ldpc_rate, coded, w);
    }
    while word.len() < n
        invariant
            coded.len() == 2304,
            n == sent_bits(ct),
            2304 <= word@.len() <= n,
            word@ == filled_word(coded, ct).take(word@.len() as int),
        decreases n - word@.len(),
    {
        let ghost at = word@.len() as int;
        word.push(0);
        assert(filled_word(coded, ct).take(at + 1) =~= filled_word(coded, ct).take(at).push(0));
    }
    assert(word@ =~= filled_word(coded, ct));
    let interleaved = interleaver::apply_permutation(word.as_slice(), table);
    let syms = points.map_bits(interleaved.as_slice());
    syms
}

// ---------------------------------------------------------------------------
// Segments
// ---------------------------------------------------------------------------

/// One segment of a frame. A meta segment has no data codewords.
#[derive(Clone, Copy, Debug, PartialEq, Eq, Structural)]
pub struct SegmentPlan {
    /// The number of the segment.
    pub seg_id: u16,
    /// The first data codeword of the segment, or the next one for a meta segment.
    pub base: usize,
    /// Data codewords in the segment; 0 for a meta segment, which has an anchor
    /// of preamble and header before it.
    pub count: usize,
}

/// Symbols of a segment with `count` codewords, with its marker and pilots.
pub open spec fn segment_cost(ct: ConstellationType, pattern: PilotPattern, count: int) -> int {
    64 + pilot::total_symbols(
        count * word_len(ct),
        pattern.d_syms as int,
        pattern.p_syms as int,
    )
}

/// What decides where anchors go.
pub struct Cadence {
    /// Data codewords.
    pub n: int,
    /// Symbols after which an anchor is due.
    pub period: int,
    pub ct: ConstellationType,
    pub pattern: PilotPattern,
}

impl Cadence {
    /// Symbols of a segment with `count` codewords, with its marker and pilots.
    pub open spec fn cost(self, count: int) -> int {
        segment_cost(self.ct, self.pattern, count)
    }

    /// A meta segment alone does not make the next anchor due.
    pub open spec fn sound(self) -> bool {
        self.cost(1) < self.period
    }
}

/// Data codewords of the next data segment.
pub open spec fn next_count(n: int, cursor: int) -> int {
    if n - cursor < 2 {
        n - cursor
    } else {
        2
    }
}

/// The segments from data codeword `cursor` on, `elapsed` symbols after the last anchor.
pub open spec fn plan_from(c: Cadence, cursor: int, seg_id: u16, elapsed: int) -> Seq<SegmentPlan>
    decreases
            c.n - cursor,
            (if elapsed >= c.period {
                1int
            } else {
                0
            }),
{
    if cursor < 0 || cursor >= c.n {
        Seq::empty()
    } else if elapsed >= c.period && c.sound() {
        seq![SegmentPlan { seg_id, base: cursor as usize, count: 0 }] + plan_from(
            c,
            cursor,
            seg_id.wrapping_add(1),
            c.cost(1),
        )
    } else {
        let count = next_count(c.n, cursor);
        seq![SegmentPlan { seg_id, base: cursor as usize, count: count as usize }] + plan_from(
            c,
            cursor + count,
            seg_id.wrapping_add(1),
            elapsed + c.cost(count),
        )
    }
}

/// All segments of a frame: a meta segment, then the data with further meta segments.
pub open spec fn full_plan(c: Cadence) -> Seq<SegmentPlan> {
    seq![SegmentPlan { seg_id: 0, base: 0, count: 0 }] + plan_from(c, 0, 1, c.cost(1))
}

/// Symbols are the more, the more data there is.
proof fn lemma_total_grows(a: int, b: int, d: int, p: int)
    requires
        0 <= a <= b,
        d >= 1,
        p >= 0,
    ensures
        0 <= pilot::total_symbols(a, d, p) <= pilot::total_symbols(b, d, p),
        pilot::n_groups(a, d) >= 0,
        pilot::n_groups(b, d) <= b,
{
    vstd::arithmetic::div_mod::lemma_div_is_ordered(a + d - 1, b + d - 1, d);
    let x = pilot::n_groups(a, d);
    let y = pilot::n_groups(b, d);
    vstd::arithmetic::div_mod::lemma_div_pos_is_pos(a + d - 1, d);
    assert(0 <= x * p <= y * p) by (nonlinear_arith)
        requires
            0 <= x <= y,
            p >= 0,
    ;
    vstd::arithmetic::div_mod::lemma_fundamental_div_mod(b + d - 1, d);
    assert(y <= b) by (nonlinear_arith)
        requires
            b + d - 1 == d * y + (b + d - 1) % d,
            0 <= (b + d - 1) % d < d,
            d >= 1,
            b >= 0,
    ;
}

/// Bound on the symbols of a segment with its marker.
pub open spec fn segment_room(pattern: PilotPattern) -> int {
    64 + pilot::total_symbols(2304, pattern.d_syms as int, pattern.p_syms as int)
}

/// The lengths of segments and of the tail can be computed.
pub open spec fn pattern_fits(pattern: PilotPattern) -> bool {
    &&& pattern.d_syms >= 1
    &&& segment_room(pattern) <= usize::MAX
    &&& 4 * (pattern.d_syms + pattern.p_syms) + RUNOUT_LEN <= usize::MAX
}

proof fn lemma_segment_cost(ct: ConstellationType, pattern: PilotPattern, count: int)
    requires
        pattern.d_syms >= 1,
        0 <= count <= 2,
    ensures
        64 <= segment_cost(ct, pattern, count) <= segment_room(pattern),
        0 <= count * word_len(ct) <= 2304,
        pilot::n_groups(count * word_len(ct), pattern.d_syms as int) >= 0,
        0 <= pilot::n_groups(count * word_len(ct), pattern.d_syms as int) * pattern.p_syms,
{
    lemma_word_sizes(ct);
    let w = word_len(ct);
    assert(0 <= count * w <= 2304) by (nonlinear_arith)
        requires
            0 <= count <= 2,
            0 <= w <= 1152,
    ;
    let d = pattern.d_syms as int;
    let p = pattern.p_syms as int;
    lemma_total_grows(count * w, 2304, d, p);
    lemma_total_grows(0, count * w, d, p);
    let g = pilot::n_groups(count * w, d);
    assert(0 <= g * p) by (nonlinear_arith)
        requires
            0 <= g,
            0 <= p,
    ;
}

/// Symbols of a segment with `count` codewords, with its marker and pilots.
fn cost_of(ct: ConstellationType, pattern: &PilotPattern, count: usize) -> (cost: u64)
    requires
        pattern_fits(*pattern),
        count <= 2,
    ensures
        cost == segment_cost(ct, *pattern, count as int),
        cost <= segment_room(*pattern),
{
    proof {
        lemma_word_sizes(ct);
        lemma_segment_cost(ct, *pattern, count as int);
    }
    let m: usize = ct.bits_per_sym();
    let w: usize = interleaver::padded_cw_bits(2304, ct) / m;
    let n: u64 = count as u64 * w as u64;
    let d: u64 = pattern.d_syms as u64;
    let groups: u64 = (n + d - 1) / d;
    assert(groups == pilot::n_groups(count * word_len(ct), pattern.d_syms as int));
    64 + n + groups * pattern.p_syms as u64
}

/// Plan the segments of a frame with `n` data codewords.
pub fn plan_segments(n: usize, period: u64, ct: ConstellationType, pattern: &PilotPattern) -> (plan:
    Vec<SegmentPlan>)
    requires
        pattern_fits(*pattern),
        n > 0 ==> segment_cost(ct, *pattern, 1) < period,
        period + segment_room(*pattern) <= u64::MAX,
    ensures
        plan@ == full_plan(Cadence { n: n as int, period: period as int, ct, pattern: *pattern }),
{
    let ghost c = Cadence { n: n as int, period: period as int, ct, pattern: *pattern };
    let meta_cost: u64 = cost_of(ct, pattern, 1);
    let mut plan: Vec<SegmentPlan> = Vec::new();
    plan.push(SegmentPlan { seg_id: 0, base: 0, count: 0 });
    let mut seg_id: u16 = 1;
    let mut cursor: usize = 0;
    let mut elapsed: u64 = meta_cost;
    while cursor < n
        invariant
            cursor <= n,
            pattern_fits(*pattern),
            n > 0 ==> c.sound(),
            period + segment_room(*pattern) <= u64::MAX,
            meta_cost <= segment_room(*pattern),
            c == (Cadence { n: n as int, period: period as int, ct, pattern: *pattern }),
            meta_cost == c.cost(1),
            elapsed <= period + segment_room(*pattern),
            full_plan(c) == plan@ + plan_from(c, cursor as int, seg_id, elapsed as int),
        decreases
                n - cursor,
                (if elapsed >= period {
                    1int
                } else {
                    0
                }),
    {
        if elapsed >= period {
            plan.push(SegmentPlan { seg_id, base: cursor, count: 0 });
            elapsed = meta_cost;
        } else {
            let count: usize = if n - cursor < V2_CODEWORDS_PER_SEGMENT {
                n - cursor
            } else {
                V2_CODEWORDS_PER_SEGMENT
            };
            plan.push(SegmentPlan { seg_id, base: cursor, count });
            let cost: u64 = cost_of(ct, pattern, count);
            elapsed = elapsed + cost;
            cursor = cursor + count;
        }
        seg_id = seg_id.wrapping_add(1);
        assert(full_plan(c) =~= plan@ + plan_from(c, cursor as int, seg_id, elapsed as int));
    }
    assert(plan@ + Seq::<SegmentPlan>::empty() =~= plan@);
    plan
}

// ---------------------------------------------------------------------------
// Laws on the plan
// ---------------------------------------------------------------------------

/// Codewords follow one another from `cursor` to `n`, at most two in a segment.
pub open spec fn in_order(plan: Seq<SegmentPlan>, cursor: int, n: int) -> bool
    decreases plan.len(),
{
    if plan.len() == 0 {
        cursor == n
    } else {
        &&& plan[0].base == cursor
        &&& plan[0].count <= 2
        &&& in_order(plan.drop_first(), cursor + plan[0].count, n)
    }
}

/// Segments in order do not go beyond the last codeword.
pub proof fn lemma_in_order_bound(plan: Seq<SegmentPlan>, cursor: int, n: int)
    requires
        in_order(plan, cursor, n),
    ensures
        cursor <= n,
        plan.len() > 0 ==> cursor + plan[0].count <= n,
    decreases plan.len(),
{
    if plan.len() > 0 {
        lemma_in_order_bound(plan.drop_first(), cursor + plan[0].count, n);
    }
}

/// Segments are numbered one by one from `seg_id` on.
pub open spec fn numbered(plan: Seq<SegmentPlan>, seg_id: u16) -> bool
    decreases plan.len(),
{
    plan.len() > 0 ==> {
        &&& plan[0].seg_id == seg_id
        &&& numbered(plan.drop_first(), seg_id.wrapping_add(1))
    }
}

/// A data segment only starts while no anchor is due.
pub open spec fn anchored(plan: Seq<SegmentPlan>, elapsed: int, c: Cadence) -> bool
    decreases plan.len(),
{
    plan.len() > 0 ==> if plan[0].count == 0 {
        anchored(plan.drop_first(), c.cost(1), c)
    } else {
        &&& elapsed < c.period
        &&& anchored(plan.drop_first(), elapsed + c.cost(plan[0].count as int), c)
    }
}

proof fn lemma_plan(c: Cadence, cursor: int, seg_id: u16, elapsed: int)
    requires
        0 <= cursor <= c.n <= usize::MAX,
        c.n > 0 ==> c.sound(),
    ensures
        in_order(plan_from(c, cursor, seg_id, elapsed), cursor, c.n),
        numbered(plan_from(c, cursor, seg_id, elapsed), seg_id),
        anchored(plan_from(c, cursor, seg_id, elapsed), elapsed, c),
    decreases
            c.n - cursor,
            (if elapsed >= c.period {
                1int
            } else {
                0
            }),
{
    let plan = plan_from(c, cursor, seg_id, elapsed);
    if cursor < c.n {
        if elapsed >= c.period {
            lemma_plan(c, cursor, seg_id.wrapping_add(1), c.cost(1));
            assert(plan.drop_first() =~= plan_from(
                c,
                cursor,
                seg_id.wrapping_add(1),
                c.cost(1),
            ));
        } else {
            let count = next_count(c.n, cursor);
            lemma_plan(c, cursor + count, seg_id.wrapping_add(1), elapsed + c.cost(count));
            assert(plan.drop_first() =~= plan_from(
                c,
                cursor + count,
                seg_id.wrapping_add(1),
                elapsed + c.cost(count),
            ));
        }
    }
}

/// Where the number of data codewords is even, every data segment holds two. The first
/// codeword that a segment names is one of them.
pub proof fn lemma_pairs(c: Cadence, cursor: int, seg_id: u16, elapsed: int, i: int)
    requires
        0 <= cursor <= c.n <= usize::MAX,
        c.n > 0 ==> c.sound(),
        0 <= i < plan_from(c, cursor, seg_id, elapsed).len(),
    ensures
        plan_from(c, cursor, seg_id, elapsed)[i].base < c.n,
        (c.n - cursor) % 2 == 0 ==> {
            let count = plan_from(c, cursor, seg_id, elapsed)[i].count;
            count == 0 || count == 2
        },
    decreases
            c.n - cursor,
            (if elapsed >= c.period {
                1int
            } else {
                0
            }),
{
    let plan = plan_from(c, cursor, seg_id, elapsed);
    if cursor < c.n {
        let (rest_cursor, rest_elapsed) = if elapsed >= c.period {
            (cursor, c.cost(1))
        } else {
            let count = next_count(c.n, cursor);
            (cursor + count, elapsed + c.cost(count))
        };
        let rest = plan_from(c, rest_cursor, seg_id.wrapping_add(1), rest_elapsed);
        assert(plan.drop_first() =~= rest);
        if i > 0 {
            assert(plan[i] == rest[i - 1]);
            lemma_pairs(c, rest_cursor, seg_id.wrapping_add(1), rest_elapsed, i - 1);
        }
    }
}

/// A frame with an even number of data codewords has two in every data segment.
pub proof fn law_data_segments_are_full(c: Cadence, i: int)
    requires
        0 <= c.n <= usize::MAX,
        c.n % 2 == 0,
        c.n > 0 ==> c.sound(),
        0 <= i < full_plan(c).len(),
    ensures
        full_plan(c)[i].count == 0 || full_plan(c)[i].count == 2,
        full_plan(c)[i].base < c.n || full_plan(c)[i].base == 0,
{
    if i > 0 {
        let rest = plan_from(c, 0, 1, c.cost(1));
        assert(full_plan(c)[i] == rest[i - 1]);
        lemma_pairs(c, 0, 1, c.cost(1), i - 1);
    }
}

/// A frame sends every data codeword exactly once and in order, numbers its segments
/// one by one, opens with a meta segment, and starts no data segment once an anchor
/// is due.
pub proof fn law_plan_sends_everything_in_order(c: Cadence)
    requires
        0 <= c.n <= usize::MAX,
        c.n > 0 ==> c.sound(),
    ensures
        full_plan(c).len() > 0,
        full_plan(c)[0].count == 0,
        in_order(full_plan(c), 0, c.n),
        numbered(full_plan(c), 0),
        anchored(full_plan(c), 0, c),
{
    lemma_plan(c, 0, 1, c.cost(1));
    let plan = full_plan(c);
    assert(plan.drop_first() =~= plan_from(c, 0, 1, c.cost(1)));
    assert(0u16.wrapping_add(1) == 1);
}

// ---------------------------------------------------------------------------
// Symbols
// ---------------------------------------------------------------------------

/// Filler symbol `k`: the two points of one diagonal in turn.
pub open spec fn filler(k: int) -> Symbol {
    if k % 2 == 0 {
        symbol::diagonal_point(0)
    } else {
        symbol::diagonal_point(2)
    }
}

fn runout_filler_symbol(k: usize) -> (s: Symbol)
    ensures
        s == filler(k as int),
{
    if k % 2 == 0 {
        Symbol::diagonal(0)
    } else {
        Symbol::diagonal(2)
    }
}

/// Filler with pilots behind the last segment, group by group.
pub open spec fn filler_groups(d: int, p: int, amplitude: int, groups: int) -> Seq<Symbol>
    decreases groups,
{
    if groups <= 0 {
        Seq::empty()
    } else {
        filler_groups(d, p, amplitude, groups - 1) + Seq::new(
            d as nat,
            |k: int| filler((groups - 1) * d + k),
        ) + ring::all_scaled(pilot::group_pilots(groups - 1, p), amplitude)
    }
}

/// Everything behind the last segment.
pub open spec fn tail_of(d: int, p: int, amplitude: int) -> Seq<Symbol> {
    filler_groups(d, p, amplitude, 4) + Seq::new(24, |k: int| filler(4 * d + k))
}

fn push_filler(out: &mut Vec<Symbol>, start: usize, count: usize)
    requires
        start + count <= usize::MAX,
    ensures
        final(out)@ == old(out)@ + Seq::new(count as nat, |k: int| filler(start + k)),
{
    let ghost before = out@;
    let ghost all = Seq::new(count as nat, |k: int| filler(start + k));
    let mut k: usize = 0;
    assert(before + all.take(0) =~= before);
    while k < count
        invariant
            k <= count,
            start + count <= usize::MAX,
            all == Seq::new(count as nat, |k: int| filler(start + k)),
            out@ == before + all.take(k as int),
        decreases count - k,
    {
        out.push(runout_filler_symbol(start + k));
        k = k + 1;
        assert(out@ =~= before + all.take(k as int));
    }
    assert(all.take(k as int) =~= all);
}

fn push_tail(out: &mut Vec<Symbol>, pattern: &PilotPattern, amplitude: u64)
    requires
        pattern_fits(*pattern),
        amplitude <= 0x80_0000_0000_0000,
    ensures
        final(out)@ == old(out)@ + tail_of(
            pattern.d_syms as int,
            pattern.p_syms as int,
            amplitude as int,
        ),
{
    let d: usize = pattern.d_syms;
    let p: usize = pattern.p_syms;
    let ghost before = out@;
    let mut g: usize = 0;
    assert(before + filler_groups(d as int, p as int, amplitude as int, 0) =~= before);
    while g < EXTRA_PILOT_GROUPS
        invariant
            g <= 4,
            pattern_fits(*pattern),
            amplitude <= 0x80_0000_0000_0000,
            d == pattern.d_syms,
            p == pattern.p_syms,
            out@ == before + filler_groups(d as int, p as int, amplitude as int, g as int),
        decreases 4 - g,
    {
        proof {
            assert(0 <= g * d <= 3 * d && 0 <= g * p <= 3 * p) by (nonlinear_arith)
                requires
                    0 <= g <= 3,
                    0 <= d,
                    0 <= p,
            ;
        }
        push_filler(out, g * d, d);
        let mut pilots = pilot::pilots_at(g, pattern, amplitude);
        out.append(&mut pilots);
        g = g + 1;
        assert(out@ =~= before + filler_groups(d as int, p as int, amplitude as int, g as int));
    }
    push_filler(out, 4 * d, RUNOUT_LEN);
    assert(out@ =~= before + tail_of(d as int, p as int, amplitude as int));
}

/// The parts that a frame is put together from.
pub struct FrameParts {
    pub preamble: Seq<Symbol>,
    /// Known symbols between preamble and header.
    pub warmup: Seq<Symbol>,
    pub header: Seq<Symbol>,
    pub meta: Seq<Symbol>,
    pub words: Seq<Seq<Symbol>>,
    pub session_id_low: u8,
    pub d: int,
    pub p: int,
    /// Amplitude of the pilots.
    pub amplitude: int,
}

impl FrameParts {
    /// The marker of a segment.
    pub open spec fn marker(self, s: SegmentPlan) -> MarkerPayload {
        MarkerPayload {
            seg_id: s.seg_id,
            session_id_low: self.session_id_low,
            base_esi: s.base as u32,
            flags: if s.count == 0 {
                META_FLAG_BIT
            } else {
                0
            },
        }
    }

    /// The symbols of the codewords of a segment.
    pub open spec fn payload(self, s: SegmentPlan) -> Seq<Symbol> {
        if s.count == 0 {
            self.meta
        } else if s.count == 1 {
            self.words[s.base as int]
        } else {
            self.words[s.base as int] + self.words[s.base + 1]
        }
    }

    /// All symbols of a segment, with the anchor before a meta segment.
    pub open spec fn segment(self, s: SegmentPlan) -> Seq<Symbol> {
        (if s.count == 0 {
            self.preamble + self.warmup + self.header
        } else {
            Seq::empty()
        }) + marker::sync_symbols() + marker::control_symbols(self.marker(s))
            + pilot::with_pilots_at(self.payload(s), self.d, self.p, self.amplitude)
    }

    /// All symbols of the first `i` segments.
    pub open spec fn segments(self, plan: Seq<SegmentPlan>, i: int) -> Seq<Symbol>
        decreases i,
    {
        if i <= 0 {
            Seq::empty()
        } else {
            self.segments(plan, i - 1) + self.segment(plan[i - 1])
        }
    }

    /// All symbols of a frame.
    pub open spec fn frame(self, plan: Seq<SegmentPlan>) -> Seq<Symbol> {
        self.segments(plan, plan.len() as int) + tail_of(self.d, self.p, self.amplitude)
    }
}

/// The session header of a frame.
pub open spec fn frame_header(
    data: Seq<u8>,
    config: ModemConfig,
    session_id: u32,
    mime_type: u8,
    hash_short: u16,
) -> AppHeader {
    AppHeader {
        session_id,
        file_size: data.len() as u32,
        k_symbols: encoder::n_blocks(config.ldpc_rate, data.len()) as u16,
        t_bytes: (config.ldpc_rate.spec_k() / 8) as u8,
        mode_code: config.spec_mode_code() as u8,
        mime_type,
        hash_short,
    }
}

/// Data codewords that are sent: those of the payload, and one more where their number is
/// odd.
pub open spec fn n_sent(rate: LdpcRate, len: nat) -> int {
    encoder::n_blocks(rate, len) + encoder::n_blocks(rate, len) % 2
}

/// The bytes of the codeword that fills the last segment: the fountain packet behind those
/// of the payload, or zeros where the payload is too large for the fountain code.
pub open spec fn spare_block(rate: LdpcRate, data: Seq<u8>) -> Seq<u8> {
    let k = (rate.spec_k() / 8) as int;
    if raptorq_codec::fits_one_block(data.len() as int, k) {
        raptorq_codec::packet_of(
            raptorq_codec::filled(data, k),
            k as nat,
            encoder::n_blocks(rate, data.len()) as nat,
        )
    } else {
        Seq::new(k as nat, |i: int| 0u8)
    }
}

/// The information bits of data codeword `b`.
pub open spec fn sent_info(rate: LdpcRate, data: Seq<u8>, b: int) -> Seq<u8> {
    if b < encoder::n_blocks(rate, data.len()) {
        encoder::block_bits(rate, data, b)
    } else {
        bits::unpack(spare_block(rate, data))
    }
}

/// The parts of a frame.
pub open spec fn frame_parts(
    data: Seq<u8>,
    config: ModemConfig,
    header: AppHeader,
    header_syms: Seq<Symbol>,
) -> FrameParts {
    FrameParts {
        preamble: preamble_of(config),
        warmup: warmup_of(config),
        header: header_syms,
        meta: word_symbols(
            config,
            bits::unpack(
                app_header::meta_payload(header, (config.ldpc_rate.spec_k() / 8) as nat),
            ),
        ),
        words: Seq::new(
            n_sent(config.ldpc_rate, data.len()) as nat,
            |b: int| word_symbols(config, sent_info(config.ldpc_rate, data, b)),
        ),
        session_id_low: (header.session_id & 0xFF) as u8,
        d: config.pilot_pattern.d_syms as int,
        p: config.pilot_pattern.p_syms as int,
        amplitude: amplitude_of(config),
    }
}

/// Symbols after which an anchor is due.
pub open spec fn period_of(config: ModemConfig) -> int {
    (4 * config.symbol_rate.num) / (config.symbol_rate.den as int)
}

/// What decides where the anchors of a frame go.
pub open spec fn cadence_of(data: Seq<u8>, config: ModemConfig) -> Cadence {
    Cadence {
        n: n_sent(config.ldpc_rate, data.len()),
        period: period_of(config),
        ct: config.constellation,
        pattern: config.pilot_pattern,
    }
}

/// Append one segment.
fn push_segment(
    out: &mut Vec<Symbol>,
    seg: SegmentPlan,
    session_id_low: u8,
    anchor: &Vec<Symbol>,
    amplitude: u64,
    meta: &Vec<Symbol>,
    words: &Vec<Vec<Symbol>>,
    pattern: &PilotPattern,
    Ghost(parts): Ghost<FrameParts>,
)
    requires
        pattern_fits(*pattern),
        parts.d == pattern.d_syms,
        parts.p == pattern.p_syms,
        parts.amplitude == amplitude <= 0x80_0000_0000_0000,
        parts.session_id_low == session_id_low,
        parts.preamble + parts.warmup + parts.header == anchor@,
        parts.meta == meta@,
        meta@.len() <= 1152,
        parts.words.len() == words@.len() <= 0x100_0000,
        seg.base < 0x100_0000,
        forall|b: int|
            0 <= b < words@.len() ==> (#[trigger] words@[b])@ == parts.words[b] && words@[b]@.len()
                <= 1152,
        seg.count <= 2,
        seg.base + seg.count <= words@.len(),
    ensures
        final(out)@ == old(out)@ + parts.segment(seg),
{
    let ghost before = out@;
    let mut syms: Vec<Symbol> = Vec::new();
    if seg.count == 0 {
        out.extend_from_slice(anchor.as_slice());
        syms.extend_from_slice(meta.as_slice());
    } else {
        syms.extend_from_slice(words[seg.base].as_slice());
        if seg.count == 2 {
            syms.extend_from_slice(words[seg.base + 1].as_slice());
        }
    }
    assert(syms@ =~= parts.payload(seg));
    let payload = MarkerPayload {
        seg_id: seg.seg_id,
        session_id_low,
        base_esi: seg.base as u32,
        flags: if seg.count == 0 { META_FLAG_BIT } else { 0 },
    };
    let mut mark = marker::make_marker(&payload);
    out.append(&mut mark);
    proof {
        let d = pattern.d_syms as int;
        let p = pattern.p_syms as int;
        lemma_total_grows(syms@.len() as int, 2304, d, p);
    }
    let mut stream = pilot::interleave_at(syms.as_slice(), pattern, amplitude);
    out.append(&mut stream);
    assert(out@ =~= before + parts.segment(seg));
}

/// The plan only names codewords that there are.
pub proof fn lemma_plan_bounds(plan: Seq<SegmentPlan>, cursor: int, n: int, i: int)
    requires
        in_order(plan, cursor, n),
        0 <= i < plan.len(),
    ensures
        cursor <= plan[i].base,
        plan[i].base + plan[i].count <= n,
        plan[i].count <= 2,
    decreases plan.len(),
{
    let rest = plan.drop_first();
    lemma_order_bound(rest, cursor + plan[0].count, n);
    if i > 0 {
        lemma_plan_bounds(rest, cursor + plan[0].count, n, i - 1);
        assert(plan[i] == rest[i - 1]);
    }
}

proof fn lemma_order_bound(plan: Seq<SegmentPlan>, cursor: int, n: int)
    requires
        in_order(plan, cursor, n),
    ensures
        cursor <= n,
    decreases plan.len(),
{
    if plan.len() > 0 {
        lemma_order_bound(plan.drop_first(), cursor + plan[0].count, n);
    }
}

/// The bytes of the codeword that fills the last segment.
fn spare_bytes(data: &[u8], k_bytes: usize, n: usize, Ghost(rate): Ghost<LdpcRate>) -> (block: Vec<
    u8,
>)
    requires
        8 * k_bytes == rate.spec_k(),
        n == encoder::n_blocks(rate, data@.len()),
        n < 0x100_0000,
    ensures
        block@ == spare_block(rate, data@),
        block@.len() == k_bytes,
{
    let ghost k = k_bytes as int;
    proof {
        assert(k == rate.spec_k() / 8);
    }
    let fits: bool = n <= raptorq_codec::MAX_K;
    proof {
        assert(raptorq_codec::source_count(data@.len() as int, k) == if n
            < raptorq_codec::MIN_K {
            raptorq_codec::MIN_K as int
        } else {
            n as int
        });
        vstd::arithmetic::div_mod::lemma_fundamental_div_mod(data@.len() + k - 1, k);
        if fits {
            assert(k * n <= 240 * 56403) by (nonlinear_arith)
                requires
                    0 <= k <= 240,
                    0 <= n <= 56403,
            ;
        }
    }
    if fits {
        let packets = raptorq_codec::encode_packets_range(data, k_bytes as u16, n as u32, 1);
        let block = packets[0].clone();
        assert(block@ =~= packets@[0]@);
        block
    } else {
        let mut block: Vec<u8> = Vec::new();
        let mut i: usize = 0;
        while i < k_bytes
            invariant
                i <= k_bytes,
                block@.len() == i,
                forall|j: int| 0 <= j < i ==> #[trigger] block@[j] == 0u8,
            decreases k_bytes - i,
        {
            block.push(0);
            i = i + 1;
        }
        assert(block@ =~= spare_block(rate, data@));
        block
    }
}

/// Build a superframe from a payload.
///
/// `header_syms` are the symbols of the protocol header, which is sent behind each
/// preamble.
#[verifier::rlimit(60)]
pub fn build_superframe_v3(
    data: &[u8],
    config: &ModemConfig,
    session_id: u32,
    mime_type: u8,
    hash_short: u16,
    header_syms: &[Symbol],
) -> (out: Vec<Symbol>)
    requires
        config.symbol_rate.valid(),
        rings_ready(*config),
        pattern_fits(config.pilot_pattern),
        period_of(*config) + segment_room(config.pilot_pattern) <= u64::MAX,
        encoder::n_blocks(config.ldpc_rate, data@.len()) < 0x100_0000,
        data@.len() > 0 ==> cadence_of(data@, *config).sound(),
    ensures
        out@ == frame_parts(
            data@,
            *config,
            frame_header(data@, *config, session_id, mime_type, hash_short),
            header_syms@,
        ).frame(full_plan(cadence_of(data@, *config))),
{
    let ldpc = LdpcEncoder::new(config.ldpc_rate);
    let points = make_constellation(config);
    let ct = config.constellation;
    proof {
        lemma_word_sizes(ct);
    }
    let table = interleaver::interleave_table(interleaver::padded_cw_bits(2304, ct), ct);
    let k_bytes: usize = ldpc.k() / 8;
    let ghost rate = config.ldpc_rate;
    let ghost header = frame_header(data@, *config, session_id, mime_type, hash_short);
    let ghost parts = frame_parts(data@, *config, header, header_syms@);

    let mut blocks = data_blocks(data, k_bytes, Ghost(rate));
    let n_payload: usize = blocks.len();
    if n_payload % 2 == 1 {
        blocks.push(spare_bytes(data, k_bytes, n_payload, Ghost(rate)));
    }
    let n: usize = blocks.len();
    let mut words: Vec<Vec<Symbol>> = Vec::new();
    let mut b: usize = 0;
    while b < n
        invariant
            b <= n,
            n == blocks@.len(),
            rate == config.ldpc_rate,
            k_bytes * 8 == rate.spec_k(),
            ct == config.constellation,
            n == n_sent(rate, data@.len()),
            parts == frame_parts(data@, *config, header, header_syms@),
            ldpc.spec_rate() == rate,
            points.well_formed(),
            points.points@ == points_of(*config),
            points.bits_per_sym == ct.spec_bits_per_sym(),
            table@ == interleaver::interleaving(sent_bits(ct), ct),
            forall|i: int| 0 <= i < table@.len() ==> #[trigger] table@[i] < table@.len(),
            forall|x: int|
                0 <= x < n ==> (#[trigger] blocks@[x])@.len() == k_bytes && bits::unpack(
                    blocks@[x]@,
                ) == sent_info(rate, data@, x),
            words@.len() == b,
            forall|x: int|
                0 <= x < b ==> (#[trigger] words@[x])@ == parts.words[x] && words@[x]@.len()
                    <= 1152,
        decreases n - b,
    {
        let word = encode_one_codeword(
            blocks[b].as_slice(),
            config,
            &ldpc,
            table.as_slice(),
            &points,
        );
        proof {
            lemma_word_sizes(ct);
        }
        words.push(word);
        b = b + 1;
    }

    let app_hdr = AppHeader {
        session_id,
        file_size: data.len() as u32,
        k_symbols: n_payload as u16,
        t_bytes: k_bytes as u8,
        mode_code: config.mode_code(),
        mime_type,
        hash_short,
    };
    let meta_payload = app_header::encode_meta_payload(&app_hdr, k_bytes);
    let meta = encode_one_codeword(
        meta_payload.as_slice(),
        config,
        &ldpc,
        table.as_slice(),
        &points,
    );
    proof {
        lemma_word_sizes(ct);
        assert(app_hdr == header);
        assert(k_bytes == rate.spec_k() / 8);
    }
    let amplitude: u64 = config.training_amplitude();
    let mut anchor = make_scaled_preamble(config);
    let mut warmup = make_lms_warmup_for_config(config);
    anchor.append(&mut warmup);
    anchor.extend_from_slice(header_syms);
    assert(anchor@ =~= parts.preamble + parts.warmup + parts.header);
    let period: u64 = (V3_PREAMBLE_PERIOD_S * config.symbol_rate.num as u64)
        / config.symbol_rate.den as u64;
    proof {
        assert(period <= V3_PREAMBLE_PERIOD_S * config.symbol_rate.num) by (nonlinear_arith)
            requires
                period == (V3_PREAMBLE_PERIOD_S * config.symbol_rate.num) / (
                config.symbol_rate.den as int),
                config.symbol_rate.den >= 1,
                V3_PREAMBLE_PERIOD_S == 4,
        ;
        if n > 0 {
            lemma_no_data_no_blocks(rate, data@.len());
        }
    }
    let plan = plan_segments(n, period, ct, &config.pilot_pattern);
    let session_id_low: u8 = (session_id & 0xFF) as u8;
    let ghost c = cadence_of(data@, *config);
    proof {
        law_plan_sends_everything_in_order(c);
    }
    let mut out: Vec<Symbol> = Vec::new();
    let mut i: usize = 0;
    while i < plan.len()
        invariant
            i <= plan@.len(),
            plan@ == full_plan(c),
            in_order(plan@, 0, n as int),
            pattern_fits(config.pilot_pattern),
            parts.d == config.pilot_pattern.d_syms,
            parts.p == config.pilot_pattern.p_syms,
            parts.amplitude == amplitude <= 0x80_0000_0000_0000,
            parts.session_id_low == session_id_low,
            parts.preamble + parts.warmup + parts.header == anchor@,
            parts.meta == meta@,
            meta@.len() <= 1152,
            parts.words.len() == words@.len() <= 0x100_0000,
            c.n == n,
            c.n % 2 == 0,
            c.n > 0 ==> c.sound(),
            words@.len() == n,
            forall|b: int|
                0 <= b < words@.len() ==> (#[trigger] words@[b])@ == parts.words[b]
                    && words@[b]@.len() <= 1152,
            out@ == parts.segments(plan@, i as int),
        decreases plan@.len() - i,
    {
        proof {
            lemma_plan_bounds(plan@, 0, n as int, i as int);
            law_data_segments_are_full(c, i as int);
        }
        push_segment(
            &mut out,
            plan[i],
            session_id_low,
            &anchor,
            amplitude,
            &meta,
            &words,
            &config.pilot_pattern,
            Ghost(parts),
        );
        i = i + 1;
    }
    push_tail(&mut out, &config.pilot_pattern, amplitude);
    out
}

/// Without data there are no blocks.
pub proof fn lemma_no_data_no_blocks(rate: LdpcRate, len: nat)
    ensures
        len == 0 ==> encoder::n_blocks(rate, len) == 0,
{
    encoder::lemma_n_blocks(rate, len);
}

/// The payload in blocks of `k_bytes`, the last one filled up with zeros.
fn data_blocks(data: &[u8], k_bytes: usize, Ghost(rate): Ghost<LdpcRate>) -> (blocks: Vec<Vec<u8>>)
    requires
        8 * k_bytes == rate.spec_k(),
        encoder::n_blocks(rate, data@.len()) < 0x100_0000,
    ensures
        blocks@.len() == encoder::n_blocks(rate, data@.len()),
        forall|b: int|
            0 <= b < blocks@.len() ==> (#[trigger] blocks@[b])@.len() == k_bytes && bits::unpack(
                blocks@[b]@,
            ) == encoder::block_bits(rate, data@, b),
{
    proof {
        encoder::lemma_n_blocks(rate, data@.len());
    }
    let n: usize = data.len() / k_bytes + (if data.len() % k_bytes == 0 { 0 } else { 1 });
    let mut blocks: Vec<Vec<u8>> = Vec::new();
    let mut b: usize = 0;
    while b < n
        invariant
            b <= n < 0x100_0000,
            8 * k_bytes == rate.spec_k(),
            blocks@.len() == b,
            forall|x: int|
                0 <= x < b ==> (#[trigger] blocks@[x])@.len() == k_bytes && bits::unpack(
                    blocks@[x]@,
                ) == encoder::block_bits(rate, data@, x),
        decreases n - b,
    {
        assert(0 <= b * k_bytes <= 0x100_0000 * 240) by (nonlinear_arith)
            requires
                0 <= b <= 0x100_0000,
                0 <= k_bytes <= 240,
        ;
        let start: usize = b * k_bytes;
        let mut block: Vec<u8> = Vec::new();
        let mut i: usize = 0;
        while i < k_bytes
            invariant
                i <= k_bytes <= 240,
                start <= 0x100_0000 * 240,
                block@.len() == i,
                forall|j: int|
                    0 <= j < i ==> #[trigger] block@[j] == if start + j < data@.len() {
                        data@[start + j]
                    } else {
                        0u8
                    },
            decreases k_bytes - i,
        {
            if start + i < data.len() {
                block.push(data[start + i]);
            } else {
                block.push(0);
            }
            i = i + 1;
        }
        assert(bits::unpack(block@) =~= encoder::block_bits(rate, data@, b as int)) by {
            assert forall|p: int| 0 <= p < 8 * k_bytes implies bits::unpack(block@)[p]
                == encoder::block_bits(rate, data@, b as int)[p] by {
                assert(bits::bit_of(0, p % 8) == 0) by {
                    bits::lemma_zero_bits(p % 8);
                }
            }
        }
        blocks.push(block);
        b = b + 1;
    }
    blocks
}

/// A frame opens with the preamble, the known symbols of the configuration and the header,
/// and then the marker of a meta segment with number 0.
pub proof fn law_frame_opens_with_an_anchor(parts: FrameParts, c: Cadence)
    ensures
        ({
            let plan = full_plan(c);
            let first = MarkerPayload {
                seg_id: 0,
                session_id_low: parts.session_id_low,
                base_esi: 0,
                flags: META_FLAG_BIT,
            };
            let opening = parts.preamble + parts.warmup + parts.header + marker::sync_symbols()
                + marker::control_symbols(first);
            &&& parts.frame(plan).len() >= opening.len()
            &&& parts.frame(plan).take(opening.len() as int) == opening
        }),
{
    let plan = full_plan(c);
    let s = plan[0];
    let first = parts.marker(s);
    let opening = parts.preamble + parts.warmup + parts.header + marker::sync_symbols()
        + marker::control_symbols(first);
    assert(parts.segment(s).take(opening.len() as int) =~= opening);
    lemma_first_segment(parts, plan, plan.len() as int);
    let all = parts.frame(plan);
    let body = parts.segments(plan, plan.len() as int);
    assert(all.take(opening.len() as int) =~= opening) by {
        assert forall|i: int| 0 <= i < opening.len() implies all[i] == opening[i] by {
            assert(body[i] == parts.segment(s)[i]);
            assert(parts.segment(s).take(opening.len() as int)[i] == opening[i]);
        }
    }
}

proof fn lemma_first_segment(parts: FrameParts, plan: Seq<SegmentPlan>, i: int)
    requires
        1 <= i <= plan.len(),
    ensures
        parts.segments(plan, i).len() >= parts.segment(plan[0]).len(),
        forall|x: int|
            0 <= x < parts.segment(plan[0]).len() ==> parts.segments(plan, i)[x] == parts.segment(
                plan[0],
            )[x],
    decreases i,
{
    if i > 1 {
        lemma_first_segment(parts, plan, i - 1);
    } else {
        assert(parts.segments(plan, 0) + parts.segment(plan[0]) =~= parts.segment(plan[0]));
    }
}

/// Frames can be built with every predefined profile, as long as the payload has
/// fewer than 2^24 codewords.
pub proof fn law_every_profile_builds_frames(p: ProfileIndex, data: Seq<u8>)
    ensures
        ({
            let config = p.spec_config();
            &&& config.symbol_rate.valid()
            &&& rings_ready(config)
            &&& rings_stay_apart(config)
            &&& pattern_fits(config.pilot_pattern)
            &&& period_of(config) + segment_room(config.pilot_pattern) <= u64::MAX
            &&& cadence_of(data, config).sound()
        }),
{
    let config = p.spec_config();
    let ct = config.constellation;
    let m = ct.spec_bits_per_sym() as int;
    let d = config.pilot_pattern.d_syms as int;
    let w = word_len(ct);
    lemma_word_sizes(ct);
    let rs = config.symbol_rate;
    let g = pilot::n_groups(1 * w, d);
    if p == ProfileIndex::Fast {
        assert((4 * rs.num) / (rs.den as int) >= 6000) by (nonlinear_arith)
            requires
                rs.num == 48000,
                rs.den == 28,
        ;
    } else {
        assert((4 * rs.num) / (rs.den as int) == 4 * rs.num) by (nonlinear_arith)
            requires
                rs.den == 1,
        ;
    }
    assert(1 * w == w);
    assert(g <= 72) by (nonlinear_arith)
        requires
            g == (1 * w + d - 1) / d,
            w <= 1152,
            d == 16 || d == 32,
    ;
    assert(g * config.pilot_pattern.p_syms <= 144) by (nonlinear_arith)
        requires
            g <= 72,
            config.pilot_pattern.p_syms == 2,
    ;
    lemma_rings(config);
}

proof fn lemma_rings(config: ModemConfig)
    requires
        config.apsk_gamma.den == 100,
        100 < config.apsk_gamma.num <= 65536,
        config.constellation == ConstellationType::Apsk32 || config.constellation
            == ConstellationType::Apsk64 ==> config.apsk_gamma2.den == 100 && config.apsk_gamma.num
            < config.apsk_gamma2.num <= 65536,
        config.constellation == ConstellationType::Apsk64 ==> config.apsk_gamma3.den == 100
            && config.apsk_gamma2.num < config.apsk_gamma3.num <= 65536,
    ensures
        rings_ready(config),
        rings_stay_apart(config),
{
    let (a, b, c) = (config.apsk_gamma, config.apsk_gamma2, config.apsk_gamma3);
    let one = constellation::unit_ratio();
    if config.constellation == ConstellationType::Apsk32 {
        constellation::lemma_16_bits_fit(a, b, one);
    }
    if config.constellation == ConstellationType::Apsk64 {
        constellation::lemma_16_bits_fit(a, b, c);
    }
    assert(one.num * a.den < a.num * one.den) by (nonlinear_arith)
        requires
            one.num == 1,
            one.den == 1,
            a.den == 100,
            a.num > 100,
    ;
    if a.num < b.num && b.den == 100 {
        assert(a.num * b.den < b.num * a.den) by (nonlinear_arith)
            requires
                a.den == 100,
                b.den == 100,
                a.num < b.num,
        ;
    }
    if b.num < c.num && b.den == 100 && c.den == 100 {
        assert(b.num * c.den < c.num * b.den) by (nonlinear_arith)
            requires
                b.den == 100,
                c.den == 100,
                b.num < c.num,
        ;
    }
    if config.constellation == ConstellationType::Apsk32 {
        assert(b.num * a.den <= 0x1_0000_0000_0000) by (nonlinear_arith)
            requires
                a.den == 100,
                b.num <= 65536,
        ;
        constellation::apart::law_apsk32_rings_are_apart(a, b);
    }
    if config.constellation == ConstellationType::Apsk64 {
        assert(c.num * a.den * b.den <= 0x1_0000_0000_0000) by (nonlinear_arith)
            requires
                a.den == 100,
                b.den == 100,
                c.num <= 65536,
        ;
        constellation::apart::law_apsk64_rings_are_apart(a, b, c);
    }
}

// ---------------------------------------------------------------------------
// Laws on what is sent
// ---------------------------------------------------------------------------

/// The session header of a frame describes its payload: its size, the bytes of a codeword,
/// and as many codewords as hold it.
pub proof fn law_header_describes_the_payload(
    data: Seq<u8>,
    config: ModemConfig,
    session_id: u32,
    mime_type: u8,
    hash_short: u16,
)
    requires
        0 < data.len() <= 0xFFFF,
    ensures
        ({
            let h = frame_header(data, config, session_id, mime_type, hash_short);
            &&& h.file_size == data.len()
            &&& 8 * h.t_bytes == config.ldpc_rate.spec_k()
            &&& h.k_symbols * h.t_bytes >= data.len()
            &&& (h.k_symbols - 1) * h.t_bytes < data.len()
            &&& 0 <= config.spec_mode_code() < 256 ==> h.mode_code == config.spec_mode_code()
            &&& h.session_id == session_id
            &&& h.mime_type == mime_type
            &&& h.hash_short == hash_short
        }),
{
    let k = (config.ldpc_rate.spec_k() / 8) as int;
    let n = encoder::n_blocks(config.ldpc_rate, data.len());
    vstd::arithmetic::div_mod::lemma_fundamental_div_mod(data.len() + k - 1, k);
    assert(0 <= n <= 0xFFFF) by (nonlinear_arith)
        requires
            data.len() + k - 1 == k * n + (data.len() + k - 1) % k,
            0 <= (data.len() + k - 1) % k < k,
            0 < data.len() <= 0xFFFF,
            k >= 100,
    ;
    assert(n * k == k * n && (n - 1) * k == k * n - k) by (nonlinear_arith);
    let h = frame_header(data, config, session_id, mime_type, hash_short);
    assert(h.k_symbols == n && h.t_bytes == k);
}

/// Codewords are sent in pairs: all of the payload, and one more where their number is odd.
pub proof fn law_codewords_are_sent_in_pairs(rate: LdpcRate, len: nat)
    ensures
        n_sent(rate, len) % 2 == 0,
        n_sent(rate, len) - encoder::n_blocks(rate, len) == 0 || n_sent(rate, len)
            - encoder::n_blocks(rate, len) == 1,
{
}

/// Only 64-APSK trains at another amplitude than 1.
pub proof fn law_other_constellations_train_at_unit_amplitude(config: ModemConfig)
    requires
        config.constellation != ConstellationType::Apsk64,
    ensures
        amplitude_of(config) == symbol::ONE,
        preamble_of(config) == preamble::preamble_symbols(),
        warmup_of(config).len() == 0,
{
    assert forall|i: int| 0 <= i < preamble_of(config).len() implies preamble_of(config)[i]
        == preamble::preamble_symbols()[i] by {
        ring::law_unit_radius_changes_nothing(preamble::preamble_symbols()[i]);
    }
    assert(preamble_of(config) =~= preamble::preamble_symbols());
}

/// Symbols of filler groups.
proof fn lemma_filler_groups(d: int, p: int, amplitude: int, groups: int, g: int, k: int)
    requires
        d >= 1,
        p >= 0,
        0 <= g < groups,
        0 <= k < d + p,
    ensures
        ({
            let all = filler_groups(d, p, amplitude, groups);
            &&& all.len() == groups * (d + p)
            &&& 0 <= g * (d + p) + k < groups * (d + p)
            &&& k < d ==> all[g * (d + p) + k] == filler(g * d + k)
            &&& k >= d ==> all[g * (d + p) + k] == ring::scaled(
                symbol::axis_point(g * p + k - d),
                amplitude,
            )
        }),
    decreases groups,
{
    let w = d + p;
    assert(groups * w == (groups - 1) * w + w) by (nonlinear_arith);
    assert(0 <= g * w && g * w + w <= groups * w) by (nonlinear_arith)
        requires
            0 <= g < groups,
            w >= 1,
    ;
    if groups == 1 {
        assert((groups - 1) * w == 0) by (nonlinear_arith)
            requires
                groups == 1,
        ;
        assert(filler_groups(d, p, amplitude, 0).len() == 0);
        assert(g * w == 0) by (nonlinear_arith)
            requires
                g == 0,
        ;
    } else if g < groups - 1 {
        lemma_filler_groups(d, p, amplitude, groups - 1, g, k);
        assert(g * w + w <= (groups - 1) * w) by (nonlinear_arith)
            requires
                g + 1 <= groups - 1,
                w >= 1,
        ;
    } else {
        lemma_filler_groups(d, p, amplitude, groups - 1, 0, 0);
    }
}

/// Behind the last segment come four groups of `d` filler symbols with their pilots, and
/// then 24 filler symbols more. Filler symbols are two opposite points in turn.
pub proof fn law_frame_runs_out(d: int, p: int, amplitude: int, g: int, k: int)
    requires
        d >= 1,
        p >= 0,
        0 <= g < 4,
        0 <= k < d + p,
    ensures
        ({
            let tail = tail_of(d, p, amplitude);
            &&& tail.len() == 4 * (d + p) + 24
            &&& k < d ==> tail[g * (d + p) + k] == if (g * d + k) % 2 == 0 {
                symbol::diagonal_point(0)
            } else {
                symbol::diagonal_point(2)
            }
            &&& k >= d ==> tail[g * (d + p) + k] == ring::scaled(
                symbol::axis_point(g * p + k - d),
                amplitude,
            )
        }),
        forall|j: int|
            0 <= j < 24 ==> #[trigger] tail_of(d, p, amplitude)[4 * (d + p) + j] == filler(j),
{
    lemma_filler_groups(d, p, amplitude, 4, g, k);
    assert forall|j: int| 0 <= j < 24 implies #[trigger] tail_of(d, p, amplitude)[4 * (d + p) + j]
        == filler(j) by {
        assert((4 * d + j) % 2 == j % 2);
    }
}

/// The marker of a segment tells its number, its first codeword, the low byte of the session
/// and, by its lowest flag, whether it is a meta segment.
pub proof fn law_markers_describe_their_segments(
    data: Seq<u8>,
    config: ModemConfig,
    header: AppHeader,
    header_syms: Seq<Symbol>,
    s: SegmentPlan,
)
    requires
        s.base < 0x100_0000,
    ensures
        ({
            let m = frame_parts(data, config, header, header_syms).marker(s);
            &&& m.seg_id == s.seg_id
            &&& m.base_esi == s.base
            &&& m.session_id_low == header.session_id % 256
            &&& m.flags == if s.count == 0 {
                1u8
            } else {
                0
            }
        }),
{
    vstd::arithmetic::power2::lemma2_to64();
    vstd::bits::lemma_u32_low_bits_mask_is_mod(header.session_id, 8);
    vstd::bits::lemma_low_bits_mask_values();
}

/// Every meta segment of a frame has preamble, known symbols and header right before its
/// marker, and the session header behind it; other segments stand alone.
pub proof fn law_every_anchor_is_whole(parts: FrameParts, s: SegmentPlan)
    ensures
        ({
            let all = parts.segment(s);
            let anchor = parts.preamble + parts.warmup + parts.header;
            let mark = marker::sync_symbols() + marker::control_symbols(parts.marker(s));
            &&& s.count == 0 ==> all == anchor + mark + pilot::with_pilots_at(
                parts.meta,
                parts.d,
                parts.p,
                parts.amplitude,
            )
            &&& s.count == 2 ==> all == mark + pilot::with_pilots_at(
                parts.words[s.base as int] + parts.words[s.base + 1],
                parts.d,
                parts.p,
                parts.amplitude,
            )
        }),
{
    let all = parts.segment(s);
    let anchor = parts.preamble + parts.warmup + parts.header;
    let mark = marker::sync_symbols() + marker::control_symbols(parts.marker(s));
    if s.count == 0 {
        assert(all =~= anchor + mark + pilot::with_pilots_at(
            parts.meta,
            parts.d,
            parts.p,
            parts.amplitude,
        ));
    }
    if s.count == 2 {
        assert(all =~= mark + pilot::with_pilots_at(
            parts.words[s.base as int] + parts.words[s.base + 1],
            parts.d,
            parts.p,
            parts.amplitude,
        ));
    }
}

/// A configuration has the points of its constellation, with the ring ratios that are its
/// own: the second ring by the first ratio, the third by the second, the fourth by the third.
pub proof fn law_configuration_has_its_points(config: ModemConfig, label: int)
    requires
        rings_ready(config),
        0 <= label,
    ensures
        ({
            let points = points_of(config);
            let (g1, g2, g3) = (config.apsk_gamma, config.apsk_gamma2, config.apsk_gamma3);
            match config.constellation {
                ConstellationType::Qpsk => points == constellation::qpsk_points(),
                ConstellationType::Psk8 => points == constellation::psk8_points(),
                ConstellationType::Apsk16 => points.len() == 16 && (label < 16
                    ==> constellation::apart::on_ring(
                    points[label],
                    constellation::radii_16(g1)[apsk::place_16(label).ring - 1],
                )),
                ConstellationType::Apsk32 => points.len() == 32 && (label < 32
                    ==> constellation::apart::on_ring(
                    points[label],
                    constellation::radii_32(g1, g2)[apsk::place_32(label).ring - 1],
                )),
                ConstellationType::Apsk64 => points.len() == 64 && (label < 64
                    ==> constellation::apart::on_ring(
                    points[label],
                    constellation::radii_64(g1, g2, g3)[apsk::place_64(label).ring - 1],
                )),
            }
        }),
{
    let (g1, g2, g3) = (config.apsk_gamma, config.apsk_gamma2, config.apsk_gamma3);
    match config.constellation {
        ConstellationType::Apsk16 => if label < 16 {
            constellation::apart::law_points_of_16_lie_on_their_rings(g1, label);
        },
        ConstellationType::Apsk32 => if label < 32 {
            constellation::apart::law_points_of_32_lie_on_their_rings(g1, g2, label);
        },
        ConstellationType::Apsk64 => if label < 64 {
            constellation::apart::law_points_of_64_lie_on_their_rings(g1, g2, g3, label);
        },
        _ => {},
    }
}

/// 64-APSK settles on every point of its constellation once.
pub proof fn law_warmup_shows_every_point(config: ModemConfig)
    requires
        config.constellation == ConstellationType::Apsk64,
    ensures
        warmup_of(config) == points_of(config),
        warmup_of(config).len() == config.spec_warmup_syms(),
{
}

/// Rings with ratios of 16 bits can be used exactly where they rise from 1.
pub proof fn law_rising_rings_are_ready(config: ModemConfig)
    requires
        config.constellation == ConstellationType::Apsk64,
        constellation::fits_16_bits(config.apsk_gamma),
        constellation::fits_16_bits(config.apsk_gamma2),
        constellation::fits_16_bits(config.apsk_gamma3),
    ensures
        ({
            let (a, b, c) = (config.apsk_gamma, config.apsk_gamma2, config.apsk_gamma3);
            rings_ready(config) <==> a.den < a.num && a.num * b.den < b.num * a.den && b.num * c.den
                < c.num * b.den
        }),
{
    let (a, b, c) = (config.apsk_gamma, config.apsk_gamma2, config.apsk_gamma3);
    constellation::lemma_16_bits_fit(a, b, c);
    let one = constellation::unit_ratio();
    assert(one.num * a.den == a.den && a.num * one.den == a.num) by (nonlinear_arith)
        requires
            one.num == 1,
            one.den == 1,
    ;
}

} // verus!
