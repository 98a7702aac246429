//! Modem configuration and predefined profiles.
//!
//! A mode is defined by constellation, LDPC rate, symbol rate, pulse shape and
//! centre frequency. The predefined profiles are the modes that both ends know
//! by a one-byte index.

use vstd::prelude::*;

use crate::preamble::PreambleFamily;
use crate::ratio;
use crate::ratio::Ratio;
use crate::types::DATA_CENTER_HZ;

verus! {

/// Constellation type.
#[derive(Clone, Copy, Debug, PartialEq, Eq, Structural)]
pub enum ConstellationType {
    Qpsk,
    Psk8,
    Apsk16,
    /// 32-APSK DVB-S2 (4+12+16).
    Apsk32,
    /// 64-APSK DVB-S2X (4+12+20+28). Its code does not fit the two bits that
    /// `mode_code` has for it; the profile index tells it apart.
    Apsk64,
}

impl ConstellationType {
    /// Bits that one symbol carries.
    pub open spec fn spec_bits_per_sym(self) -> usize {
        match self {
            Self::Qpsk => 2,
            Self::Psk8 => 3,
            Self::Apsk16 => 4,
            Self::Apsk32 => 5,
            Self::Apsk64 => 6,
        }
    }

    /// Number of the constellation.
    pub open spec fn spec_code(self) -> u8 {
        match self {
            Self::Qpsk => 0,
            Self::Psk8 => 1,
            Self::Apsk16 => 2,
            Self::Apsk32 => 3,
            Self::Apsk64 => 4,
        }
    }

    /// Bits that one symbol carries.
    pub fn bits_per_sym(self) -> (bits: usize)
        ensures
            bits == self.spec_bits_per_sym(),
    {
        match self {
            Self::Qpsk => 2,
            Self::Psk8 => 3,
            Self::Apsk16 => 4,
            Self::Apsk32 => 5,
            Self::Apsk64 => 6,
        }
    }

    /// Number of the constellation; `mode_code` keeps its low two bits.
    pub fn code(self) -> (code: u8)
        ensures
            code == self.spec_code(),
    {
        match self {
            Self::Qpsk => 0,
            Self::Psk8 => 1,
            Self::Apsk16 => 2,
            Self::Apsk32 => 3,
            Self::Apsk64 => 4,
        }
    }

    /// The constellation with a two-bit number.
    pub fn from_code(code: u8) -> (ct: Option<Self>)
        ensures
            ct is Some <==> code < 4,
            ct matches Some(c) ==> c.spec_code() == code,
    {
        match code {
            0 => Some(Self::Qpsk),
            1 => Some(Self::Psk8),
            2 => Some(Self::Apsk16),
            3 => Some(Self::Apsk32),
            _ => None,
        }
    }
}

/// LDPC code rate.
#[derive(Clone, Copy, Debug, PartialEq, Eq, Structural)]
pub enum LdpcRate {
    R1_2,
    R2_3,
    R3_4,
    /// 11 % more throughput than 3/4 for about 0.7 dB of margin.
    R5_6,
}

impl LdpcRate {
    /// Share of the codeword that carries information.
    pub open spec fn spec_rate(self) -> Ratio {
        match self {
            Self::R1_2 => Ratio { num: 1, den: 2 },
            Self::R2_3 => Ratio { num: 2, den: 3 },
            Self::R3_4 => Ratio { num: 3, den: 4 },
            Self::R5_6 => Ratio { num: 5, den: 6 },
        }
    }

    /// Info bits per codeword.
    pub open spec fn spec_k(self) -> usize {
        match self {
            Self::R1_2 => 1152,
            Self::R2_3 => 1536,
            Self::R3_4 => 1728,
            Self::R5_6 => 1920,
        }
    }

    /// Number of the rate.
    pub open spec fn spec_code(self) -> u8 {
        match self {
            Self::R1_2 => 0,
            Self::R2_3 => 1,
            Self::R3_4 => 2,
            Self::R5_6 => 3,
        }
    }

    /// Share of the codeword that carries information.
    pub fn rate(self) -> (r: Ratio)
        ensures
            r == self.spec_rate(),
            r.num * 2304 == r.den * self.spec_k(),
    {
        match self {
            Self::R1_2 => Ratio { num: 1, den: 2 },
            Self::R2_3 => Ratio { num: 2, den: 3 },
            Self::R3_4 => Ratio { num: 3, den: 4 },
            Self::R5_6 => Ratio { num: 5, den: 6 },
        }
    }

    /// Info bits per codeword.
    pub fn k(self) -> (k: usize)
        ensures
            k == self.spec_k(),
    {
        match self {
            Self::R1_2 => 1152,
            Self::R2_3 => 1536,
            Self::R3_4 => 1728,
            Self::R5_6 => 1920,
        }
    }

    /// Codeword length.
    pub fn n(self) -> (n: usize)
        ensures
            n == 2304,
    {
        2304
    }

    /// Number of the rate.
    pub fn code(self) -> (code: u8)
        ensures
            code == self.spec_code(),
    {
        match self {
            Self::R1_2 => 0,
            Self::R2_3 => 1,
            Self::R3_4 => 2,
            Self::R5_6 => 3,
        }
    }

    /// The rate with a given number.
    pub fn from_code(code: u8) -> (rate: Option<Self>)
        ensures
            rate is Some <==> code < 4,
            rate matches Some(r) ==> r.spec_code() == code,
    {
        match code {
            0 => Some(Self::R1_2),
            1 => Some(Self::R2_3),
            2 => Some(Self::R3_4),
            3 => Some(Self::R5_6),
            _ => None,
        }
    }
}

/// Pilot pattern: one group is `d_syms` data symbols and then `p_syms` pilots.
#[derive(Clone, Copy, Debug, PartialEq, Eq, Structural)]
pub struct PilotPattern {
    pub d_syms: usize,
    pub p_syms: usize,
}

impl PilotPattern {
    /// 32 data and 2 pilot symbols.
    pub open spec fn spec_default_v3() -> Self {
        PilotPattern { d_syms: 32, p_syms: 2 }
    }

    /// 16 data and 2 pilot symbols.
    pub open spec fn spec_dense_ultra() -> Self {
        PilotPattern { d_syms: 16, p_syms: 2 }
    }

    /// 32 data and 2 pilot symbols per group, the default.
    pub fn default_v3() -> (p: Self)
        ensures
            p == Self::spec_default_v3(),
    {
        PilotPattern { d_syms: 32, p_syms: 2 }
    }

    /// 16 data and 2 pilot symbols per group, for finer phase tracking.
    pub fn dense_ultra() -> (p: Self)
        ensures
            p == Self::spec_dense_ultra(),
    {
        PilotPattern { d_syms: 16, p_syms: 2 }
    }

    /// Symbols per group, data and pilots.
    pub fn group_sz(&self) -> (n: usize)
        requires
            self.d_syms + self.p_syms <= usize::MAX,
        ensures
            n == self.d_syms + self.p_syms,
    {
        self.d_syms + self.p_syms
    }
}

/// Full modem configuration. Rates and factors are exact fractions.
#[derive(Clone, Copy, Debug, PartialEq, Eq, Structural)]
pub struct ModemConfig {
    pub constellation: ConstellationType,
    pub ldpc_rate: LdpcRate,
    /// Symbols per second.
    pub symbol_rate: Ratio,
    /// Roll-off of the pulse.
    pub beta: Ratio,
    /// Symbol spacing relative to the Nyquist spacing.
    pub tau: Ratio,
    pub center_freq_hz: Ratio,
    /// Second ring over first ring.
    pub apsk_gamma: Ratio,
    /// Third ring over first ring; 0 where there is none.
    pub apsk_gamma2: Ratio,
    /// Fourth ring over first ring; 0 where there is none.
    pub apsk_gamma3: Ratio,
    pub pilot_pattern: PilotPattern,
}

// ---------------------------------------------------------------------------
// Symbol rates
// ---------------------------------------------------------------------------

/// Numerators of the known symbol rates, by index.
pub const RATE_NUM: [u32; 8] = [500, 600, 750, 1000, 1200, 1500, 2000, 48000];

/// Denominators of the known symbol rates, by index.
pub const RATE_DEN: [u32; 8] = [1, 1, 1, 1, 1, 1, 1, 28];

/// The known symbol rate at an index.
pub open spec fn known_rate(i: int) -> Ratio {
    Ratio { num: RATE_NUM@[i], den: RATE_DEN@[i] }
}

/// One symbol per second.
pub open spec fn one_baud() -> Ratio {
    Ratio { num: 1, den: 1 }
}

/// The first index from `i` on whose rate is within 1 Bd of `rs`, else 5.
pub open spec fn rate_index_from(rs: Ratio, i: int) -> int
    decreases 8 - i,
{
    if i >= 8 {
        5
    } else if ratio::closer_than(known_rate(i), rs, one_baud()) {
        i
    } else {
        rate_index_from(rs, i + 1)
    }
}

/// The index of a symbol rate.
pub open spec fn rate_index(rs: Ratio) -> int {
    rate_index_from(rs, 0)
}

/// Values of the table of symbol rates.
pub proof fn lemma_known_rates()
    ensures
        known_rate(0) == (Ratio { num: 500, den: 1 }),
        known_rate(1) == (Ratio { num: 600, den: 1 }),
        known_rate(2) == (Ratio { num: 750, den: 1 }),
        known_rate(3) == (Ratio { num: 1000, den: 1 }),
        known_rate(4) == (Ratio { num: 1200, den: 1 }),
        known_rate(5) == (Ratio { num: 1500, den: 1 }),
        known_rate(6) == (Ratio { num: 2000, den: 1 }),
        known_rate(7) == (Ratio { num: 48000, den: 28 }),
{
}

/// Index of the known symbol rate within 1 Bd of `rs`; 5 if there is none.
fn symbol_rate_index(rs: Ratio) -> (idx: u8)
    ensures
        idx == rate_index(rs),
        idx < 8,
{
    let mut i: usize = 0;
    while i < 8
        invariant
            i <= 8,
            rate_index(rs) == rate_index_from(rs, i as int),
        decreases 8 - i,
    {
        let known = Ratio { num: RATE_NUM[i], den: RATE_DEN[i] };
        if known.is_close(rs, Ratio { num: 1, den: 1 }) {
            return i as u8;
        }
        i = i + 1;
    }
    5
}

/// The known symbol rate at an index.
fn symbol_rate_from_index(idx: u8) -> (rs: Option<Ratio>)
    ensures
        rs is Some <==> idx < 8,
        rs matches Some(r) ==> r == known_rate(idx as int),
{
    if idx < 8 {
        Some(Ratio { num: RATE_NUM[idx as usize], den: RATE_DEN[idx as usize] })
    } else {
        None
    }
}

// ---------------------------------------------------------------------------
// Mode code
// ---------------------------------------------------------------------------

proof fn lemma_mode_code(c: u8, l: u8, r: u8)
    by (bit_vector)
    requires
        l < 4,
        r < 8,
    ensures
        ((c & 0x03) << 6) | (l << 4) | (r & 0x0F) == (c % 4) * 64 + l * 16 + r,
        (c & 0x03) < 4,
{
}

proof fn lemma_mode_fields(code: u8)
    by (bit_vector)
    ensures
        (code >> 6) & 0x03 == code / 64,
        (code >> 4) & 0x03 == (code / 16) % 4,
        code & 0x0F == code % 16,
{
}

impl ModemConfig {
    /// The mode byte: constellation (2 bits), LDPC rate (2 bits), symbol rate (4 bits).
    pub open spec fn spec_mode_code(self) -> int {
        (self.constellation.spec_code() % 4) * 64 + self.ldpc_rate.spec_code() * 16 + rate_index(
            self.symbol_rate,
        )
    }

    /// The fractions have denominators.
    pub open spec fn valid(self) -> bool {
        &&& self.symbol_rate.valid()
        &&& self.beta.valid()
        &&& self.tau.valid()
        &&& self.center_freq_hz.valid()
        &&& self.apsk_gamma.valid()
        &&& self.apsk_gamma2.valid()
        &&& self.apsk_gamma3.valid()
    }

    /// The pulse is that of another configuration: same symbol rate and roll-off.
    pub open spec fn same_pulse(self, other: ModemConfig) -> bool {
        &&& ratio::same_value(self.symbol_rate, other.symbol_rate)
        &&& ratio::same_value(self.beta, other.beta)
    }

    /// Preamble family for a symbol rate and roll-off: that of the predefined profile with
    /// this pair, and A where there is none.
    pub open spec fn spec_preamble_family(self) -> PreambleFamily {
        if self.same_pulse(ProfileIndex::Robust.spec_config()) {
            PreambleFamily::B
        } else if self.same_pulse(ProfileIndex::Ultra.spec_config()) {
            PreambleFamily::C
        } else {
            PreambleFamily::A
        }
    }

    /// Preamble family this configuration emits and expects: that of the predefined profile
    /// with the same symbol rate and roll-off, and A where there is none.
    pub fn preamble_family(&self) -> (family: PreambleFamily)
        requires
            self.symbol_rate.valid(),
            self.beta.valid(),
        ensures
            family == self.spec_preamble_family(),
            forall|p: ProfileIndex|
                self.same_pulse(#[trigger] p.spec_config()) ==> family == p.spec_preamble_family(),
            (forall|p: ProfileIndex| !self.same_pulse(#[trigger] p.spec_config())) ==> family
                == PreambleFamily::A,
    {
        proof {
            law_family_is_that_of_the_pulse(*self);
        }
        if self.beta.is_same(Ratio { num: 25, den: 100 }) {
            if self.symbol_rate.is_same(Ratio { num: 1000, den: 1 }) {
                return PreambleFamily::B;
            }
            if self.symbol_rate.is_same(Ratio { num: 500, den: 1 }) {
                return PreambleFamily::C;
            }
        }
        PreambleFamily::A
    }

    /// Known symbols between preamble and header on which the equaliser settles.
    pub open spec fn spec_warmup_syms(self) -> int {
        if self.constellation == ConstellationType::Apsk64 {
            64
        } else {
            0
        }
    }

    /// Known symbols between preamble and header on which the equaliser settles.
    ///
    /// Only 64-APSK has them: one for each of its points.
    pub fn lms_warmup_syms(&self) -> (n: usize)
        ensures
            n == self.spec_warmup_syms(),
    {
        match self.constellation {
            ConstellationType::Apsk64 => 64,
            _ => 0,
        }
    }

    /// Numerator of the net data rate.
    pub open spec fn net_bits(self) -> int {
        (self.symbol_rate.num * self.tau.num) * (self.constellation.spec_bits_per_sym()
            * self.ldpc_rate.spec_rate().num * self.pilot_pattern.d_syms)
    }

    /// Denominator of the net data rate.
    pub open spec fn net_time(self) -> int {
        (self.symbol_rate.den * self.tau.den) * (self.ldpc_rate.spec_rate().den * (
        self.pilot_pattern.d_syms + self.pilot_pattern.p_syms))
    }

    /// Net data rate in bits per second, after LDPC and pilots, as a fraction.
    pub fn net_bitrate(&self) -> (bps: (u128, u128))
        requires
            self.symbol_rate.valid(),
            self.tau.valid(),
            self.pilot_pattern.d_syms <= u32::MAX,
            self.pilot_pattern.p_syms <= u32::MAX,
            self.pilot_pattern.d_syms + self.pilot_pattern.p_syms > 0,
        ensures
            bps.0 == self.net_bits(),
            bps.1 == self.net_time(),
            bps.1 > 0,
    {
        let rate = self.ldpc_rate.rate();
        let d: u128 = self.pilot_pattern.d_syms as u128;
        let p: u128 = self.pilot_pattern.p_syms as u128;
        let bits: u128 = self.constellation.bits_per_sym() as u128;
        let small: u128 = bits * rate.num as u128;
        assert(small <= 30) by (nonlinear_arith)
            requires
                small == bits * rate.num,
                bits <= 6,
                rate.num <= 5,
        ;
        proof {
            lemma_factor(self.symbol_rate.num as int, self.tau.num as int, 0xFFFF_FFFF, 0xFFFF_FFFF);
            lemma_factor(self.symbol_rate.den as int, self.tau.den as int, 0xFFFF_FFFF, 0xFFFF_FFFF);
            lemma_factor(small as int, d as int, 30, 0xFFFF_FFFF);
            lemma_factor(rate.den as int, d + p, 6, 0x1_FFFF_FFFE);
        }
        let a: u128 = self.symbol_rate.num as u128 * self.tau.num as u128;
        let b: u128 = self.symbol_rate.den as u128 * self.tau.den as u128;
        let c: u128 = small * d;
        let e: u128 = rate.den as u128 * (d + p);
        proof {
            lemma_factor(a as int, c as int, 0xFFFF_FFFE_0000_0001, 0x1E_FFFF_FFE2);
            lemma_factor(b as int, e as int, 0xFFFF_FFFE_0000_0001, 0x0B_FFFF_FFF4);
            assert(b > 0) by (nonlinear_arith)
                requires
                    b == self.symbol_rate.den * self.tau.den,
                    self.symbol_rate.den > 0,
                    self.tau.den > 0,
            ;
            assert(e > 0) by (nonlinear_arith)
                requires
                    e == rate.den * (d + p),
                    rate.den > 0,
                    d + p > 0,
            ;
            assert(b * e > 0) by (nonlinear_arith)
                requires
                    b > 0,
                    e > 0,
            ;
        }
        (a * c, b * e)
    }

    /// Encode the mode into a single byte.
    ///
    /// A constellation number above 3 is cut to its low two bits.
    pub fn mode_code(&self) -> (code: u8)
        ensures
            code == self.spec_mode_code(),
    {
        let c: u8 = self.constellation.code();
        let l: u8 = self.ldpc_rate.code();
        let rs_idx: u8 = symbol_rate_index(self.symbol_rate);
        proof {
            lemma_mode_code(c, l, rs_idx);
        }
        ((c & 0x03) << 6) | (l << 4) | (rs_idx & 0x0F)
    }

    /// Decode a mode byte; the byte does not tell the pilot pattern nor the rings,
    /// which are set to the defaults.
    pub fn from_mode_code(code: u8, beta: Ratio, tau: Ratio, center_freq_hz: Ratio) -> (config:
        Option<Self>)
        ensures
            config is Some <==> code % 16 < 8,
            config matches Some(c) ==> {
                &&& c.constellation.spec_code() == code / 64
                &&& c.ldpc_rate.spec_code() == (code / 16) % 4
                &&& c.symbol_rate == known_rate((code % 16) as int)
                &&& c.beta == beta
                &&& c.tau == tau
                &&& c.center_freq_hz == center_freq_hz
                &&& c.apsk_gamma == (Ratio { num: 285, den: 100 })
                &&& c.apsk_gamma2 == (Ratio { num: 0, den: 1 })
                &&& c.apsk_gamma3 == (Ratio { num: 0, den: 1 })
                &&& c.pilot_pattern == PilotPattern::spec_default_v3()
            },
    {
        proof {
            lemma_mode_fields(code);
        }
        let c = ConstellationType::from_code((code >> 6) & 0x03);
        let l = LdpcRate::from_code((code >> 4) & 0x03);
        let rs = symbol_rate_from_index(code & 0x0F);
        match (c, l, rs) {
            (Some(constellation), Some(ldpc_rate), Some(symbol_rate)) => Some(
                ModemConfig {
                    constellation,
                    ldpc_rate,
                    symbol_rate,
                    beta,
                    tau,
                    center_freq_hz,
                    apsk_gamma: Ratio { num: 285, den: 100 },
                    apsk_gamma2: Ratio { num: 0, den: 1 },
                    apsk_gamma3: Ratio { num: 0, den: 1 },
                    pilot_pattern: PilotPattern::default_v3(),
                },
            ),
            _ => None,
        }
    }
}

proof fn lemma_factor(a: int, b: int, bound_a: int, bound_b: int)
    requires
        0 <= a <= bound_a,
        0 <= b <= bound_b,
    ensures
        0 <= a * b <= bound_a * bound_b,
{
    assert(0 <= a * b <= bound_a * bound_b) by (nonlinear_arith)
        requires
            0 <= a <= bound_a,
            0 <= b <= bound_b,
    ;
}

/// Decoding the mode byte of a configuration gives back its constellation, its
/// LDPC rate and a symbol rate within 1 Bd, as long as the byte can hold them.
pub proof fn law_mode_code_round_trip(config: ModemConfig, decoded: ModemConfig, i: int)
    requires
        config.constellation != ConstellationType::Apsk64,
        0 <= i < 8,
        ratio::closer_than(known_rate(i), config.symbol_rate, one_baud()),
        ({
            let code = config.spec_mode_code();
            &&& decoded.constellation.spec_code() == code / 64
            &&& decoded.ldpc_rate.spec_code() == (code / 16) % 4
            &&& decoded.symbol_rate == known_rate(code % 16)
        }),
    ensures
        0 <= config.spec_mode_code() < 256,
        config.spec_mode_code() % 16 < 8,
        decoded.constellation == config.constellation,
        decoded.ldpc_rate == config.ldpc_rate,
        ratio::closer_than(decoded.symbol_rate, config.symbol_rate, one_baud()),
{
    lemma_rate_index_finds(config.symbol_rate, i, 0);
    let r = rate_index(config.symbol_rate);
    let code = config.spec_mode_code();
    let c = config.constellation.spec_code() as int;
    let l = config.ldpc_rate.spec_code() as int;
    assert(code == c * 64 + l * 16 + r);
    assert(code / 64 == c);
    assert((code / 16) % 4 == l);
    assert(code % 16 == r);
}

proof fn lemma_rate_index_finds(rs: Ratio, i: int, from: int)
    requires
        0 <= from <= i < 8,
        ratio::closer_than(known_rate(i), rs, one_baud()),
    ensures
        from <= rate_index_from(rs, from) <= i,
        ratio::closer_than(known_rate(rate_index_from(rs, from)), rs, one_baud()),
    decreases 8 - from,
{
    if !ratio::closer_than(known_rate(from), rs, one_baud()) {
        lemma_rate_index_finds(rs, i, from + 1);
    }
}

// ---------------------------------------------------------------------------
// Profiles
// ---------------------------------------------------------------------------

/// Canonical profile identifier, carried as a single byte.
///
/// The byte tells configurations apart that share a mode code.
#[derive(Clone, Copy, Debug, PartialEq, Eq, Structural)]
pub enum ProfileIndex {
    Ultra,
    Robust,
    Normal,
    High,
    Mega,
    /// 32-APSK 1500 Bd, LDPC 3/4.
    HighPlus,
    /// Experimental: 16-APSK 1714 Bd, LDPC 3/4.
    Fast,
    /// Experimental: 64-APSK 1500 Bd, LDPC 3/4.
    HighPlusPlus,
    /// 16-APSK 1500 Bd, LDPC 5/6.
    HighFiveSix,
    /// Experimental: 32-APSK 1500 Bd, LDPC 5/6.
    HighPlusFiveSix,
}

/// A configuration at 1500 Bd with roll-off 0.20, one symbol per Nyquist slot
/// and the default pilots.
pub open spec fn base_config(constellation: ConstellationType, ldpc_rate: LdpcRate) -> ModemConfig {
    ModemConfig {
        constellation,
        ldpc_rate,
        symbol_rate: Ratio { num: 1500, den: 1 },
        beta: Ratio { num: 20, den: 100 },
        tau: Ratio { num: 1, den: 1 },
        center_freq_hz: Ratio { num: DATA_CENTER_HZ, den: 1 },
        apsk_gamma: Ratio { num: 285, den: 100 },
        apsk_gamma2: Ratio { num: 0, den: 1 },
        apsk_gamma3: Ratio { num: 0, den: 1 },
        pilot_pattern: PilotPattern::spec_default_v3(),
    }
}

fn make_base_config(constellation: ConstellationType, ldpc_rate: LdpcRate) -> (config: ModemConfig)
    ensures
        config == base_config(constellation, ldpc_rate),
{
    ModemConfig {
        constellation,
        ldpc_rate,
        symbol_rate: Ratio { num: 1500, den: 1 },
        beta: Ratio { num: 20, den: 100 },
        tau: Ratio { num: 1, den: 1 },
        center_freq_hz: Ratio { num: DATA_CENTER_HZ, den: 1 },
        apsk_gamma: Ratio { num: 285, den: 100 },
        apsk_gamma2: Ratio { num: 0, den: 1 },
        apsk_gamma3: Ratio { num: 0, den: 1 },
        pilot_pattern: PilotPattern::default_v3(),
    }
}

impl ProfileIndex {
    /// Stands for "unknown" in the profile byte.
    pub const UNKNOWN: u8 = 0xFF;

    /// All profiles in canonical order.
    pub const ALL: [ProfileIndex; 10] = [
        ProfileIndex::Ultra,
        ProfileIndex::Robust,
        ProfileIndex::Normal,
        ProfileIndex::High,
        ProfileIndex::Mega,
        ProfileIndex::HighPlus,
        ProfileIndex::Fast,
        ProfileIndex::HighPlusPlus,
        ProfileIndex::HighFiveSix,
        ProfileIndex::HighPlusFiveSix,
    ];

    /// Byte of a profile.
    pub open spec fn spec_as_u8(self) -> u8 {
        match self {
            Self::Ultra => 0,
            Self::Robust => 1,
            Self::Normal => 2,
            Self::High => 3,
            Self::Mega => 4,
            Self::HighPlus => 5,
            Self::Fast => 6,
            Self::HighPlusPlus => 7,
            Self::HighFiveSix => 8,
            Self::HighPlusFiveSix => 9,
        }
    }

    /// Profile of a byte.
    pub open spec fn spec_from_u8(b: u8) -> Option<Self> {
        if b == 0 {
            Some(Self::Ultra)
        } else if b == 1 {
            Some(Self::Robust)
        } else if b == 2 {
            Some(Self::Normal)
        } else if b == 3 {
            Some(Self::High)
        } else if b == 4 {
            Some(Self::Mega)
        } else if b == 5 {
            Some(Self::HighPlus)
        } else if b == 6 {
            Some(Self::Fast)
        } else if b == 7 {
            Some(Self::HighPlusPlus)
        } else if b == 8 {
            Some(Self::HighFiveSix)
        } else if b == 9 {
            Some(Self::HighPlusFiveSix)
        } else {
            None
        }
    }

    /// Configuration of a profile.
    pub open spec fn spec_config(self) -> ModemConfig {
        match self {
            Self::Ultra => ModemConfig {
                symbol_rate: Ratio { num: 500, den: 1 },
                beta: Ratio { num: 25, den: 100 },
                pilot_pattern: PilotPattern::spec_dense_ultra(),
                ..base_config(ConstellationType::Qpsk, LdpcRate::R1_2)
            },
            Self::Robust => ModemConfig {
                symbol_rate: Ratio { num: 1000, den: 1 },
                beta: Ratio { num: 25, den: 100 },
                ..base_config(ConstellationType::Qpsk, LdpcRate::R1_2)
            },
            Self::Normal => base_config(ConstellationType::Psk8, LdpcRate::R1_2),
            Self::High => base_config(ConstellationType::Apsk16, LdpcRate::R3_4),
            Self::Mega => ModemConfig {
                tau: Ratio { num: 30, den: 32 },
                ..base_config(ConstellationType::Apsk16, LdpcRate::R3_4)
            },
            Self::HighPlus => ModemConfig {
                apsk_gamma: Ratio { num: 284, den: 100 },
                apsk_gamma2: Ratio { num: 527, den: 100 },
                ..base_config(ConstellationType::Apsk32, LdpcRate::R3_4)
            },
            Self::Fast => ModemConfig {
                symbol_rate: Ratio { num: 48000, den: 28 },
                beta: Ratio { num: 15, den: 100 },
                ..base_config(ConstellationType::Apsk16, LdpcRate::R3_4)
            },
            Self::HighPlusPlus => ModemConfig {
                apsk_gamma: Ratio { num: 240, den: 100 },
                apsk_gamma2: Ratio { num: 430, den: 100 },
                apsk_gamma3: Ratio { num: 700, den: 100 },
                pilot_pattern: PilotPattern::spec_dense_ultra(),
                ..base_config(ConstellationType::Apsk64, LdpcRate::R3_4)
            },
            Self::HighFiveSix => base_config(ConstellationType::Apsk16, LdpcRate::R5_6),
            Self::HighPlusFiveSix => ModemConfig {
                apsk_gamma: Ratio { num: 284, den: 100 },
                apsk_gamma2: Ratio { num: 527, den: 100 },
                ..base_config(ConstellationType::Apsk32, LdpcRate::R5_6)
            },
        }
    }

    /// Canonical name of a profile.
    pub open spec fn spec_name(self) -> Seq<char> {
        match self {
            Self::Ultra => "ULTRA"@,
            Self::Robust => "ROBUST"@,
            Self::Normal => "NORMAL"@,
            Self::High => "HIGH"@,
            Self::Mega => "MEGA"@,
            Self::HighPlus => "HIGH+"@,
            Self::Fast => "FAST"@,
            Self::HighPlusPlus => "HIGH++"@,
            Self::HighFiveSix => "HIGH56"@,
            Self::HighPlusFiveSix => "HIGH+56"@,
        }
    }

    /// Profile with a name in upper case: a canonical name or an alias without `+`.
    pub open spec fn spec_from_upper(name: Seq<char>) -> Option<Self> {
        if name == "ULTRA"@ {
            Some(Self::Ultra)
        } else if name == "ROBUST"@ {
            Some(Self::Robust)
        } else if name == "NORMAL"@ {
            Some(Self::Normal)
        } else if name == "HIGH"@ {
            Some(Self::High)
        } else if name == "MEGA"@ {
            Some(Self::Mega)
        } else if name == "HIGH+"@ || name == "HIGHPLUS"@ {
            Some(Self::HighPlus)
        } else if name == "FAST"@ {
            Some(Self::Fast)
        } else if name == "HIGH++"@ || name == "HIGHPLUSPLUS"@ {
            Some(Self::HighPlusPlus)
        } else if name == "HIGH56"@ || name == "HIGH-56"@ {
            Some(Self::HighFiveSix)
        } else if name == "HIGH+56"@ || name == "HIGHPLUS56"@ {
            Some(Self::HighPlusFiveSix)
        } else {
            None
        }
    }

    /// Byte of this profile.
    pub fn as_u8(self) -> (b: u8)
        ensures
            b == self.spec_as_u8(),
    {
        match self {
            Self::Ultra => 0,
            Self::Robust => 1,
            Self::Normal => 2,
            Self::High => 3,
            Self::Mega => 4,
            Self::HighPlus => 5,
            Self::Fast => 6,
            Self::HighPlusPlus => 7,
            Self::HighFiveSix => 8,
            Self::HighPlusFiveSix => 9,
        }
    }

    /// Profile of a byte.
    pub fn from_u8(b: u8) -> (p: Option<Self>)
        ensures
            p == Self::spec_from_u8(b),
    {
        match b {
            0 => Some(Self::Ultra),
            1 => Some(Self::Robust),
            2 => Some(Self::Normal),
            3 => Some(Self::High),
            4 => Some(Self::Mega),
            5 => Some(Self::HighPlus),
            6 => Some(Self::Fast),
            7 => Some(Self::HighPlusPlus),
            8 => Some(Self::HighFiveSix),
            9 => Some(Self::HighPlusFiveSix),
            _ => None,
        }
    }

    /// Build the full configuration of this profile.
    pub fn to_config(self) -> (config: ModemConfig)
        ensures
            config == self.spec_config(),
    {
        match self {
            Self::Ultra => profile_ultra(),
            Self::Robust => profile_robust(),
            Self::Normal => profile_normal(),
            Self::High => profile_high(),
            Self::Mega => profile_mega(),
            Self::HighPlus => profile_high_plus(),
            Self::Fast => profile_fast(),
            Self::HighPlusPlus => profile_high_plus_plus(),
            Self::HighFiveSix => profile_high_5_6(),
            Self::HighPlusFiveSix => profile_high_plus_5_6(),
        }
    }

    /// Canonical name.
    pub fn name(self) -> (name: &'static str)
        ensures
            name@ == self.spec_name(),
    {
        match self {
            Self::Ultra => "ULTRA",
            Self::Robust => "ROBUST",
            Self::Normal => "NORMAL",
            Self::High => "HIGH",
            Self::Mega => "MEGA",
            Self::HighPlus => "HIGH+",
            Self::Fast => "FAST",
            Self::HighPlusPlus => "HIGH++",
            Self::HighFiveSix => "HIGH56",
            Self::HighPlusFiveSix => "HIGH+56",
        }
    }

    /// Profile with a name in upper case.
    pub fn from_upper_name(name: &String) -> (p: Option<Self>)
        ensures
            p == Self::spec_from_upper(name@),
    {
        if same_text(name, "ULTRA") {
            Some(Self::Ultra)
        } else if same_text(name, "ROBUST") {
            Some(Self::Robust)
        } else if same_text(name, "NORMAL") {
            Some(Self::Normal)
        } else if same_text(name, "HIGH") {
            Some(Self::High)
        } else if same_text(name, "MEGA") {
            Some(Self::Mega)
        } else if same_text(name, "HIGH+") || same_text(name, "HIGHPLUS") {
            Some(Self::HighPlus)
        } else if same_text(name, "FAST") {
            Some(Self::Fast)
        } else if same_text(name, "HIGH++") || same_text(name, "HIGHPLUSPLUS") {
            Some(Self::HighPlusPlus)
        } else if same_text(name, "HIGH56") || same_text(name, "HIGH-56") {
            Some(Self::HighFiveSix)
        } else if same_text(name, "HIGH+56") || same_text(name, "HIGHPLUS56") {
            Some(Self::HighPlusFiveSix)
        } else {
            None
        }
    }

    /// Resolve a profile by name, in any case.
    pub fn from_name(name: &str) -> (p: Option<Self>)
        ensures
            p == Self::spec_from_upper(upper_case(name@)),
            is_ascii_text(name@) ==> p == Self::spec_from_upper(ascii_upper_case(name@)),
    {
        let upper = to_upper_case(name);
        Self::from_upper_name(&upper)
    }

    /// Whether a profile is left out of auto-detection.
    pub open spec fn spec_is_experimental(self) -> bool {
        match self {
            Self::Mega | Self::Fast | Self::HighPlusPlus | Self::HighPlusFiveSix => true,
            _ => false,
        }
    }

    /// Whether this profile is left out of auto-detection and usable only when
    /// the receiver is told to expect it.
    pub fn is_experimental(self) -> (yes: bool)
        ensures
            yes == self.spec_is_experimental(),
    {
        match self {
            Self::Mega | Self::Fast | Self::HighPlusPlus | Self::HighPlusFiveSix => true,
            _ => false,
        }
    }

    /// Preamble family of a profile.
    pub open spec fn spec_preamble_family(self) -> PreambleFamily {
        match self {
            Self::Robust => PreambleFamily::B,
            Self::Ultra => PreambleFamily::C,
            _ => PreambleFamily::A,
        }
    }

    /// Preamble family this profile uses on the air.
    pub fn preamble_family(self) -> (family: PreambleFamily)
        ensures
            family == self.spec_preamble_family(),
    {
        match self {
            Self::Robust => PreambleFamily::B,
            Self::Ultra => PreambleFamily::C,
            _ => PreambleFamily::A,
        }
    }

    /// Profile to assume for a family.
    pub open spec fn spec_anchor(family: PreambleFamily) -> Self {
        match family {
            PreambleFamily::A => Self::Normal,
            PreambleFamily::B => Self::Robust,
            PreambleFamily::C => Self::Ultra,
        }
    }

    /// Profile to assume once a family was heard and until the exact profile is known.
    pub fn anchor_for_family(family: PreambleFamily) -> (p: Self)
        ensures
            p == Self::spec_anchor(family),
    {
        match family {
            PreambleFamily::A => Self::Normal,
            PreambleFamily::B => Self::Robust,
            PreambleFamily::C => Self::Ultra,
        }
    }
}

/// Text in upper case, as Unicode defines it.
pub uninterp spec fn upper_case(text: Seq<char>) -> Seq<char>;

/// Text of ASCII characters.
pub open spec fn is_ascii_text(text: Seq<char>) -> bool {
    forall|i: int| 0 <= i < text.len() ==> (#[trigger] text[i] as int) < 128
}

/// An ASCII character in upper case.
pub open spec fn ascii_upper(c: char) -> char {
    if 'a' <= c && c <= 'z' {
        (c as int - 32) as char
    } else {
        c
    }
}

/// Text of ASCII characters in upper case.
pub open spec fn ascii_upper_case(text: Seq<char>) -> Seq<char> {
    Seq::new(text.len(), |i: int| ascii_upper(text[i]))
}

/// `str::to_uppercase`: the result depends on the text alone. Of ASCII text it changes
/// the letters `a` to `z`, each to its capital letter.
#[verifier::external_body]
fn to_upper_case(text: &str) -> (upper: String)
    ensures
        upper@ == upper_case(text@),
        is_ascii_text(text@) ==> upper@ == ascii_upper_case(text@),
{
    text.to_uppercase()
}

/// Whether `a` holds the text `b`.
fn same_text(a: &String, b: &str) -> (same: bool)
    ensures
        same == (a@ == b@),
{
    *a == b.to_owned()
}

/// Resolve a profile name to its full configuration.
pub fn config_by_name(name: &str) -> (config: Option<ModemConfig>)
    ensures
        config == match ProfileIndex::spec_from_upper(upper_case(name@)) {
            Some(p) => Some(p.spec_config()),
            None => None,
        },
        is_ascii_text(name@) ==> config == match ProfileIndex::spec_from_upper(
            ascii_upper_case(name@),
        ) {
            Some(p) => Some(p.spec_config()),
            None => None,
        },
{
    match ProfileIndex::from_name(name) {
        Some(p) => Some(p.to_config()),
        None => None,
    }
}

/// 16-APSK 1500 Bd LDPC 3/4, symbols packed to 30/32 of the Nyquist spacing.
pub fn profile_mega() -> (config: ModemConfig)
    ensures
        config == ProfileIndex::Mega.spec_config(),
{
    let mut config = make_base_config(ConstellationType::Apsk16, LdpcRate::R3_4);
    config.tau = Ratio { num: 30, den: 32 };
    config
}

/// 16-APSK 1500 Bd LDPC 3/4.
pub fn profile_high() -> (config: ModemConfig)
    ensures
        config == ProfileIndex::High.spec_config(),
{
    make_base_config(ConstellationType::Apsk16, LdpcRate::R3_4)
}

/// 8PSK 1500 Bd LDPC 1/2.
pub fn profile_normal() -> (config: ModemConfig)
    ensures
        config == ProfileIndex::Normal.spec_config(),
{
    make_base_config(ConstellationType::Psk8, LdpcRate::R1_2)
}

/// QPSK 1000 Bd LDPC 1/2.
pub fn profile_robust() -> (config: ModemConfig)
    ensures
        config == ProfileIndex::Robust.spec_config(),
{
    let mut config = make_base_config(ConstellationType::Qpsk, LdpcRate::R1_2);
    config.symbol_rate = Ratio { num: 1000, den: 1 };
    config.beta = Ratio { num: 25, den: 100 };
    config
}

/// QPSK 500 Bd LDPC 1/2 with dense pilots.
pub fn profile_ultra() -> (config: ModemConfig)
    ensures
        config == ProfileIndex::Ultra.spec_config(),
{
    let mut config = make_base_config(ConstellationType::Qpsk, LdpcRate::R1_2);
    config.symbol_rate = Ratio { num: 500, den: 1 };
    config.beta = Ratio { num: 25, den: 100 };
    config.pilot_pattern = PilotPattern::dense_ultra();
    config
}

/// Experimental: 16-APSK at 48000/28 Bd with roll-off 0.15, LDPC 3/4.
pub fn profile_fast() -> (config: ModemConfig)
    ensures
        config == ProfileIndex::Fast.spec_config(),
{
    let mut config = make_base_config(ConstellationType::Apsk16, LdpcRate::R3_4);
    config.symbol_rate = Ratio { num: 48000, den: 28 };
    config.beta = Ratio { num: 15, den: 100 };
    config
}

/// 32-APSK 1500 Bd LDPC 3/4.
pub fn profile_high_plus() -> (config: ModemConfig)
    ensures
        config == ProfileIndex::HighPlus.spec_config(),
{
    let mut config = make_base_config(ConstellationType::Apsk32, LdpcRate::R3_4);
    config.apsk_gamma = Ratio { num: 284, den: 100 };
    config.apsk_gamma2 = Ratio { num: 527, den: 100 };
    config
}

/// 16-APSK 1500 Bd LDPC 5/6.
pub fn profile_high_5_6() -> (config: ModemConfig)
    ensures
        config == ProfileIndex::HighFiveSix.spec_config(),
{
    make_base_config(ConstellationType::Apsk16, LdpcRate::R5_6)
}

/// Experimental: 32-APSK 1500 Bd LDPC 5/6.
pub fn profile_high_plus_5_6() -> (config: ModemConfig)
    ensures
        config == ProfileIndex::HighPlusFiveSix.spec_config(),
{
    let mut config = make_base_config(ConstellationType::Apsk32, LdpcRate::R5_6);
    config.apsk_gamma = Ratio { num: 284, den: 100 };
    config.apsk_gamma2 = Ratio { num: 527, den: 100 };
    config
}

/// Experimental: 64-APSK 1500 Bd LDPC 3/4 with dense pilots.
pub fn profile_high_plus_plus() -> (config: ModemConfig)
    ensures
        config == ProfileIndex::HighPlusPlus.spec_config(),
{
    let mut config = make_base_config(ConstellationType::Apsk64, LdpcRate::R3_4);
    config.apsk_gamma = Ratio { num: 240, den: 100 };
    config.apsk_gamma2 = Ratio { num: 430, den: 100 };
    config.apsk_gamma3 = Ratio { num: 700, den: 100 };
    config.pilot_pattern = PilotPattern::dense_ultra();
    config
}

// ---------------------------------------------------------------------------
// Laws
// ---------------------------------------------------------------------------

/// The byte of a profile leads back to it, and no other byte than 0 to 9 names one.
pub proof fn law_profile_byte_round_trip(p: ProfileIndex, b: u8)
    ensures
        ProfileIndex::spec_from_u8(p.spec_as_u8()) == Some(p),
        ProfileIndex::spec_from_u8(b) == Some(p) <==> b == p.spec_as_u8(),
        ProfileIndex::spec_from_u8(ProfileIndex::UNKNOWN) is None,
{
}

/// The list of all profiles holds each profile at the position of its byte.
pub proof fn law_all_lists_every_profile(p: ProfileIndex)
    ensures
        ProfileIndex::ALL@.len() == 10,
        ProfileIndex::ALL@[p.spec_as_u8() as int] == p,
{
    let all = ProfileIndex::ALL@;
    assert(all[0] == ProfileIndex::Ultra);
    assert(all[1] == ProfileIndex::Robust);
    assert(all[2] == ProfileIndex::Normal);
    assert(all[3] == ProfileIndex::High);
    assert(all[4] == ProfileIndex::Mega);
    assert(all[5] == ProfileIndex::HighPlus);
    assert(all[6] == ProfileIndex::Fast);
    assert(all[7] == ProfileIndex::HighPlusPlus);
    assert(all[8] == ProfileIndex::HighFiveSix);
    assert(all[9] == ProfileIndex::HighPlusFiveSix);
}

/// The canonical name of a profile leads back to it, in any case of its letters.
pub proof fn law_profile_name_round_trip(p: ProfileIndex, name: Seq<char>)
    requires
        ascii_upper_case(name) == p.spec_name(),
    ensures
        is_ascii_text(name),
        ProfileIndex::spec_from_upper(ascii_upper_case(name)) == Some(p),
        ascii_upper_case(p.spec_name()) == p.spec_name(),
{
    lemma_names_differ();
    lemma_names_are_capital(p);
    assert forall|i: int| 0 <= i < name.len() implies (#[trigger] name[i] as int) < 128 by {
        assert(ascii_upper(name[i]) == ascii_upper_case(name)[i]);
        assert((p.spec_name()[i] as int) < 128);
        assert('z' as int == 122);
    }
    assert(ascii_upper_case(p.spec_name()) =~= p.spec_name());
}

/// Names are in capital letters.
proof fn lemma_names_are_capital(p: ProfileIndex)
    ensures
        is_ascii_text(p.spec_name()),
        forall|i: int|
            0 <= i < p.spec_name().len() ==> ascii_upper(#[trigger] p.spec_name()[i])
                == p.spec_name()[i],
{
    reveal_strlit("ULTRA");
    reveal_strlit("ROBUST");
    reveal_strlit("NORMAL");
    reveal_strlit("HIGH");
    reveal_strlit("MEGA");
    reveal_strlit("HIGH+");
    reveal_strlit("FAST");
    reveal_strlit("HIGH++");
    reveal_strlit("HIGH56");
    reveal_strlit("HIGH+56");
}

proof fn lemma_names_differ()
    ensures
        "ULTRA"@.len() == 5 && "ULTRA"@[0] == 'U',
        "ROBUST"@.len() == 6 && "ROBUST"@[0] == 'R',
        "NORMAL"@.len() == 6 && "NORMAL"@[0] == 'N',
        "HIGH"@.len() == 4 && "HIGH"@[0] == 'H',
        "MEGA"@.len() == 4 && "MEGA"@[0] == 'M',
        "HIGH+"@.len() == 5 && "HIGH+"@[0] == 'H',
        "HIGHPLUS"@.len() == 8,
        "FAST"@.len() == 4 && "FAST"@[0] == 'F',
        "HIGH++"@.len() == 6 && "HIGH++"@[0] == 'H' && "HIGH++"@[4] == '+',
        "HIGHPLUSPLUS"@.len() == 12,
        "HIGH56"@.len() == 6 && "HIGH56"@[0] == 'H' && "HIGH56"@[4] == '5',
        "HIGH-56"@.len() == 7 && "HIGH-56"@[4] == '-',
        "HIGH+56"@.len() == 7 && "HIGH+56"@[4] == '+',
{
    reveal_strlit("ULTRA");
    reveal_strlit("ROBUST");
    reveal_strlit("NORMAL");
    reveal_strlit("HIGH");
    reveal_strlit("MEGA");
    reveal_strlit("HIGH+");
    reveal_strlit("HIGHPLUS");
    reveal_strlit("FAST");
    reveal_strlit("HIGH++");
    reveal_strlit("HIGHPLUSPLUS");
    reveal_strlit("HIGH56");
    reveal_strlit("HIGH-56");
    reveal_strlit("HIGH+56");
}

/// What the pulse of a profile says of a configuration.
proof fn lemma_same_pulse(config: ModemConfig, p: ProfileIndex)
    ensures
        config.same_pulse(p.spec_config()) <==> match p {
            ProfileIndex::Robust => {
                &&& config.symbol_rate.num == 1000 * config.symbol_rate.den
                &&& config.beta.num * 100 == 25 * config.beta.den
            },
            ProfileIndex::Ultra => {
                &&& config.symbol_rate.num == 500 * config.symbol_rate.den
                &&& config.beta.num * 100 == 25 * config.beta.den
            },
            ProfileIndex::Fast => {
                &&& config.symbol_rate.num * 28 == 48000 * config.symbol_rate.den
                &&& config.beta.num * 100 == 15 * config.beta.den
            },
            _ => {
                &&& config.symbol_rate.num == 1500 * config.symbol_rate.den
                &&& config.beta.num * 100 == 20 * config.beta.den
            },
        },
{
    let (rs, beta) = (p.spec_config().symbol_rate, p.spec_config().beta);
    lemma_same_value(config.symbol_rate, rs, rs.num as int, rs.den as int);
    lemma_same_value(config.beta, beta, beta.num as int, beta.den as int);
}

proof fn lemma_same_value(a: Ratio, b: Ratio, num: int, den: int)
    requires
        b.num == num,
        b.den == den,
    ensures
        ratio::same_value(a, b) <==> a.num * den == num * a.den,
{
}

/// A configuration has the preamble family of every predefined profile with its symbol rate
/// and roll-off, and family A where no profile has them.
pub proof fn law_family_is_that_of_the_pulse(config: ModemConfig)
    requires
        config.symbol_rate.valid(),
        config.beta.valid(),
    ensures
        forall|p: ProfileIndex|
            config.same_pulse(#[trigger] p.spec_config()) ==> config.spec_preamble_family()
                == p.spec_preamble_family(),
        (forall|p: ProfileIndex| !config.same_pulse(#[trigger] p.spec_config()))
            ==> config.spec_preamble_family() == PreambleFamily::A,
{
    assert forall|p: ProfileIndex|
        config.same_pulse(#[trigger] p.spec_config()) implies config.spec_preamble_family()
        == p.spec_preamble_family() by {
        lemma_same_pulse(config, p);
        lemma_same_pulse(config, ProfileIndex::Robust);
        lemma_same_pulse(config, ProfileIndex::Ultra);
    }
    if config.spec_preamble_family() == PreambleFamily::B {
        assert(config.same_pulse(ProfileIndex::Robust.spec_config()));
    }
    if config.spec_preamble_family() == PreambleFamily::C {
        assert(config.same_pulse(ProfileIndex::Ultra.spec_config()));
    }
}

/// Every profile is valid, and its configuration has the preamble family of the profile.
pub proof fn law_profile_config_family(p: ProfileIndex)
    ensures
        p.spec_config().valid(),
        p.spec_config().spec_preamble_family() == p.spec_preamble_family(),
{
    law_family_is_that_of_the_pulse(p.spec_config());
}

/// The anchor of a family belongs to that family and takes part in auto-detection.
pub proof fn law_anchor_is_in_its_family(family: PreambleFamily)
    ensures
        ProfileIndex::spec_anchor(family).spec_preamble_family() == family,
        !ProfileIndex::spec_anchor(family).spec_is_experimental(),
{
}

/// A code rate is the share of information in the 2304 bits of a codeword.
pub proof fn law_rate_is_the_share_of_information(rate: LdpcRate)
    ensures
        rate.spec_rate().num * 2304 == rate.spec_k() * rate.spec_rate().den,
        rate.spec_k() % 8 == 0,
{
}

/// A symbol rate that is not within 1 Bd of a known one counts as 1500 Bd in the mode byte,
/// and one that is as the first such.
pub proof fn law_unknown_rate_counts_as_1500(rs: Ratio, i: int)
    ensures
        (forall|j: int| 0 <= j < 8 ==> !ratio::closer_than(#[trigger] known_rate(j), rs, one_baud()))
            ==> known_rate(rate_index(rs)) == (Ratio { num: 1500, den: 1 }),
        0 <= i < 8 && ratio::closer_than(known_rate(i), rs, one_baud()) ==> {
            &&& rate_index(rs) <= i
            &&& ratio::closer_than(known_rate(rate_index(rs)), rs, one_baud())
        },
{
    if 0 <= i < 8 && ratio::closer_than(known_rate(i), rs, one_baud()) {
        lemma_rate_index_finds(rs, i, 0);
    }
    if forall|j: int| 0 <= j < 8 ==> !ratio::closer_than(#[trigger] known_rate(j), rs, one_baud()) {
        reveal_with_fuel(rate_index_from, 10);
        assert(!ratio::closer_than(known_rate(0), rs, one_baud()));
        assert(!ratio::closer_than(known_rate(1), rs, one_baud()));
        assert(!ratio::closer_than(known_rate(2), rs, one_baud()));
        assert(!ratio::closer_than(known_rate(3), rs, one_baud()));
        assert(!ratio::closer_than(known_rate(4), rs, one_baud()));
        assert(!ratio::closer_than(known_rate(5), rs, one_baud()));
        assert(!ratio::closer_than(known_rate(6), rs, one_baud()));
        assert(!ratio::closer_than(known_rate(7), rs, one_baud()));
        lemma_known_rates();
    }
}

/// 64-APSK settles on one known symbol for each of its points, other constellations on none.
pub proof fn law_warmup_has_a_symbol_for_each_point(config: ModemConfig)
    ensures
        config.constellation == ConstellationType::Apsk64 ==> config.spec_warmup_syms()
            == vstd::arithmetic::power2::pow2(config.constellation.spec_bits_per_sym() as nat),
        config.constellation != ConstellationType::Apsk64 ==> config.spec_warmup_syms() == 0,
{
    vstd::arithmetic::power2::lemma2_to64();
}

/// Names without a plus sign stand for those with one, and a hyphen may stand before 56.
pub proof fn law_aliases_name_their_profiles()
    ensures
        ProfileIndex::spec_from_upper("HIGHPLUS"@) == Some(ProfileIndex::HighPlus),
        ProfileIndex::spec_from_upper("HIGHPLUSPLUS"@) == Some(ProfileIndex::HighPlusPlus),
        ProfileIndex::spec_from_upper("HIGH-56"@) == Some(ProfileIndex::HighFiveSix),
        ProfileIndex::spec_from_upper("HIGHPLUS56"@) == Some(ProfileIndex::HighPlusFiveSix),
{
    lemma_names_differ();
    reveal_strlit("HIGHPLUS56");
}

/// The net data rate counts the info bits of the data symbols: in the time of `d + p`
/// symbols, `d` of them carry their bits, of which `k` in 2304 are information.
pub proof fn law_net_rate_counts_info_bits(config: ModemConfig)
    ensures
        ({
            let (d, p) = (config.pilot_pattern.d_syms as int, config.pilot_pattern.p_syms as int);
            let (rs, tau) = (config.symbol_rate, config.tau);
            let bits = config.constellation.spec_bits_per_sym() as int;
            let k = config.ldpc_rate.spec_k() as int;
            config.net_bits() * (2304 * (rs.den * tau.den) * (d + p)) == config.net_time() * ((
            rs.num * tau.num) * (bits * k * d))
        }),
{
    let (d, p) = (config.pilot_pattern.d_syms as int, config.pilot_pattern.p_syms as int);
    let (a, b) = (
        config.symbol_rate.num * config.tau.num,
        config.symbol_rate.den * config.tau.den,
    );
    let bits = config.constellation.spec_bits_per_sym() as int;
    let k = config.ldpc_rate.spec_k() as int;
    let rate = config.ldpc_rate.spec_rate();
    let (rn, rd) = (rate.num as int, rate.den as int);
    law_rate_is_the_share_of_information(config.ldpc_rate);
    let x = d + p;
    let w = bits * d * x;
    let (u, v) = (rd * x, bits * k * d);
    let (y, z) = (bits * rn * d, 2304 * b * x);
    assert((b * u) * (a * v) == (a * b) * (u * v)) by (nonlinear_arith);
    assert(u * v == (k * rd) * w) by (nonlinear_arith)
        requires
            u == rd * x,
            v == bits * k * d,
            w == bits * d * x,
    ;
    assert((a * y) * z == (a * b) * ((2304 * x) * y)) by (nonlinear_arith)
        requires
            z == 2304 * b * x,
    ;
    assert((2304 * x) * y == (rn * 2304) * w) by (nonlinear_arith)
        requires
            y == bits * rn * d,
            w == bits * d * x,
    ;
    assert(rn * 2304 == k * rd);
}

} // verus!
