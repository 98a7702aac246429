//! The profile byte of a configuration, and what a receiver reports of a frame.

use vstd::prelude::*;

use crate::profile;
use crate::profile::{ModemConfig, ProfileIndex};
use crate::ratio;
use crate::ratio::Ratio;

verus! {

/// End-of-transmission flag of a header.
pub const FLAG_EOT: u8 = 0x04;

/// What a receiver reports of the frame it decoded.
#[derive(Clone, Copy, Debug, PartialEq, Eq, Structural)]
pub struct Header {
    pub version: u8,
    pub mode_code: u8,
    pub frame_counter: u16,
    pub payload_length: u16,
    pub flags: u8,
    pub freq_offset: u8,
    /// Byte of a profile, or `ProfileIndex::UNKNOWN`.
    pub profile_index: u8,
}

/// The two configurations have the same constellation and LDPC rate, symbol rates
/// less than 1 Bd apart and spacings less than a millionth apart.
pub open spec fn same_mode(a: ModemConfig, b: ModemConfig) -> bool {
    &&& a.constellation == b.constellation
    &&& a.ldpc_rate == b.ldpc_rate
    &&& ratio::closer_than(a.symbol_rate, b.symbol_rate, Ratio { num: 1, den: 1 })
    &&& ratio::closer_than(a.tau, b.tau, Ratio { num: 1, den: 1_000_000 })
}

/// A profile runs in the mode of `config`.
pub open spec fn fits(p: ProfileIndex, config: ModemConfig) -> bool {
    same_mode(p.spec_config(), config)
}

/// The byte of the first profile in canonical order that runs in the mode of a
/// configuration, or `UNKNOWN`.
pub open spec fn is_profile_byte(byte: u8, config: ModemConfig) -> bool {
    &&& byte == ProfileIndex::UNKNOWN <==> forall|p: ProfileIndex| !#[trigger] fits(p, config)
    &&& byte != ProfileIndex::UNKNOWN ==> exists|p: ProfileIndex|
        byte == p.spec_as_u8() && #[trigger] fits(p, config)
    &&& forall|p: ProfileIndex| #[trigger] fits(p, config) ==> byte <= p.spec_as_u8()
}

/// Byte of the first predefined profile that a configuration matches in
/// constellation, LDPC rate, symbol rate and spacing, or `ProfileIndex::UNKNOWN`.
pub fn derive_profile_index(config: &ModemConfig) -> (byte: u8)
    ensures
        is_profile_byte(byte, *config),
{
    let mut i: usize = 0;
    while i < 10
        invariant
            i <= 10,
            forall|p: ProfileIndex| #[trigger] p.spec_as_u8() < i ==> !fits(p, *config),
        decreases 10 - i,
    {
        let p = ProfileIndex::ALL[i];
        proof {
            profile::law_all_lists_every_profile(p);
            assert forall|q: ProfileIndex| #[trigger] q.spec_as_u8() == i implies q == p by {
                profile::law_all_lists_every_profile(q);
            }
            lemma_positions(i as int);
        }
        let reference = p.to_config();
        if reference.constellation == config.constellation && reference.ldpc_rate
            == config.ldpc_rate && reference.symbol_rate.is_close(
            config.symbol_rate,
            Ratio { num: 1, den: 1 },
        ) && reference.tau.is_close(config.tau, Ratio { num: 1, den: 1_000_000 }) {
            assert(fits(p, *config));
            return p.as_u8();
        }
        assert(!fits(p, *config));
        i = i + 1;
    }
    assert forall|p: ProfileIndex| !#[trigger] fits(p, *config) by {
        assert(p.spec_as_u8() < 10);
    }
    ProfileIndex::UNKNOWN
}

/// The profile at position `i` of the list has byte `i`.
proof fn lemma_positions(i: int)
    requires
        0 <= i < 10,
    ensures
        ProfileIndex::ALL@[i].spec_as_u8() == i,
{
    profile::law_all_lists_every_profile(ProfileIndex::Ultra);
    profile::law_all_lists_every_profile(ProfileIndex::Robust);
    profile::law_all_lists_every_profile(ProfileIndex::Normal);
    profile::law_all_lists_every_profile(ProfileIndex::High);
    profile::law_all_lists_every_profile(ProfileIndex::Mega);
    profile::law_all_lists_every_profile(ProfileIndex::HighPlus);
    profile::law_all_lists_every_profile(ProfileIndex::Fast);
    profile::law_all_lists_every_profile(ProfileIndex::HighPlusPlus);
    profile::law_all_lists_every_profile(ProfileIndex::HighFiveSix);
    profile::law_all_lists_every_profile(ProfileIndex::HighPlusFiveSix);
}

/// Two fractions are less than 1 apart.
proof fn lemma_within_one(a: Ratio, b: Ratio)
    ensures
        ratio::closer_than(a, b, Ratio { num: 1, den: 1 }) <==> -(a.den * b.den) < a.num * b.den
            - b.num * a.den < a.den * b.den,
{
    let tol = Ratio { num: 1, den: 1 };
    let diff = a.num * b.den - b.num * a.den;
    let mag = if diff < 0 {
        -diff
    } else {
        diff
    };
    let scale = a.den * b.den;
    assert(mag * tol.den == mag && tol.num * scale == scale) by (nonlinear_arith)
        requires
            tol.num == 1,
            tol.den == 1,
    ;
}

/// Distance test on whole numbers of baud.
proof fn lemma_whole_rates(a: Ratio, b: Ratio)
    requires
        a.den == 1,
        b.den == 1,
    ensures
        ratio::closer_than(a, b, Ratio { num: 1, den: 1 }) <==> a.num == b.num,
{
    lemma_within_one(a, b);
    assert(a.num * b.den == a.num) by (nonlinear_arith)
        requires
            b.den == 1,
    ;
    assert(b.num * a.den == b.num) by (nonlinear_arith)
        requires
            a.den == 1,
    ;
    assert(a.den * b.den == 1) by (nonlinear_arith)
        requires
            a.den == 1,
            b.den == 1,
    ;
}

/// The packed spacing is told apart from the plain one.
proof fn lemma_packed_spacing(a: Ratio, b: Ratio)
    requires
        a == (Ratio { num: 1, den: 1 }) && b == (Ratio { num: 30, den: 32 }) || a == (Ratio {
            num: 30,
            den: 32,
        }) && b == (Ratio { num: 1, den: 1 }),
    ensures
        !ratio::closer_than(a, b, Ratio { num: 1, den: 1_000_000 }),
{
    let diff = a.num * b.den - b.num * a.den;
    assert(diff == 2 || diff == -2) by (nonlinear_arith)
        requires
            diff == a.num * b.den - b.num * a.den,
            a.num == 1 && a.den == 1 && b.num == 30 && b.den == 32 || a.num == 30 && a.den == 32
                && b.num == 1 && b.den == 1,
    ;
    assert(a.den * b.den == 32) by (nonlinear_arith)
        requires
            a.den == 1 && b.den == 32 || a.den == 32 && b.den == 1,
    ;
}

/// 48000/28 Bd is told apart from 1500 Bd and less.
proof fn lemma_odd_rate(a: Ratio, b: Ratio)
    requires
        a.num <= 1500 && a.den == 1 && b.num == 48000 && b.den == 28 || a.num == 48000 && a.den
            == 28 && b.num <= 1500 && b.den == 1,
    ensures
        !ratio::closer_than(a, b, Ratio { num: 1, den: 1 }),
{
    lemma_within_one(a, b);
    let diff = a.num * b.den - b.num * a.den;
    assert(diff >= 6000 || diff <= -6000) by (nonlinear_arith)
        requires
            diff == a.num * b.den - b.num * a.den,
            a.num <= 1500 && a.den == 1 && b.num == 48000 && b.den == 28 || a.num == 48000 && a.den
                == 28 && b.num <= 1500 && b.den == 1,
    ;
    assert(a.den * b.den == 28) by (nonlinear_arith)
        requires
            a.den == 1 && b.den == 28 || a.den == 28 && b.den == 1,
    ;
}

/// Every profile is found from its own configuration, and from no other profile's.
pub proof fn law_profile_is_found_from_its_config(p: ProfileIndex, q: ProfileIndex, byte: u8)
    requires
        is_profile_byte(byte, p.spec_config()),
    ensures
        fits(q, p.spec_config()) <==> q == p,
        byte == p.spec_as_u8(),
{
    assert forall|q: ProfileIndex| #[trigger] fits(q, p.spec_config()) <==> q == p by {
        let a = q.spec_config();
        let b = p.spec_config();
        if q == p {
            ratio::lemma_close_to_itself(a.symbol_rate, Ratio { num: 1, den: 1 });
            ratio::lemma_close_to_itself(a.tau, Ratio { num: 1, den: 1_000_000 });
        } else if a.symbol_rate.den == 1 && b.symbol_rate.den == 1 {
            lemma_whole_rates(a.symbol_rate, b.symbol_rate);
            if a.tau != b.tau {
                lemma_packed_spacing(a.tau, b.tau);
            }
        } else {
            lemma_odd_rate(a.symbol_rate, b.symbol_rate);
        }
    }
    assert(fits(p, p.spec_config()));
}

/// A configuration runs in the mode of another where constellation and code rate are the
/// same, the symbol rates are less than one symbol per second apart, and the spacings less
/// than a millionth.
pub proof fn law_mode_tolerances(a: ModemConfig, b: ModemConfig)
    ensures
        ({
            let (r, s) = (a.symbol_rate, b.symbol_rate);
            let rates = r.num * s.den - s.num * r.den;
            let (t, u) = (a.tau, b.tau);
            let spaces = t.num * u.den - u.num * t.den;
            same_mode(a, b) <==> {
                &&& a.constellation == b.constellation
                &&& a.ldpc_rate == b.ldpc_rate
                &&& -(r.den * s.den) < rates < r.den * s.den
                &&& -(t.den * u.den) < 1_000_000 * spaces < t.den * u.den
            }
        }),
{
    let (r, s) = (a.symbol_rate, b.symbol_rate);
    let (t, u) = (a.tau, b.tau);
    lemma_closer(r, s, Ratio { num: 1, den: 1 });
    lemma_closer(t, u, Ratio { num: 1, den: 1_000_000 });
}

/// Two fractions are closer than a part of 1.
proof fn lemma_closer(a: Ratio, b: Ratio, tol: Ratio)
    requires
        tol.num == 1,
    ensures
        ({
            let diff = a.num * b.den - b.num * a.den;
            ratio::closer_than(a, b, tol) <==> -(a.den * b.den) < diff * tol.den < a.den * b.den
        }),
{
    let x = a.den * b.den;
    let diff = a.num * b.den - b.num * a.den;
    assert(tol.num * x == x) by (nonlinear_arith)
        requires
            tol.num == 1,
    ;
    assert((-diff) * tol.den == -(diff * tol.den)) by (nonlinear_arith);
    assert(diff < 0 ==> diff * tol.den <= 0) by (nonlinear_arith);
    assert(diff >= 0 ==> diff * tol.den >= 0) by (nonlinear_arith);
    assert(x >= 0) by (nonlinear_arith)
        requires
            x == a.den * b.den,
    ;
}

} // verus!
