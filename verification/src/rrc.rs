//! Constraints between sample rate, symbol rate and symbol spacing.

use vstd::prelude::*;

use crate::profile::ProfileIndex;
use crate::ratio::Ratio;
use crate::types::AUDIO_RATE;

verus! {

/// Why a symbol rate or spacing does not fit the sample rate.
#[derive(Clone, Copy, Debug, PartialEq, Eq, Structural)]
pub enum RateError {
    /// The samples per symbol are no integer.
    SpsNotInteger,
    /// The samples between symbols are no integer.
    PitchNotInteger,
}

/// The integer nearest to `a / b`, halves rounded up.
pub open spec fn nearest(a: int, b: int) -> int {
    (2 * a + b) / (2 * b)
}

/// `a / b` is within a billionth of an integer.
pub open spec fn nearly_integer(a: int, b: int) -> bool {
    let diff = a - nearest(a, b) * b;
    &&& diff * 1_000_000_000 <= b
    &&& -diff * 1_000_000_000 <= b
}

/// The integer nearest to `a / b`, and whether it is within a billionth of it.
fn round_off(a: u128, b: u64) -> (out: (u128, bool))
    requires
        b > 0,
        a <= 0xFFFF_FFFF_FFFF_FFFF_FFFF_FFFF,
    ensures
        out.0 == nearest(a as int, b as int),
        out.1 == nearly_integer(a as int, b as int),
{
    let q: u128 = a / b as u128;
    let r: u128 = a % b as u128;
    proof {
        vstd::arithmetic::div_mod::lemma_fundamental_div_mod(a as int, b as int);
        assert(b * q == q * b && (2 * b) * q == 2 * (b * q) && (2 * b) * (q + 1) == 2 * (b * q) + 2
            * b && (q + 1) * b == q * b + b && (2 * b) * q == q * (2 * b) && (q + 1) * (2 * b) == (2
            * b) * (q + 1)) by (nonlinear_arith);
        if 2 * r < b {
            vstd::arithmetic::div_mod::lemma_fundamental_div_mod_converse(
                2 * a + b,
                2 * b,
                q as int,
                2 * r + b,
            );
        } else {
            vstd::arithmetic::div_mod::lemma_fundamental_div_mod_converse(
                2 * a + b,
                2 * b,
                q + 1,
                2 * r - b,
            );
        }
        assert(q <= a) by (nonlinear_arith)
            requires
                a == b * q + r,
                b >= 1,
                q >= 0,
                r >= 0,
        ;
    }
    if 2 * r < b as u128 {
        (q, r * 1_000_000_000 <= b as u128)
    } else {
        (q + 1, (b as u128 - r) * 1_000_000_000 <= b as u128)
    }
}

/// Samples per symbol of a rate.
pub open spec fn samples_per_symbol(audio_rate: u32, symbol_rate: Ratio) -> int {
    nearest(audio_rate * symbol_rate.den, symbol_rate.num as int)
}

/// Samples between symbols.
pub open spec fn samples_between(sps: int, tau: Ratio) -> int {
    nearest(tau.num * sps, tau.den as int)
}

/// What checking the rates gives.
pub open spec fn checked_rates(audio_rate: u32, symbol_rate: Ratio, tau: Ratio) -> Result<
    (int, int),
    RateError,
> {
    let sps = samples_per_symbol(audio_rate, symbol_rate);
    if !nearly_integer(audio_rate * symbol_rate.den, symbol_rate.num as int) {
        Err(RateError::SpsNotInteger)
    } else if !nearly_integer(tau.num * sps, tau.den as int) {
        Err(RateError::PitchNotInteger)
    } else {
        Ok((sps, samples_between(sps, tau)))
    }
}

/// Check that the samples per symbol and between symbols are integers, and give them.
pub fn check_integer_constraints(audio_rate: u32, symbol_rate: Ratio, tau: Ratio) -> (out: Result<
    (usize, usize),
    RateError,
>)
    requires
        symbol_rate.num > 0,
        tau.den > 0,
        samples_per_symbol(audio_rate, symbol_rate) <= usize::MAX,
        samples_between(samples_per_symbol(audio_rate, symbol_rate), tau) <= usize::MAX,
    ensures
        match checked_rates(audio_rate, symbol_rate, tau) {
            Err(e) => out == Err::<(usize, usize), RateError>(e),
            Ok((sps, pitch)) => out matches Ok((s, p)) && s == sps && p == pitch,
        },
{
    assert(0 <= audio_rate * symbol_rate.den <= 0xFFFF_FFFF * 0xFFFF_FFFF) by (nonlinear_arith)
        requires
            0 <= audio_rate <= 0xFFFF_FFFF,
            0 <= symbol_rate.den <= 0xFFFF_FFFF,
    ;
    let rate: u128 = audio_rate as u128 * symbol_rate.den as u128;
    let (sps, whole) = round_off(rate, symbol_rate.num as u64);
    if !whole {
        return Err(RateError::SpsNotInteger);
    }
    assert(0 <= tau.num * sps <= 0xFFFF_FFFF * 0xFFFF_FFFF_FFFF_FFFF) by (nonlinear_arith)
        requires
            0 <= tau.num <= 0xFFFF_FFFF,
            0 <= sps <= 0xFFFF_FFFF_FFFF_FFFF,
    ;
    let spacing: u128 = tau.num as u128 * sps;
    let (pitch, whole_pitch) = round_off(spacing, tau.den as u64);
    if !whole_pitch {
        return Err(RateError::PitchNotInteger);
    }
    Ok((sps as usize, pitch as usize))
}

/// Samples per symbol and between symbols of a profile.
pub open spec fn rates_of(p: ProfileIndex) -> (int, int) {
    match p {
        ProfileIndex::Ultra => (96, 96),
        ProfileIndex::Robust => (48, 48),
        ProfileIndex::Mega => (32, 30),
        ProfileIndex::Fast => (28, 28),
        _ => (32, 32),
    }
}

/// Every profile fits the sample rate.
pub proof fn law_every_profile_fits_the_sample_rate(p: ProfileIndex)
    ensures
        checked_rates(AUDIO_RATE, p.spec_config().symbol_rate, p.spec_config().tau)
            == Ok::<(int, int), RateError>(rates_of(p)),
{
    let c = p.spec_config();
    let (sps, pitch) = rates_of(p);
    lemma_exact(AUDIO_RATE * c.symbol_rate.den, c.symbol_rate.num as int, sps);
    lemma_exact(c.tau.num * sps, c.tau.den as int, pitch);
}

/// A quotient without remainder is an integer.
proof fn lemma_exact(a: int, b: int, q: int)
    requires
        b > 0,
        a == q * b,
    ensures
        nearest(a, b) == q,
        nearly_integer(a, b),
{
    assert(2 * a + b == (2 * b) * q + b) by (nonlinear_arith)
        requires
            a == q * b,
    ;
    vstd::arithmetic::div_mod::lemma_fundamental_div_mod_converse(2 * a + b, 2 * b, q, b);
}

/// The nearest integer is no further than a half away, and a half is rounded up.
pub proof fn law_nearest_is_within_a_half(a: int, b: int)
    requires
        b > 0,
    ensures
        -b < 2 * (nearest(a, b) * b - a) <= b,
{
    let q = nearest(a, b);
    vstd::arithmetic::div_mod::lemma_fundamental_div_mod(2 * a + b, 2 * b);
    assert((2 * b) * q == 2 * (q * b)) by (nonlinear_arith);
}

/// Rates are accepted exactly where a whole number of samples per symbol, and then a whole
/// number of samples between symbols, is within a billionth; and then these are given.
pub proof fn law_accepted_rates_are_whole(
    audio_rate: u32,
    symbol_rate: Ratio,
    tau: Ratio,
    s: int,
    p: int,
)
    requires
        symbol_rate.num > 0,
        tau.den > 0,
    ensures
        ({
            let off = audio_rate * symbol_rate.den - s * symbol_rate.num;
            let space = tau.num * s - p * tau.den;
            let near = -symbol_rate.num <= 1_000_000_000 * off <= symbol_rate.num;
            let spaced = -tau.den <= 1_000_000_000 * space <= tau.den;
            &&& near && spaced ==> checked_rates(audio_rate, symbol_rate, tau) == Ok::<
                (int, int),
                RateError,
            >((s, p))
            &&& checked_rates(audio_rate, symbol_rate, tau) == Ok::<(int, int), RateError>((s, p))
                ==> near && spaced
            &&& near && checked_rates(audio_rate, symbol_rate, tau) is Err ==> checked_rates(
                audio_rate,
                symbol_rate,
                tau,
            ) == Err::<(int, int), RateError>(RateError::PitchNotInteger)
        }),
{
    lemma_near_is_nearest(audio_rate * symbol_rate.den, symbol_rate.num as int, s);
    lemma_near_is_nearest(tau.num * s, tau.den as int, p);
}

/// An integer within a billionth is the nearest one.
proof fn lemma_near_is_nearest(a: int, b: int, q: int)
    requires
        b > 0,
    ensures
        -b <= 1_000_000_000 * (a - q * b) <= b ==> nearest(a, b) == q && nearly_integer(a, b),
        nearest(a, b) == q && nearly_integer(a, b) ==> -b <= 1_000_000_000 * (a - q * b) <= b,
{
    if -b <= 1_000_000_000 * (a - q * b) <= b {
        let r = 2 * (a - q * b) + b;
        assert(2 * a + b == (2 * b) * q + r) by (nonlinear_arith)
            requires
                r == 2 * (a - q * b) + b,
        ;
        assert((2 * b) * q == q * (2 * b)) by (nonlinear_arith);
        vstd::arithmetic::div_mod::lemma_fundamental_div_mod_converse(2 * a + b, 2 * b, q, r);
    }
}

} // verus!
