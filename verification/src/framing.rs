//! Framing of the single-burst layout: a preamble drawn by a congruential
//! generator, and pilots in the default pattern.

use vstd::prelude::*;

use crate::pilot;
use crate::profile::PilotPattern;
use crate::symbol;
use crate::symbol::Symbol;
use crate::types::{N_PREAMBLE, P_SYMS};

verus! {

/// State of the generator after `n` draws.
pub open spec fn lcg_state(n: nat) -> u64
    decreases n,
{
    if n == 0 {
        1234
    } else {
        lcg_state((n - 1) as nat).wrapping_mul(6364136223846793005).wrapping_add(
            1442695040888963407,
        )
    }
}

/// Symbol `i` of the preamble: the phase is taken from the upper bits of the state.
pub open spec fn drawn_symbol(i: int) -> Symbol {
    symbol::diagonal_point(((lcg_state((i + 1) as nat) >> 33) % 4) as int)
}

/// The QPSK preamble, the same on both ends.
pub fn preamble() -> (symbols: Vec<Symbol>)
    ensures
        symbols@ == Seq::new(N_PREAMBLE as nat, |i: int| drawn_symbol(i)),
{
    let mut state: u64 = 1234;
    let mut symbols: Vec<Symbol> = Vec::new();
    let mut i: usize = 0;
    while i < N_PREAMBLE
        invariant
            i <= N_PREAMBLE,
            state == lcg_state(i as nat),
            symbols@.len() == i,
            forall|j: int| 0 <= j < i ==> #[trigger] symbols@[j] == drawn_symbol(j),
        decreases N_PREAMBLE - i,
    {
        state = state.wrapping_mul(6364136223846793005).wrapping_add(1442695040888963407);
        let v: u64 = (state >> 33) % 4;
        symbols.push(Symbol::diagonal(v as usize));
        i = i + 1;
    }
    assert(symbols@ =~= Seq::new(N_PREAMBLE as nat, |i: int| drawn_symbol(i)));
    symbols
}

/// The pilots of group `group_idx`.
pub fn pilots_for_group(group_idx: usize) -> (pilots: [Symbol; P_SYMS])
    requires
        group_idx * P_SYMS + P_SYMS <= usize::MAX,
    ensures
        pilots@ == pilot::group_pilots(group_idx as int, P_SYMS as int),
{
    let pilots: [Symbol; P_SYMS] = [
        Symbol::axis(group_idx * P_SYMS),
        Symbol::axis(group_idx * P_SYMS + 1),
    ];
    assert(pilots@ =~= pilot::group_pilots(group_idx as int, P_SYMS as int));
    pilots
}

/// Insert the pilots after each block of data symbols, in the default pattern.
///
/// Returns the stream and, for each group, where its pilots start and end.
pub fn interleave_data_pilots(data: &[Symbol]) -> (out: (Vec<Symbol>, Vec<(usize, usize)>))
    requires
        pilot::total_symbols(data@.len() as int, 32, 2) <= usize::MAX,
    ensures
        out.0@ == pilot::with_pilots(data@, 32, 2),
        out.1@ == pilot::pilot_spans(data@.len() as int, 32, 2),
{
    pilot::interleave_data_pilots(data, &PilotPattern::default_v3())
}

/// The generator of the preamble starts at 1234 and goes on by one multiplication and one
/// addition modulo 2^64.
pub proof fn law_generator_is_congruential(i: nat, before: u64)
    requires
        before == lcg_state(i),
    ensures
        lcg_state(0) == 1234,
        lcg_state(i + 1) == (before * 6364136223846793005 + 1442695040888963407)
            % 0x1_0000_0000_0000_0000,
{
    lemma_step(before, 6364136223846793005, 1442695040888963407);
    assert(lcg_state(i + 1) == before.wrapping_mul(6364136223846793005).wrapping_add(
        1442695040888963407,
    ));
}

/// Each symbol of the preamble takes its quarter turns from bits 33 and 34 of the next state
/// of the generator.
pub proof fn law_preamble_is_drawn(i: int, state: u64)
    requires
        i >= 0,
        state == lcg_state((i + 1) as nat),
    ensures
        drawn_symbol(i) == symbol::diagonal_point((state as int / 0x2_0000_0000) % 4),
{
    lemma_drawn(state);
}

proof fn lemma_drawn(state: u64)
    ensures
        (state >> 33) % 4 == (state as int / 0x2_0000_0000) % 4,
{
    vstd::bits::lemma_u64_shr_is_div(state, 33);
    vstd::arithmetic::power2::lemma2_to64();
    vstd::arithmetic::power2::lemma_pow2_unfold(33);
}

/// One step of a generator.
proof fn lemma_step(state: u64, factor: u64, offset: u64)
    ensures
        state.wrapping_mul(factor).wrapping_add(offset) == (state * factor + offset)
            % 0x1_0000_0000_0000_0000,
{
    let x = state * factor;
    vstd::arithmetic::div_mod::lemma_add_mod_noop(
        x,
        offset as int,
        0x1_0000_0000_0000_0000,
    );
    let m = state.wrapping_mul(factor) as int;
    assert(m == x % 0x1_0000_0000_0000_0000);
    assert(state.wrapping_mul(factor).wrapping_add(offset) == (m + offset)
        % 0x1_0000_0000_0000_0000);
}

} // verus!
