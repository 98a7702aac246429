//! Constants that the whole modem shares.

use vstd::prelude::*;

verus! {

/// Audio sample rate, in Hz.
pub const AUDIO_RATE: u32 = 48000;

/// Centre frequency of the data band, in Hz.
pub const DATA_CENTER_HZ: u32 = 1100;

/// Preamble length in symbols.
pub const N_PREAMBLE: usize = 256;

/// Seed that the preamble sequence was drawn with.
pub const PREAMBLE_SEED: u32 = 1234;

/// Length of the protocol header in symbols.
pub const N_HEADER: usize = 96;

/// Data symbols per pilot group in the default layout.
pub const D_SYMS: usize = 32;

/// Pilot symbols per pilot group in the default layout.
pub const P_SYMS: usize = 2;

/// Length of the pulse-shaping filter in symbols.
pub const RRC_SPAN_SYM: usize = 12;

} // verus!
