//! The known symbols that open a transmission.

use vstd::prelude::*;

use crate::symbol;
use crate::symbol::Symbol;

verus! {

/// Preamble sequences, one per pulse shape.
#[derive(Clone, Copy, Debug, PartialEq, Eq, Structural)]
pub enum PreambleFamily {
    /// 1500 Bd, and every pulse that is not that of B or C.
    A,
    /// 1000 Bd with a roll-off of 0.25.
    B,
    /// 500 Bd with a roll-off of 0.25.
    C,
}

/// Phases of the preamble in quarter turns, drawn once at random.
pub const PREAMBLE_PHASES: [u8; 256] = [
    3, 3, 2, 1, 0, 0, 0, 1, 3, 1, 3, 1, 2, 2, 3, 2,
    0, 0, 2, 2, 2, 0, 0, 0, 1, 0, 1, 3, 2, 2, 3, 2,
    0, 3, 0, 1, 2, 2, 2, 3, 3, 3, 0, 1, 3, 0, 3, 2,
    3, 0, 1, 3, 3, 3, 2, 1, 2, 3, 3, 0, 2, 3, 2, 0,
    1, 3, 1, 0, 0, 0, 1, 1, 1, 3, 1, 3, 1, 0, 1, 0,
    1, 0, 1, 0, 0, 0, 2, 0, 2, 0, 2, 3, 3, 1, 2, 1,
    2, 2, 1, 1, 2, 3, 0, 3, 1, 2, 3, 2, 0, 2, 3, 3,
    2, 2, 0, 0, 2, 3, 1, 3, 3, 2, 3, 2, 1, 2, 3, 0,
    1, 0, 1, 2, 1, 2, 1, 2, 1, 1, 1, 3, 0, 3, 3, 1,
    2, 0, 0, 1, 0, 1, 2, 1, 1, 2, 3, 2, 0, 1, 1, 1,
    3, 2, 0, 0, 3, 0, 0, 2, 0, 0, 0, 0, 1, 0, 2, 1,
    3, 0, 2, 0, 3, 2, 2, 3, 3, 2, 2, 1, 3, 0, 0, 1,
    1, 2, 2, 3, 1, 0, 3, 2, 0, 1, 1, 1, 0, 0, 1, 3,
    3, 0, 0, 0, 1, 1, 0, 2, 3, 1, 1, 2, 1, 3, 3, 3,
    1, 3, 0, 0, 1, 0, 1, 3, 2, 1, 1, 2, 2, 2, 1, 0,
    3, 0, 0, 0, 0, 0, 3, 3, 1, 1, 1, 2, 1, 3, 1, 3,
];

/// The preamble: QPSK points at `pi / 4 + phase * pi / 2`.
#[verifier::opaque]
pub open spec fn preamble_symbols() -> Seq<Symbol> {
    Seq::new(256, |i: int| symbol::diagonal_point(PREAMBLE_PHASES@[i] as int))
}

/// Every symbol of the preamble is a QPSK point.
pub proof fn law_preamble_is_qpsk(i: int)
    requires
        0 <= i < 256,
    ensures
        preamble_symbols().len() == 256,
        exists|q: int| 0 <= q < 4 && preamble_symbols()[i] == symbol::diagonal_point(q),
{
    reveal(preamble_symbols);
    let q = PREAMBLE_PHASES@[i] as int;
    assert(symbol::diagonal_point(q) == symbol::diagonal_point(q % 4));
}

/// The 256 QPSK symbols of the preamble.
pub fn make_preamble() -> (symbols: Vec<Symbol>)
    ensures
        symbols@ == preamble_symbols(),
        symbols@.len() == 256,
{
    let mut symbols: Vec<Symbol> = Vec::new();
    let mut i: usize = 0;
    while i < 256
        invariant
            i <= 256,
            symbols@.len() == i,
            forall|j: int|
                0 <= j < i ==> #[trigger] symbols@[j] == symbol::diagonal_point(
                    PREAMBLE_PHASES@[j] as int,
                ),
        decreases 256 - i,
    {
        symbols.push(Symbol::diagonal(PREAMBLE_PHASES[i] as usize));
        i = i + 1;
    }
    proof {
        reveal(preamble_symbols);
    }
    assert(symbols@ =~= preamble_symbols());
    symbols
}

} // verus!
