//! LDPC codes of IEEE 802.16e with codewords of 2304 bits.

pub mod clean;
pub mod code;
pub mod decoder;
pub mod encoder;
pub mod gf2;
pub mod grouped;
pub mod min_sum;
pub mod table;
pub mod wimax;
