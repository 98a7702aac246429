//! Framing, coding and session logic of a narrow-band FM audio modem.

pub mod acquire;
pub mod app_header;
pub mod be;
pub mod bits;
pub mod constellation;
pub mod crc;
pub mod equalizer;
pub mod ffe;
pub mod filter;
pub mod frame;
pub mod framing;
pub mod gate;
pub mod header;
pub mod interleaver;
pub mod ldpc;
pub mod link;
pub mod marker;
pub mod payload_envelope;
pub mod pilot;
pub mod preamble;
pub mod profile;
pub mod raptorq_codec;
pub mod ratio;
pub mod rrc;
pub mod rs;
pub mod rx;
pub mod rx_stream;
pub mod rx_stream_v2;
pub mod rx_v2;
pub mod symbol;
pub mod tracking;
pub mod types;
