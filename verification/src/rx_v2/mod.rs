//! Receive pipeline for segmented frames: the decisions of it.
//!
//! Signal processing is left to the caller. This module says where to look for
//! markers, which symbols make up a segment, which codewords are accepted, which
//! clock drifts are tried, how a capture is cut into windows, and how the payload
//! is put together.

pub mod assemble;
pub mod drift;
pub mod perf;
pub mod profile_choice;
pub mod scatter;
pub mod tally;
pub mod timing;
pub mod walk;
pub mod window;
