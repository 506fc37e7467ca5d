//! Physical-layer framing for an on-off-keyed radio link.
//!
//! The receive side turns detected pulse edges into bits and bits into
//! length-prefixed frames; the transmit side turns frames into queue bytes
//! and queue bytes into a grid of pulse slots.

pub mod accumulator;
pub mod bits;
pub mod channel;
pub mod decode;
pub mod framing;
pub mod roundtrip;
pub mod transmit;
