//! A verified netstring codec.
//!
//! Each frame on the wire is `<ascii-decimal-length> ':' <payload> ','`.
//! The codec extracts at most one frame per call from a shared working
//! buffer, leaving partial input untouched, and encodes one item per call.
//! The wire format lives as a mathematical model in [`wire`], the codec's
//! contracts are stated over it, and [`laws`] proves round trip, exact
//! consumption, and invariance under chunking.

pub mod buffer;
pub mod codec;
pub mod laws;
pub mod wire;

pub use codec::DecodeError;
pub use codec::NetStringCodec;
