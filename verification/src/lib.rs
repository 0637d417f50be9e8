//! Chunk-completion tracking for blockchain snapshot synchronization.
//!
//! A snapshot manifest fixes an ordering of content-addressed chunks; this
//! crate records, one bit per chunk, which chunks are locally available,
//! maintains the count of available chunks incrementally, and encodes and
//! decodes the bitmap in the RLP wire format used to exchange completion
//! state between peers.

pub mod bitfield;
pub mod completion;
pub mod wire;
