//! A host-discovery beacon library.
//!
//! The heart of the library is the wire-envelope codec: a `Report` describing
//! this host's name and network interfaces is serialized into a deterministic
//! binary payload and framed behind a one-byte format flag (bit 0 selects an
//! LZMA-compressed or a raw payload). Decoding reverses the transform and
//! rejects malformed input with a structured error.

pub mod errors;
pub mod report;
pub mod wire;
pub mod codec;
