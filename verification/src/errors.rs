use vstd::prelude::*;

verus! {

/// Failure to turn a report value into envelope bytes.
#[derive(Debug, Clone, Copy, PartialEq, Eq, Structural)]
pub enum EncodeError {
    /// The report could not be serialized: a field exceeds the wire format's
    /// length bounds (or, on the compressed path, the compressor failed).
    SerializationFailed,
}

/// Failure to turn envelope bytes back into a report value.
#[derive(Debug, Clone, Copy, PartialEq, Eq, Structural)]
pub enum DecodeError {
    /// The buffer is shorter than the two bytes a flag plus a non-empty
    /// payload require.
    TooShort,
    /// The flag byte asks for a compression scheme this build cannot undo.
    /// This library always carries the LZMA decompressor, so its own decoder
    /// never produces this variant; it exists for callers that track the
    /// failure taxonomy of builds without one.
    UnsupportedCompression,
    /// The flag byte announces a compressed payload, but the payload is not a
    /// well-formed compressed stream.
    BadCompression,
    /// The (decompressed) payload bytes do not parse as a report.
    DeserializationFailed,
}

} // verus!
