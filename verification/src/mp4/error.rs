use vstd::prelude::*;

verus! {

/// The error type returned by the MP4 reading, parsing and decryption functions.
#[derive(Debug, Clone, PartialEq, Eq)]
pub enum Error {
    /// The decryption key size is invalid (expected 16 bytes); holds the size found.
    InvalidKeySize(usize),
    /// A read needed more bytes than were left in the data.
    UnexpectedEof,
    /// A skip would have moved the read position past the end of the data.
    SkipOutOfBounds,
    /// A generic error accompanied by a message, such as a key given in hexadecimal that
    /// could not be decoded.
    Other(String),
    /// A full box (such as `sidx` or `pssh`) was parsed without a version.
    MissingVersion,
    /// A `pssh` box was parsed without flags.
    MissingFlags,
    /// A `pssh` box has a version above 1.
    UnsupportedPsshVersion,
    /// A `sidx` box has a zero timescale.
    InvalidTimescale,
    /// A `sidx` box references another `sidx` box.
    HierarchicalSidx,
    /// A protobuf or PlayReady payload inside a `pssh` box is malformed.
    MalformedPsshData,
    /// A byte offset computed from box fields does not fit in 64 bits.
    OffsetOverflow,
    /// A PlayReady header has a version other than 4.0.0.0 to 4.3.0.0.
    UnsupportedWrmHeaderVersion,
}

} // verus!
