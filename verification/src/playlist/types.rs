//! The plain values that describe the segments of a stream: byte ranges, keys and
//! initialization segments, and the kinds of media, playlist and encryption.
use vstd::prelude::*;

verus! {

/// Represents key information used to decrypt a segment.
#[derive(Clone, Debug)]
pub struct Key {
    /// The default key ID (KID) associated with the encryption key.
    pub default_kid: Option<String>,
    /// The initialization vector (IV) for decryption.
    pub iv: Option<String>,
    /// The encryption method used.
    pub method: KeyMethod,
    /// The URI where the key can be fetched.
    pub uri: Option<String>,
}

impl Default for Key {
    fn default() -> (k: Self)
        ensures
            k.default_kid is None,
            k.iv is None,
            k.method == KeyMethod::Unencrypted,
            k.uri is None,
    {
        Key { default_kid: None, iv: None, method: KeyMethod::Unencrypted, uri: None }
    }
}

/// Represents initialization segment information (typically for fMP4 streams).
#[derive(Clone, Debug)]
pub struct SegmentMap {
    /// Optional byte range of the initialization segment.
    pub range: Option<Range>,
    /// The URI of the initialization resource.
    pub uri: String,
}

impl Default for SegmentMap {
    fn default() -> (m: Self)
        ensures
            m.range is None,
            m.uri@ == Seq::<char>::empty(),
    {
        SegmentMap { range: None, uri: String::new() }
    }
}

/// Represents a contiguous byte range (start, end) inclusive.
#[derive(Clone, Copy, Debug, PartialEq, Eq, Structural)]
pub struct Range(pub u64, pub u64);

impl Default for Range {
    fn default() -> (r: Self)
        ensures
            r == Range(0, 0),
    {
        Range(0, 0)
    }
}

/// The type of media content.
#[derive(Clone, Copy, Debug, PartialEq, Eq, Structural)]
pub enum MediaType {
    /// Video track stream.
    Video,
    /// Audio track stream.
    Audio,
    /// Subtitle track stream.
    Subtitles,
    /// Unknown or undefined media type.
    Undefined,
}

impl Default for MediaType {
    fn default() -> (m: Self)
        ensures
            m == MediaType::Undefined,
    {
        MediaType::Undefined
    }
}

/// The streaming protocol/format type.
#[derive(Clone, Copy, Debug, PartialEq, Eq, Structural)]
pub enum PlaylistType {
    /// Dynamic Adaptive Streaming over HTTP (MPEG-DASH).
    Dash,
    /// HTTP Live Streaming (HLS).
    Hls,
}

impl Default for PlaylistType {
    fn default() -> (p: Self)
        ensures
            p == PlaylistType::Hls,
    {
        PlaylistType::Hls
    }
}

/// The encryption/decryption method applied to the segments.
#[derive(Clone, Debug, PartialEq, Eq)]
pub enum KeyMethod {
    /// Envelope AES-128 encryption.
    Aes128,
    /// Common Encryption (CENC, typically for MPEG-DASH and fMP4 HLS).
    Cenc,
    /// Unencrypted stream.
    Unencrypted,
    /// An unsupported or custom encryption method.
    Other(String),
    /// Sample AES-128 encryption.
    SampleAes,
}

impl Default for KeyMethod {
    fn default() -> (m: Self)
        ensures
            m == KeyMethod::Unencrypted,
    {
        KeyMethod::Unencrypted
    }
}

} // verus!
