//! Errors of playlist handling, format selection and segment decryption.
use crate::mp4;
use crate::progress::{decimal, decimal_text};
use vstd::prelude::*;

verus! {

/// Represents errors that can occur while fetching, selecting, parsing, decrypting or
/// merging streams.
#[derive(Debug)]
pub enum Error {
    /// Failed to parse or resolve MPEG-DASH addressing parameters.
    DashParse(String),
    /// The download process was interrupted or cancelled.
    DownloadInterrupted,
    /// An error occurred while executing the ffmpeg binary.
    FfmpegFailed {
        /// The exit status code returned by ffmpeg.
        code: i32,
        /// The error message or stdout/stderr output.
        message: String,
    },
    /// Failed to parse a format selection expression.
    FormatParse(String),
    /// A decryption key was required but could not be resolved; holds the default key
    /// ID (KID) in hexadecimal.
    MissingKey(String),
    /// The media playlist contains no segments to download.
    MissingSegments,
    /// An error occurred in the MP4 parsing and decryption code.
    Mp4Parse(mp4::error::Error),
    /// A generic or format-specific error message.
    Other(String),
    /// An HTTP request failed.
    RequestFailed {
        /// The request URL.
        url: String,
        /// The HTTP response status code.
        status: u16,
        /// The response body or error description.
        body: String,
    },
    /// The playlist uses an unsupported encryption scheme.
    UnsupportedEncryption(String),
}

/// A signed number in decimal: a minus sign before the digits of a negative one.
pub open spec fn signed_text(n: int) -> Seq<char> {
    if n < 0 {
        seq!['-'] + decimal_text((-n) as nat)
    } else {
        decimal_text(n as nat)
    }
}

/// How an MP4 error reads.
pub open spec fn mp4_error_text(e: mp4::error::Error) -> Seq<char> {
    match e {
        mp4::error::Error::InvalidKeySize(x) => "invalid key size: expected 16 bytes got "@
            + decimal_text(x as nat) + " bytes."@,
        mp4::error::Error::UnexpectedEof => "i/o error: failed to fill whole buffer"@,
        mp4::error::Error::SkipOutOfBounds => "i/o error: skips out of memory bounds."@,
        mp4::error::Error::Other(x) => x@,
        mp4::error::Error::MissingVersion => "full boxes must have a valid version."@,
        mp4::error::Error::MissingFlags => "PSSH boxes are full boxes and must have a valid flag."@,
        mp4::error::Error::UnsupportedPsshVersion => "Unrecognized PSSH version found!"@,
        mp4::error::Error::InvalidTimescale => "SIDX box has invalid timescale."@,
        mp4::error::Error::HierarchicalSidx => "Hierarchical SIDXs are not supported."@,
        mp4::error::Error::MalformedPsshData => "malformed pssh box data."@,
        mp4::error::Error::OffsetOverflow => "box offset does not fit in 64 bits."@,
        mp4::error::Error::UnsupportedWrmHeaderVersion =>
            "Unsupported pssh box playready object header version."@,
    }
}

/// How an error reads.
pub open spec fn error_text(e: Error) -> Seq<char> {
    match e {
        Error::DashParse(x) => "Failed to resolve dash addressing: "@ + x@,
        Error::DownloadInterrupted => "Download interrupted due to ctrl+c."@,
        Error::FfmpegFailed { code, message } => "Failed to execute ffmpeg ("@ + signed_text(
            code as int,
        ) + "): "@ + message@,
        Error::FormatParse(x) => "Failed to parse format expr: "@ + x@ + "."@,
        Error::MissingKey(x) => "Missing decryption key for "@ + x@ + "."@,
        Error::MissingSegments => "Stream contains no segments."@,
        Error::Mp4Parse(x) => "vsd-mp4: "@ + mp4_error_text(x),
        Error::Other(x) => x@,
        Error::RequestFailed { url, status, body } => "Failed to request "@ + url@ + " ("@
            + decimal_text(status as nat) + "): "@ + body@,
        Error::UnsupportedEncryption(x) => "Unsupported encryption method: "@ + x@
            + ". Use --no-decrypt flag to download encrypted streams."@,
    }
}

/// The text `a`, then `b`.
fn join2(a: &str, b: &str) -> (s: String)
    ensures
        s@ == a@ + b@,
{
    let mut s = a.to_owned();
    s.append(b);
    s
}

/// The text `a`, then `b`, then `c`.
fn join3(a: &str, b: &str, c: &str) -> (s: String)
    ensures
        s@ == a@ + b@ + c@,
{
    let mut s = a.to_owned();
    s.append(b);
    s.append(c);
    s
}

impl mp4::error::Error {
    /// The error as text.
    pub fn to_string(&self) -> (s: String)
        ensures
            s@ == mp4_error_text(*self),
    {
        let t = match self {
            mp4::error::Error::InvalidKeySize(x) => {
                let n = decimal(*x);
                let mut s = "invalid key size: expected 16 bytes got ".to_owned();
                s.append(n.as_str());
                s.append(" bytes.");
                return s;
            },
            mp4::error::Error::UnexpectedEof => "i/o error: failed to fill whole buffer",
            mp4::error::Error::SkipOutOfBounds => "i/o error: skips out of memory bounds.",
            mp4::error::Error::Other(x) => {
                return x.clone();
            },
            mp4::error::Error::MissingVersion => "full boxes must have a valid version.",
            mp4::error::Error::MissingFlags =>
                "PSSH boxes are full boxes and must have a valid flag.",
            mp4::error::Error::UnsupportedPsshVersion => "Unrecognized PSSH version found!",
            mp4::error::Error::InvalidTimescale => "SIDX box has invalid timescale.",
            mp4::error::Error::HierarchicalSidx => "Hierarchical SIDXs are not supported.",
            mp4::error::Error::MalformedPsshData => "malformed pssh box data.",
            mp4::error::Error::OffsetOverflow => "box offset does not fit in 64 bits.",
            mp4::error::Error::UnsupportedWrmHeaderVersion =>
                "Unsupported pssh box playready object header version.",
        };
        t.to_owned()
    }
}

/// A signed number in decimal.
fn signed(n: i32) -> (s: String)
    ensures
        s@ == signed_text(n as int),
{
    if n < 0 {
        let m = (-(n as i64)) as usize;
        let d = decimal(m);
        let mut s = "-".to_owned();
        s.append(d.as_str());
        proof {
            reveal_strlit("-");
        }
        s
    } else {
        decimal(n as usize)
    }
}

impl Error {
    /// The error as text, as it is reported to the user.
    pub fn to_string(&self) -> (s: String)
        ensures
            s@ == error_text(*self),
    {
        match self {
            Error::DashParse(x) => join2("Failed to resolve dash addressing: ", x.as_str()),
            Error::DownloadInterrupted => "Download interrupted due to ctrl+c.".to_owned(),
            Error::FfmpegFailed { code, message } => {
                let c = signed(*code);
                let mut s = join3("Failed to execute ffmpeg (", c.as_str(), "): ");
                s.append(message.as_str());
                s
            },
            Error::FormatParse(x) => join3("Failed to parse format expr: ", x.as_str(), "."),
            Error::MissingKey(x) => join3("Missing decryption key for ", x.as_str(), "."),
            Error::MissingSegments => "Stream contains no segments.".to_owned(),
            Error::Mp4Parse(x) => {
                let m = x.to_string();
                join2("vsd-mp4: ", m.as_str())
            },
            Error::Other(x) => x.clone(),
            Error::RequestFailed { url, status, body } => {
                let c = decimal(*status as usize);
                let mut s = join3("Failed to request ", url.as_str(), " (");
                s.append(c.as_str());
                s.append("): ");
                s.append(body.as_str());
                s
            },
            Error::UnsupportedEncryption(x) => join3(
                "Unsupported encryption method: ",
                x.as_str(),
                ". Use --no-decrypt flag to download encrypted streams.",
            ),
        }
    }
}

} // verus!
