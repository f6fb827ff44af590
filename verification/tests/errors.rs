use vsd::error::Error;
use vsd::mp4::error::Error as Mp4Error;

#[test]
fn error_texts() {
    assert_eq!(
        Error::FormatParse("x".to_owned()).to_string(),
        "Failed to parse format expr: x."
    );
    assert_eq!(
        Error::MissingKey("abcd".to_owned()).to_string(),
        "Missing decryption key for abcd."
    );
    assert_eq!(
        Error::FfmpegFailed { code: -2, message: "boom".to_owned() }.to_string(),
        "Failed to execute ffmpeg (-2): boom"
    );
    assert_eq!(
        Error::RequestFailed { url: "u".to_owned(), status: 404, body: "b".to_owned() }
            .to_string(),
        "Failed to request u (404): b"
    );
    assert_eq!(
        Error::UnsupportedEncryption("X".to_owned()).to_string(),
        "Unsupported encryption method: X. Use --no-decrypt flag to download encrypted streams."
    );
    assert_eq!(Error::Other("plain".to_owned()).to_string(), "plain");
    assert_eq!(Error::MissingSegments.to_string(), "Stream contains no segments.");
    assert_eq!(
        Error::DownloadInterrupted.to_string(),
        "Download interrupted due to ctrl+c."
    );
    assert_eq!(
        Error::DashParse("x".to_owned()).to_string(),
        "Failed to resolve dash addressing: x"
    );
}

#[test]
fn mp4_error_texts() {
    assert_eq!(
        Error::Mp4Parse(Mp4Error::InvalidKeySize(15)).to_string(),
        "vsd-mp4: invalid key size: expected 16 bytes got 15 bytes."
    );
    assert_eq!(
        Mp4Error::UnexpectedEof.to_string(),
        "i/o error: failed to fill whole buffer"
    );
    assert_eq!(
        Mp4Error::HierarchicalSidx.to_string(),
        "Hierarchical SIDXs are not supported."
    );
}
