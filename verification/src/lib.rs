//! Stream selection and segment decryption for HLS and DASH downloads: format
//! expressions, MP4 box parsing, Common Encryption and HLS segment decryption.
pub mod cli;
pub mod dash;
pub mod downloader;
pub mod error;
pub mod format;
pub mod mp4;
pub mod playlist;
pub mod progress;
pub mod utils;
