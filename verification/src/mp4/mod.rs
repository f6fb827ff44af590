//! Parsing and decryption of ISO base media file format (MP4) data.
pub mod error;
pub mod hex;
pub mod reader;
pub mod parser;
pub mod b64;
pub mod boxes;
pub mod decrypt;
pub mod pssh;
