//! Decryption of protected media: AES primitives, Common Encryption samples and
//! fragments, and HLS segments.
pub mod aes;
pub mod cipher;
pub mod cenc;
pub mod hls;
pub mod reader;
