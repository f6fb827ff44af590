//! Protection system specific header (`pssh`) boxes and the key IDs they carry.
pub mod widevine;
pub mod wrm_header;
pub mod playready;
pub mod parser;
