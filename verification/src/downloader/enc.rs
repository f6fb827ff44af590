//! The decryption that a stream's key method calls for.
use crate::error::Error;
use crate::mp4::decrypt::cenc::{fragment_spec, CencDecrypter};
use crate::mp4::decrypt::hls::{
    hls_aes128, HlsAes128Decrypter, HlsSampleAesDecrypter,
};
use crate::mp4::reader::{be_value, pow256};
use crate::playlist::types::{Key, KeyMethod};
use std::sync::Arc;
use vstd::prelude::*;

verus! {

/// How the segments of a stream are decrypted.
#[derive(Clone)]
pub enum Decrypter {
    Aes128(HlsAes128Decrypter),
    Cenc(Arc<CencDecrypter>),
    SampleAes(HlsSampleAesDecrypter),
    /// Segments are not encrypted.
    Unencrypted,
}

/// Whether a segment can be handed to `decrypt`: an AES-128 segment must decrypt and
/// unpad (decryption panics on the others), and SAMPLE-AES segments are decrypted by
/// the caller (see `HlsSampleAesDecrypter`).
pub open spec fn decrypt_ready(d: Decrypter, input: Seq<u8>) -> bool {
    match d {
        Decrypter::Aes128(p) => hls_aes128(p.key(), p.iv_spec(), input) is Some,
        Decrypter::SampleAes(_) => false,
        _ => true,
    }
}

/// What decrypting a segment gives, `None` where the segment is not ready.
pub open spec fn decrypt_spec(d: Decrypter, input: Seq<u8>) -> Option<Result<Seq<u8>, Error>> {
    match d {
        Decrypter::Cenc(p) => Some(
            match fragment_spec(p.key(), p.tenc(), input, None) {
                Ok(v) => Ok(v),
                Err(e) => Err(Error::Mp4Parse(e)),
            },
        ),
        Decrypter::Aes128(p) => match hls_aes128(p.key(), p.iv_spec(), input) {
            Some(v) => Some(Ok(v)),
            None => None,
        },
        Decrypter::SampleAes(_) => None,
        Decrypter::Unencrypted => Some(Ok(input)),
    }
}

/// The outcome of a decryption as a plain value.
pub open spec fn outcome_view(r: Result<Vec<u8>, Error>) -> Result<Seq<u8>, Error> {
    match r {
        Ok(v) => Ok(v@),
        Err(e) => Err(e),
    }
}

impl Decrypter {
    /// Whether the decrypter handles HLS segments (AES-128 or SAMPLE-AES).
    pub fn is_hls(&self) -> (b: bool)
        ensures
            b == (self is Aes128 || self is SampleAes),
    {
        match self {
            Decrypter::Aes128(_) | Decrypter::SampleAes(_) => true,
            _ => false,
        }
    }

    /// Whether the IV of an HLS decrypter can be incremented (it is not the largest
    /// 128-bit value); always true for the others.
    pub open spec fn iv_can_increment(&self) -> bool {
        match self {
            Decrypter::Aes128(p) => be_value(p.iv_spec()) + 1 < pow256(16),
            Decrypter::SampleAes(p) => be_value(p.iv_spec()) + 1 < pow256(16),
            _ => true,
        }
    }

    /// Increments the IV of an HLS decrypter by 1; the others stay as they are.
    pub fn increment_iv(&mut self)
        requires
            old(self).iv_can_increment(),
        ensures
            match (*old(self), *final(self)) {
                (Decrypter::Aes128(a), Decrypter::Aes128(b)) => b.key() == a.key() && be_value(
                    b.iv_spec(),
                ) == be_value(a.iv_spec()) + 1,
                (Decrypter::SampleAes(a), Decrypter::SampleAes(b)) => b.key() == a.key()
                    && be_value(b.iv_spec()) == be_value(a.iv_spec()) + 1,
                (x, y) => x == y && !(x is Aes128) && !(x is SampleAes),
            },
    {
        match self {
            Decrypter::Aes128(p) => p.increment_iv(),
            Decrypter::SampleAes(p) => p.increment_iv(),
            _ => {},
        }
    }

    /// Decrypts a segment (or, for CENC, a fragment).
    pub fn decrypt(&self, input: Vec<u8>) -> (r: Result<Vec<u8>, Error>)
        requires
            decrypt_ready(*self, input@),
        ensures
            decrypt_spec(*self, input@) == Some(outcome_view(r)),
    {
        match self {
            Decrypter::Cenc(p) => match p.decrypt_fragment(input, None) {
                Ok(v) => Ok(v),
                Err(e) => Err(Error::Mp4Parse(e)),
            },
            Decrypter::Aes128(p) => Ok(p.decrypt(input)),
            Decrypter::SampleAes(_) => vstd::pervasive::unreached(),
            Decrypter::Unencrypted => Ok(input),
        }
    }

    /// Decrypts a segment, or gives `None` where it is not ready: an AES-128 segment
    /// that does not decrypt and unpad (where `decrypt` would panic), or a SAMPLE-AES
    /// segment, which the caller decrypts.
    pub fn try_decrypt(&self, input: Vec<u8>) -> (r: Option<Result<Vec<u8>, Error>>)
        ensures
            match r {
                Some(x) => decrypt_spec(*self, input@) == Some(outcome_view(x)),
                None => decrypt_spec(*self, input@) is None,
            },
    {
        let ok = match self {
            Decrypter::Aes128(p) => p.try_decrypt(vstd::slice::slice_to_vec(input.as_slice())).is_some(),
            Decrypter::SampleAes(_) => false,
            _ => true,
        };
        if ok {
            Some(self.decrypt(input))
        } else {
            None
        }
    }
}

/// Refuses a stream whose first segment's key uses a method that cannot be decrypted.
pub fn check_unsupported(first_key: Option<&Key>) -> (r: Result<(), Error>)
    ensures
        match first_key {
            Some(k) => match k.method {
                KeyMethod::Other(x) => r matches Err(Error::UnsupportedEncryption(y)) && y@ == x@,
                _ => r is Ok,
            },
            None => r is Ok,
        },
{
    match first_key {
        Some(k) => match &k.method {
            KeyMethod::Other(x) => Err(Error::UnsupportedEncryption(x.clone())),
            _ => Ok(()),
        },
        None => Ok(()),
    }
}

} // verus!
