use crate::mp4::boxes::iv::{pad_iv, padded_iv};
use crate::mp4::error::Error;
use crate::mp4::parser::ParsedBox;
use vstd::prelude::*;

verus! {

/// Track Encryption Box (tenc): the default encryption parameters of a track.
#[derive(Debug, Clone)]
pub struct TencBox {
    /// Encrypted 16-byte blocks per pattern (version 1 and later; 0 otherwise).
    pub crypt_byte_block: u8,
    /// Clear 16-byte blocks per pattern (version 1 and later; 0 otherwise).
    pub skip_byte_block: u8,
    /// Whether samples are protected by default (1) or not (0).
    pub is_protected: u8,
    /// The size of the per-sample IVs in the `senc` box: 0, 8 or 16.
    pub per_sample_iv_size: u8,
    /// The default key ID.
    pub default_kid: [u8; 16],
    /// The constant IV, padded to 16 bytes, of protected tracks without per-sample IVs.
    pub constant_iv: Option<[u8; 16]>,
}

/// The fields of a `tenc` box.
pub struct TencView {
    pub crypt_byte_block: u8,
    pub skip_byte_block: u8,
    pub is_protected: u8,
    pub per_sample_iv_size: u8,
    pub default_kid: Seq<u8>,
    pub constant_iv: Option<Seq<u8>>,
}

impl TencBox {
    pub open spec fn view_tenc(&self) -> TencView {
        TencView {
            crypt_byte_block: self.crypt_byte_block,
            skip_byte_block: self.skip_byte_block,
            is_protected: self.is_protected,
            per_sample_iv_size: self.per_sample_iv_size,
            default_kid: self.default_kid@,
            constant_iv: match self.constant_iv {
                Some(iv) => Some(iv@),
                None => None,
            },
        }
    }
}

/// The `tenc` payload `p` of a box of the given version: a reserved byte, a byte that
/// holds the pattern (version 1 and later) or is reserved, the protection flag, the IV
/// size and the key ID; protected tracks without per-sample IVs then give a constant IV,
/// preceded by its size.
pub open spec fn tenc_spec(p: Seq<u8>, version: u32) -> Result<TencView, Error> {
    if p.len() < 20 {
        Err(Error::UnexpectedEof)
    } else {
        let crypt: u8 = if version == 0 {
            0
        } else {
            p[1] >> 4u8
        };
        let skip: u8 = if version == 0 {
            0
        } else {
            p[1] & 0xfu8
        };
        let base = TencView {
            crypt_byte_block: crypt,
            skip_byte_block: skip,
            is_protected: p[2],
            per_sample_iv_size: p[3],
            default_kid: p.subrange(4, 20),
            constant_iv: None,
        };
        if p[2] == 1 && p[3] == 0 {
            if p.len() < 21 || p.len() < 21 + p[20] {
                Err(Error::UnexpectedEof)
            } else {
                Ok(TencView { constant_iv: Some(padded_iv(p.subrange(21, 21 + p[20]))), ..base })
            }
        } else {
            Ok(base)
        }
    }
}

impl TencBox {
    /// Parses a `tenc` box from a `ParsedBox`.
    pub fn new(box_: &mut ParsedBox) -> (r: Result<Self, Error>)
        requires
            old(box_).fresh(),
            old(box_).version is Some,
        ensures
            match tenc_spec(old(box_).reader.data(), old(box_).version->0) {
                Ok(v) => r matches Ok(t) && t.view_tenc() == v,
                Err(e) => r == Err::<Self, Error>(e),
            },
    {
        let ghost p = box_.reader.data();
        let version = box_.version.unwrap();
        let reader = &mut box_.reader;
        let _reserved = reader.read_u8()?;
        let pattern = reader.read_u8()?;
        let (crypt_byte_block, skip_byte_block) = if version == 0 {
            (0u8, 0u8)
        } else {
            (pattern >> 4u8, pattern & 0xfu8)
        };
        let is_protected = reader.read_u8()?;
        let per_sample_iv_size = reader.read_u8()?;
        let kid = reader.read_bytes_u8(16)?;
        let default_kid = pad_iv(kid.as_slice());
        proof {
            assert(default_kid@ =~= p.subrange(4, 20));
        }
        let constant_iv = if is_protected == 1 && per_sample_iv_size == 0 {
            let size = reader.read_u8()?;
            let iv = reader.read_bytes_u8(size as usize)?;
            Some(pad_iv(iv.as_slice()))
        } else {
            None
        };
        Ok(TencBox {
            crypt_byte_block,
            skip_byte_block,
            is_protected,
            per_sample_iv_size,
            default_kid,
            constant_iv,
        })
    }
}

} // verus!
