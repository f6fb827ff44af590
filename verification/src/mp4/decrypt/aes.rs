//! The AES-128 operations that decryption is built on, performed by the `aes`, `ctr`
//! and `cbc` crates.
use aes::Aes128;
use ctr::cipher::{BlockModeDecrypt, KeyIvInit, StreamCipher};
use vstd::prelude::*;

verus! {

/// The first `n` bytes of the AES-128 counter-mode key stream of `key`, with a 128-bit
/// big-endian counter starting at `iv`.
pub uninterp spec fn aes128_keystream(key: Seq<u8>, iv: Seq<u8>, n: nat) -> Seq<u8>;

/// What AES-128 in counter mode makes of `data`: the data XORed, byte by byte, with the
/// key stream of `key` and `iv`.
pub open spec fn aes128_ctr(key: Seq<u8>, iv: Seq<u8>, data: Seq<u8>) -> Seq<u8> {
    let ks = aes128_keystream(key, iv, data.len());
    Seq::new(data.len(), |i: int| data[i] ^ ks[i])
}

/// What AES-128 decryption in cipher block chaining mode, starting from `iv`, makes of
/// the whole 16-byte blocks `data`.
pub uninterp spec fn aes128_cbc_decrypt(key: Seq<u8>, iv: Seq<u8>, data: Seq<u8>) -> Seq<u8>;

/// Applies the key stream of `ctr::Ctr128BE<aes::Aes128>`, created from `key` and `iv`,
/// to `data` (`StreamCipher::apply_keystream`).
///
/// Claims what the crate documents of a stream cipher: each byte is XORed with the byte
/// of the key stream at its position, the key stream being a function of the key, the IV
/// and the length; the key stream itself is not stated.
#[verifier::external_body]
pub(crate) fn ctr_apply_keystream(key: &[u8; 16], iv: &[u8; 16], data: &mut Vec<u8>)
    ensures
        final(data)@.len() == old(data)@.len(),
        forall|i: int|
            0 <= i < old(data)@.len() ==> #[trigger] final(data)@[i] == old(data)@[i]
                ^ aes128_keystream(key@, iv@, old(data)@.len())[i],
{
    ctr::Ctr128BE::<Aes128>::new(key.into(), iv.into()).apply_keystream(data.as_mut_slice());
}

/// Decrypts whole blocks in place with `cbc::Decryptor<aes::Aes128>`, created from `key`
/// and `iv`, without padding (`BlockModeDecrypt::decrypt_padded` with `NoPadding`).
///
/// `NoPadding` accepts any whole number of blocks, so the call succeeds on every input
/// that the precondition admits. Claims that the result is a function of the key, the IV
/// and the data, and that the data keeps its length; the block cipher is not stated.
#[verifier::external_body]
pub(crate) fn cbc_decrypt_blocks(key: &[u8; 16], iv: &[u8; 16], data: &mut Vec<u8>)
    requires
        old(data)@.len() % 16 == 0,
    ensures
        final(data)@ == aes128_cbc_decrypt(key@, iv@, old(data)@),
        final(data)@.len() == old(data)@.len(),
{
    cbc::Decryptor::<Aes128>::new(key.into(), iv.into())
        .decrypt_padded::<cbc::cipher::block_padding::NoPadding>(data.as_mut_slice())
        .unwrap();
}

} // verus!
