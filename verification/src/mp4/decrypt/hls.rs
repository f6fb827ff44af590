//! Decryption of HLS segments: AES-128 (whole segments, CBC with PKCS#7 padding) and
//! SAMPLE-AES (only the media samples are encrypted).
use crate::mp4::decrypt::aes::{aes128_cbc_decrypt, cbc_decrypt_blocks};
use crate::mp4::reader::{be_value, lemma_be_injective, pow256};
use vstd::prelude::*;
use vstd::slice::slice_to_vec;

verus! {

/// `s` plus one as a big-endian number of the same length (wrapping at the top).
pub open spec fn be_incremented(s: Seq<u8>) -> Seq<u8>
    decreases s.len(),
{
    if s.len() == 0 {
        s
    } else if s.last() == 255 {
        be_incremented(s.drop_last()).push(0)
    } else {
        s.drop_last().push((s.last() + 1) as u8)
    }
}

proof fn lemma_be_incremented(s: Seq<u8>)
    requires
        be_value(s) + 1 < pow256(s.len()),
    ensures
        be_incremented(s).len() == s.len(),
        be_value(be_incremented(s)) == be_value(s) + 1,
    decreases s.len(),
{
    if s.len() > 0 {
        let p = s.drop_last();
        let q = pow256(p.len());
        assert(pow256(s.len()) == 256 * q);
        if s.last() == 255 {
            assert(be_value(s) == be_value(p) * 256 + 255);
            assert(be_value(p) + 1 < q) by (nonlinear_arith)
                requires
                    be_value(p) * 256 + 255 + 1 < 256 * q,
            ;
            lemma_be_incremented(p);
            let t = be_incremented(p).push(0);
            assert(t.drop_last() =~= be_incremented(p));
        } else {
            let t = p.push((s.last() + 1) as u8);
            assert(t.drop_last() =~= p);
        }
    }
}

/// Adds one to a 16-byte big-endian counter.
fn increment_be(iv: &mut [u8; 16])
    requires
        be_value(old(iv)@) + 1 < pow256(16),
    ensures
        final(iv)@ == be_incremented(old(iv)@),
        be_value(final(iv)@) == be_value(old(iv)@) + 1,
{
    let ghost s = iv@;
    proof {
        lemma_be_incremented(s);
    }
    let mut i: usize = 16;
    proof {
        assert(s.take(16) =~= s);
        assert(iv@ =~= s.take(16) + Seq::new(0, |j: int| 0u8));
    }
    while i > 0
        invariant
            i <= 16,
            s == old(iv)@,
            be_value(be_incremented(s)) == be_value(s) + 1,
            s.len() == 16,
            iv@.len() == 16,
            be_incremented(s) == be_incremented(s.take(i as int)) + Seq::new(
                (16 - i) as nat,
                |j: int| 0u8,
            ),
            iv@ == s.take(i as int) + Seq::new((16 - i) as nat, |j: int| 0u8),
            be_value(s) + 1 < pow256(16),
        decreases i,
    {
        let b = iv[i - 1];
        proof {
            assert(s.take(i as int).last() == b);
            assert(s.take(i as int).drop_last() =~= s.take(i - 1));
        }
        if b == 255 {
            iv[i - 1] = 0;
            proof {
                assert(be_incremented(s.take(i as int)) == be_incremented(s.take(i - 1)).push(0));
                assert(be_incremented(s.take(i - 1)).push(0) + Seq::new(
                    (16 - i) as nat,
                    |j: int| 0u8,
                ) =~= be_incremented(s.take(i - 1)) + Seq::new((16 - i + 1) as nat, |j: int| 0u8));
                assert(iv@ =~= s.take(i - 1) + Seq::new((16 - i + 1) as nat, |j: int| 0u8));
            }
            i = i - 1;
        } else {
            iv[i - 1] = b + 1;
            proof {
                assert(be_incremented(s.take(i as int)) == s.take(i - 1).push((b + 1) as u8));
                assert(iv@ =~= s.take(i - 1).push((b + 1) as u8) + Seq::new(
                    (16 - i) as nat,
                    |j: int| 0u8,
                ));
            }
            return;
        }
    }
    proof {
        assert(s.take(0) =~= Seq::<u8>::empty());
        assert(iv@ =~= Seq::new(16, |j: int| 0u8));
        assert(be_incremented(Seq::<u8>::empty()) =~= Seq::<u8>::empty());
        assert(be_value(Seq::new(16, |j: int| 0u8)) == 0) by {
            lemma_be_zeros(16);
        }
    }
}

proof fn lemma_be_zeros(n: nat)
    ensures
        be_value(Seq::new(n, |j: int| 0u8)) == 0,
    decreases n,
{
    if n > 0 {
        lemma_be_zeros((n - 1) as nat);
        assert(Seq::new(n, |j: int| 0u8).drop_last() =~= Seq::new((n - 1) as nat, |j: int| 0u8));
    }
}

/// What `block_padding::Pkcs7` leaves of decrypted blocks: the last byte `n` must be
/// between 1 and 16 and the last `n` bytes must all be `n`; they are removed.
pub open spec fn pkcs7_unpad(p: Seq<u8>) -> Option<Seq<u8>> {
    if p.len() < 16 {
        None
    } else {
        let n = p.last() as int;
        if n == 0 || n > 16 {
            None
        } else if exists|i: int| p.len() - n <= i < p.len() && p[i] != n {
            None
        } else {
            Some(p.take(p.len() - n))
        }
    }
}

/// An AES-128 segment decrypted: CBC decryption of its whole blocks, then PKCS#7
/// unpadding; an empty segment, or one that is not whole blocks, has no decryption.
pub open spec fn hls_aes128(key: Seq<u8>, iv: Seq<u8>, input: Seq<u8>) -> Option<Seq<u8>> {
    if input.len() == 0 || input.len() % 16 != 0 {
        None
    } else {
        pkcs7_unpad(aes128_cbc_decrypt(key, iv, input))
    }
}

/// Incrementing the IV of an AES-128 decrypter gives the decrypter that `new` builds
/// with the next IV, the 16-byte big-endian number one above the old one: the same key,
/// that IV, and so the same decryption of every segment.
pub proof fn incremented_iv_is_next_iv(
    before: HlsAes128Decrypter,
    after: HlsAes128Decrypter,
    next: [u8; 16],
)
    requires
        after.key() == before.key(),
        be_value(after.iv_spec()) == be_value(before.iv_spec()) + 1,
        be_value(next@) == be_value(before.iv_spec()) + 1,
    ensures
        after.iv_spec() == next@,
        forall|x: Seq<u8>|
            hls_aes128(after.key(), after.iv_spec(), x) == hls_aes128(before.key(), next@, x),
{
    lemma_be_injective(after.iv_spec(), next@);
}

/// A decrypter for HTTP Live Streaming (HLS) AES-128 encrypted segments: whole segments
/// encrypted with AES-128 in CBC mode with PKCS#7 padding.
#[derive(Clone)]
pub struct HlsAes128Decrypter {
    key: [u8; 16],
    iv: [u8; 16],
}

impl HlsAes128Decrypter {
    pub closed spec fn key(&self) -> Seq<u8> {
        self.key@
    }

    pub closed spec fn iv_spec(&self) -> Seq<u8> {
        self.iv@
    }

    /// Creates a new `HlsAes128Decrypter` with the given key and IV.
    pub fn new(key: &[u8; 16], iv: &[u8; 16]) -> (d: Self)
        ensures
            d.key() == key@,
            d.iv_spec() == iv@,
    {
        HlsAes128Decrypter { key: *key, iv: *iv }
    }

    /// The IV of the next segment.
    pub fn iv(&self) -> (iv: [u8; 16])
        ensures
            iv@ == self.iv_spec(),
    {
        self.iv
    }

    /// Increments the IV by 1, as a 128-bit big-endian number.
    pub fn increment_iv(&mut self)
        requires
            be_value(old(self).iv_spec()) + 1 < pow256(16),
        ensures
            final(self).key() == old(self).key(),
            final(self).iv_spec() == be_incremented(old(self).iv_spec()),
            be_value(final(self).iv_spec()) == be_value(old(self).iv_spec()) + 1,
    {
        increment_be(&mut self.iv);
    }

    fn unpadded(&self, input: Vec<u8>) -> (r: Option<Vec<u8>>)
        ensures
            match r {
                Some(v) => hls_aes128(self.key(), self.iv_spec(), input@) == Some(v@)
                    && v@.len() < input@.len() <= v@.len() + 16,
                None => hls_aes128(self.key(), self.iv_spec(), input@) is None,
            },
    {
        let len = input.len();
        if len == 0 || len % 16 != 0 {
            return None;
        }
        let ghost inp = input@;
        let mut buf = input;
        cbc_decrypt_blocks(&self.key, &self.iv, &mut buf);
        let ghost p = buf@;
        let n = buf[len - 1];
        if n == 0 || n > 16 {
            return None;
        }
        let mut i: usize = len - n as usize;
        while i < len - 1
            invariant
                buf@ == p,
                p == aes128_cbc_decrypt(self.key(), self.iv_spec(), inp),
                inp == input@,
                inp.len() == len,
                len % 16 == 0,
                p.len() == len,
                len >= 16,
                1 <= n <= 16,
                p.last() == n,
                len - n <= i <= len - 1,
                forall|j: int| len - n <= j < i ==> p[j] == n,
            decreases len - 1 - i,
        {
            if buf[i] != n {
                proof {
                    assert(p[i as int] != n);
                }
                return None;
            }
            i = i + 1;
        }
        proof {
            assert(forall|j: int| len - n <= j < len ==> p[j] == n);
        }
        buf.truncate(len - n as usize);
        Some(buf)
    }

    /// Decrypts a segment whose padding is sound.
    pub fn decrypt(&self, input: Vec<u8>) -> (r: Vec<u8>)
        requires
            hls_aes128(self.key(), self.iv_spec(), input@) is Some,
        ensures
            hls_aes128(self.key(), self.iv_spec(), input@) == Some(r@),
            r@.len() < input@.len() <= r@.len() + 16,
    {
        match self.unpadded(input) {
            Some(v) => v,
            None => vstd::pervasive::unreached(),
        }
    }

    /// Decrypts a segment, or gives `None` where it is empty, is not whole blocks, or its
    /// padding is not sound (where `decrypt` would panic).
    pub fn try_decrypt(&self, input: Vec<u8>) -> (r: Option<Vec<u8>>)
        ensures
            match r {
                Some(v) => hls_aes128(self.key(), self.iv_spec(), input@) == Some(v@),
                None => hls_aes128(self.key(), self.iv_spec(), input@) is None,
            },
    {
        let copy = slice_to_vec(input.as_slice());
        match self.unpadded(copy) {
            Some(_) => Some(self.decrypt(input)),
            None => None,
        }
    }
}

/// The key and IV state of HTTP Live Streaming (HLS) SAMPLE-AES encrypted segments, in
/// which only the media samples are encrypted. The samples themselves are decrypted by
/// the caller with `iori_ssa::decrypt`: that crate can panic or loop on malformed
/// MPEG-TS or packed-audio data in ways no condition on the segment's bytes here rules
/// out.
#[derive(Clone)]
pub struct HlsSampleAesDecrypter {
    key: [u8; 16],
    iv: [u8; 16],
}

impl HlsSampleAesDecrypter {
    pub closed spec fn key(&self) -> Seq<u8> {
        self.key@
    }

    pub closed spec fn iv_spec(&self) -> Seq<u8> {
        self.iv@
    }

    /// Creates a new `HlsSampleAesDecrypter` with the given key and IV.
    pub fn new(key: &[u8; 16], iv: &[u8; 16]) -> (d: Self)
        ensures
            d.key() == key@,
            d.iv_spec() == iv@,
    {
        HlsSampleAesDecrypter { key: *key, iv: *iv }
    }

    /// The IV of the next segment.
    pub fn iv(&self) -> (iv: [u8; 16])
        ensures
            iv@ == self.iv_spec(),
    {
        self.iv
    }

    /// Increments the IV by 1, as a 128-bit big-endian number.
    pub fn increment_iv(&mut self)
        requires
            be_value(old(self).iv_spec()) + 1 < pow256(16),
        ensures
            final(self).key() == old(self).key(),
            final(self).iv_spec() == be_incremented(old(self).iv_spec()),
            be_value(final(self).iv_spec()) == be_value(old(self).iv_spec()) + 1,
    {
        increment_be(&mut self.iv);
    }

    /// The key.
    pub fn key_bytes(&self) -> (k: [u8; 16])
        ensures
            k@ == self.key(),
    {
        self.key
    }
}

} // verus!
