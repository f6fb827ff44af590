use crate::mp4::error::Error;
use vstd::slice::{slice_subrange, slice_to_vec};
use vstd::prelude::*;

verus! {

/// The unsigned big-endian value of a byte sequence.
pub open spec fn be_value(s: Seq<u8>) -> nat
    decreases s.len(),
{
    if s.len() == 0 {
        0
    } else {
        be_value(s.drop_last()) * 256 + s.last() as nat
    }
}

/// The unsigned little-endian value of a byte sequence.
pub open spec fn le_value(s: Seq<u8>) -> nat
    decreases s.len(),
{
    if s.len() == 0 {
        0
    } else {
        s.first() as nat + 256 * le_value(s.drop_first())
    }
}

/// The value of `s` read with the given endianness.
pub open spec fn endian_value(s: Seq<u8>, big_endian: bool) -> nat {
    if big_endian {
        be_value(s)
    } else {
        le_value(s)
    }
}

/// The two's complement value of a 4-byte sequence.
pub open spec fn signed32(u: nat) -> int {
    if u >= 0x8000_0000 {
        u - 0x1_0000_0000
    } else {
        u as int
    }
}

/// The 16-bit values decoded from consecutive byte pairs of `s` (a trailing odd byte is ignored).
pub open spec fn u16_chunks(s: Seq<u8>, big_endian: bool) -> Seq<u16> {
    Seq::new(
        s.len() / 2,
        |i: int| endian_value(s.subrange(2 * i, 2 * i + 2), big_endian) as u16,
    )
}

pub proof fn lemma_be2(s: Seq<u8>)
    requires
        s.len() == 2,
    ensures
        be_value(s) == s[0] * 256 + s[1],
        le_value(s) == s[0] + 256 * s[1],
{
    reveal_with_fuel(be_value, 3);
    reveal_with_fuel(le_value, 3);
    assert(s.drop_last().drop_last().len() == 0);
    assert(s.drop_first().drop_first().len() == 0);
}

pub proof fn lemma_be4(s: Seq<u8>)
    requires
        s.len() == 4,
    ensures
        be_value(s) == s[0] * 0x100_0000 + s[1] * 0x1_0000 + s[2] * 0x100 + s[3],
        le_value(s) == s[0] + s[1] * 0x100 + s[2] * 0x1_0000 + s[3] * 0x100_0000,
{
    reveal_with_fuel(be_value, 5);
    reveal_with_fuel(le_value, 5);
    assert(s.drop_last().drop_last().drop_last().drop_last().len() == 0);
    assert(s.drop_first().drop_first().drop_first().drop_first().len() == 0);
}

pub proof fn lemma_be8(s: Seq<u8>)
    requires
        s.len() == 8,
    ensures
        be_value(s) == be_value(s.subrange(0, 4)) * 0x1_0000_0000 + be_value(s.subrange(4, 8)),
        le_value(s) == le_value(s.subrange(0, 4)) + le_value(s.subrange(4, 8)) * 0x1_0000_0000,
{
    lemma_be_split(s, 4);
    lemma_le_split(s, 4);
    reveal_with_fuel(pow256, 5);
    assert(pow256(4) == 0x1_0000_0000);
    let r = le_value(s.subrange(4, 8));
    assert(s.subrange(4, s.len() as int) == s.subrange(4, 8));
    let q = pow256(4);
    assert(q * r == r * 0x1_0000_0000) by (nonlinear_arith)
        requires
            q == 0x1_0000_0000,
    ;
    lemma_be4(s.subrange(4, 8));
    lemma_be4(s.subrange(0, 4));
}

/// Splitting a big-endian number: the high part is shifted by the length of the low part.
pub proof fn lemma_be_split(s: Seq<u8>, k: int)
    requires
        0 <= k <= s.len(),
    ensures
        be_value(s) == be_value(s.subrange(0, k)) * pow256((s.len() - k) as nat) + be_value(
            s.subrange(k, s.len() as int),
        ),
    decreases s.len() - k,
{
    if k == s.len() {
        assert(s.subrange(0, k) =~= s);
        assert(s.subrange(k, s.len() as int).len() == 0);
        assert(be_value(s.subrange(k, s.len() as int)) == 0);
        assert(pow256(0) == 1);
        assert(be_value(s) * 1 == be_value(s));
    } else {
        let s1 = s.drop_last();
        lemma_be_split(s1, k);
        assert(s1.subrange(0, k) =~= s.subrange(0, k));
        let t = s.subrange(k, s.len() as int);
        assert(t.drop_last() =~= s1.subrange(k, s1.len() as int));
        assert(t.last() == s.last());
        assert(be_value(t) == be_value(t.drop_last()) * 256 + t.last() as nat);
        assert(be_value(s) == be_value(s1) * 256 + s.last() as nat);
        let a = be_value(s.subrange(0, k));
        let p = pow256((s.len() - 1 - k) as nat);
        let b = be_value(t.drop_last());
        assert(pow256((s.len() - k) as nat) == 256 * p);
        assert((a * p + b) * 256 == a * (256 * p) + b * 256) by (nonlinear_arith);
        assert(be_value(s1) == a * p + b);
        assert(be_value(s) == a * (256 * p) + be_value(t));
    }
}

pub proof fn lemma_le_split(s: Seq<u8>, k: int)
    requires
        0 <= k <= s.len(),
    ensures
        le_value(s) == le_value(s.subrange(0, k)) + pow256(k as nat) * le_value(
            s.subrange(k, s.len() as int),
        ),
    decreases k,
{
    if k == 0 {
        assert(s.subrange(0, s.len() as int) =~= s);
        assert(s.subrange(0, 0).len() == 0);
        assert(le_value(s.subrange(0, 0)) == 0);
        assert(pow256(0) == 1);
        assert(1 * le_value(s) == le_value(s));
    } else {
        let s1 = s.drop_first();
        lemma_le_split(s1, k - 1);
        let h = s.subrange(0, k);
        assert(s1.subrange(0, k - 1) =~= h.drop_first());
        assert(s1.subrange(k - 1, s1.len() as int) =~= s.subrange(k, s.len() as int));
        assert(h.first() == s.first());
        assert(le_value(h) == h.first() as nat + 256 * le_value(h.drop_first()));
        assert(le_value(s) == s.first() as nat + 256 * le_value(s1));
        let r = le_value(s.subrange(k, s.len() as int));
        let p = pow256((k - 1) as nat);
        let c = le_value(h.drop_first());
        assert(pow256(k as nat) == 256 * p);
        assert(256 * (c + p * r) == 256 * c + (256 * p) * r) by (nonlinear_arith);
        assert(le_value(s1) == c + p * r);
        assert(le_value(s) == le_value(h) + (256 * p) * r);
    }
}

pub open spec fn pow256(n: nat) -> nat
    decreases n,
{
    if n == 0 {
        1
    } else {
        256 * pow256((n - 1) as nat)
    }
}

/// Byte sequences of one length with the same big-endian value are the same.
pub proof fn lemma_be_injective(a: Seq<u8>, b: Seq<u8>)
    requires
        a.len() == b.len(),
        be_value(a) == be_value(b),
    ensures
        a == b,
    decreases a.len(),
{
    if a.len() > 0 {
        let x = be_value(a.drop_last());
        let y = be_value(b.drop_last());
        let p = a.last() as int;
        let q = b.last() as int;
        assert(x * 256 + p == y * 256 + q);
        assert(p == q && x == y) by (nonlinear_arith)
            requires
                x * 256 + p == y * 256 + q,
                0 <= p < 256,
                0 <= q < 256,
                x >= 0,
                y >= 0,
        ;
        lemma_be_injective(a.drop_last(), b.drop_last());
        assert(a =~= a.drop_last().push(a.last()));
        assert(b =~= b.drop_last().push(b.last()));
    } else {
        assert(a =~= b);
    }
}

pub proof fn lemma_be_bound(s: Seq<u8>)
    ensures
        be_value(s) < pow256(s.len()),
        le_value(s) < pow256(s.len()),
    decreases s.len(),
{
    if s.len() > 0 {
        lemma_be_bound(s.drop_last());
        lemma_be_bound(s.drop_first());
        let p = pow256((s.len() - 1) as nat);
        let a = be_value(s.drop_last());
        let b = le_value(s.drop_first());
        assert(a * 256 + 255 < 256 * p) by (nonlinear_arith)
            requires
                a < p,
        ;
        assert(255 + 256 * b < 256 * p) by (nonlinear_arith)
            requires
                b < p,
        ;
    }
}

/// A reader for parsing binary data of MP4 containers with support for big-endian and
/// little-endian formats.
///
/// Its view is the data it reads, its read position (never past the end of the data)
/// and its endianness.
pub struct Reader {
    big_endian: bool,
    data: Vec<u8>,
    position: u64,
}

impl Reader {
    #[verifier::type_invariant]
    closed spec fn inv(self) -> bool {
        self.position <= self.data@.len()
    }

    /// The bytes this reader reads from.
    pub closed spec fn data(&self) -> Seq<u8> {
        self.data@
    }

    /// The current read position.
    pub closed spec fn position(&self) -> nat {
        self.position as nat
    }

    /// Whether multi-byte values are read in big-endian order.
    pub closed spec fn big_endian(&self) -> bool {
        self.big_endian
    }

    /// The bytes from the read position to the end of the data.
    pub open spec fn remaining(&self) -> Seq<u8> {
        self.data().subrange(self.position() as int, self.data().len() as int)
    }

    /// The reader state after a read of `n` bytes: on success the position moves by `n`,
    /// on failure (not enough data) it moves to the end of the data, as a
    /// `std::io::Cursor` does.
    pub open spec fn after_read(&self, new: &Reader, n: nat) -> bool {
        &&& new.data() == self.data()
        &&& new.big_endian() == self.big_endian()
        &&& if self.position() + n <= self.data().len() {
            new.position() == self.position() + n
        } else {
            new.position() == self.data().len()
        }
    }

    /// The `n` bytes at the read position.
    pub open spec fn peek(&self, n: nat) -> Seq<u8> {
        self.data().subrange(self.position() as int, (self.position() + n) as int)
    }

    /// Creates a new big-endian `Reader` for the given data.
    pub fn new_big_endian(data: &[u8]) -> (r: Self)
        ensures
            r.data() == data@,
            r.position() == 0,
            r.big_endian(),
    {
        Reader { big_endian: true, data: slice_to_vec(data), position: 0 }
    }

    /// Creates a new little-endian `Reader` for the given data.
    pub fn new_little_endian(data: &[u8]) -> (r: Self)
        ensures
            r.data() == data@,
            r.position() == 0,
            !r.big_endian(),
    {
        Reader { big_endian: false, data: slice_to_vec(data), position: 0 }
    }

    /// Returns a slice referencing the underlying data.
    pub fn as_bytes(&self) -> (b: &[u8])
        ensures
            b@ == self.data(),
    {
        self.data.as_slice()
    }

    /// Returns `true` if there is more data to be read.
    pub fn has_more_data(&self) -> (b: bool)
        ensures
            b == (self.position() < self.data().len()),
    {
        (self.position as u128) < (self.data.len() as u128)
    }

    /// Returns the total length of the data in bytes.
    pub fn get_length(&self) -> (n: u64)
        ensures
            n == self.data().len(),
    {
        proof {
            use_type_invariant(self);
        }
        self.data.len() as u64
    }

    /// Returns the current read position.
    pub fn get_position(&self) -> (n: u64)
        ensures
            n == self.position(),
            n <= self.data().len(),
    {
        proof {
            use_type_invariant(self);
        }
        self.position
    }

    /// Skips the specified number of bytes.
    ///
    /// Fails with `SkipOutOfBounds`, leaving the reader unchanged, if the new position
    /// would exceed the total data length.
    pub fn skip(&mut self, bytes: u64) -> (r: Result<(), Error>)
        ensures
            final(self).data() == old(self).data(),
            final(self).big_endian() == old(self).big_endian(),
            r is Ok <==> old(self).position() + bytes <= old(self).data().len(),
            r is Ok ==> final(self).position() == old(self).position() + bytes,
            r is Err ==> r == Err::<(), Error>(Error::SkipOutOfBounds) && final(self).position()
                == old(self).position(),
    {
        proof {
            use_type_invariant(&*self);
        }
        let len = self.data.len() as u64;
        if bytes > len - self.position {
            return Err(Error::SkipOutOfBounds);
        }
        self.position = self.position + bytes;
        Ok(())
    }

    /// Copies `n` bytes from the read position, moving the position as `after_read` says.
    fn take(&mut self, n: usize) -> (r: Option<Vec<u8>>)
        ensures
            old(self).after_read(final(self), n as nat),
            r is Some <==> old(self).position() + n <= old(self).data().len(),
            r matches Some(v) ==> v@ == old(self).peek(n as nat),
    {
        proof {
            use_type_invariant(&*self);
        }
        let len = self.data.len();
        let pos = self.position as usize;
        if n > len - pos {
            self.position = len as u64;
            return None;
        }
        let v = slice_to_vec(slice_subrange(self.data.as_slice(), pos, pos + n));
        self.position = (pos + n) as u64;
        Some(v)
    }

    /// Reads an 8-bit unsigned integer.
    ///
    /// Fails with `UnexpectedEof` if there is not enough data left to read.
    pub fn read_u8(&mut self) -> (r: Result<u8, Error>)
        ensures
            old(self).after_read(final(self), 1),
            r is Ok <==> old(self).position() + 1 <= old(self).data().len(),
            r matches Ok(v) ==> v == old(self).data()[old(self).position() as int],
            r is Err ==> r == Err::<u8, Error>(Error::UnexpectedEof),
    {
        match self.take(1) {
            Some(v) => Ok(v[0]),
            None => Err(Error::UnexpectedEof),
        }
    }

    /// Reads a 16-bit unsigned integer according to the configured endianness.
    ///
    /// Fails with `UnexpectedEof` if there is not enough data left to read.
    pub fn read_u16(&mut self) -> (r: Result<u16, Error>)
        ensures
            old(self).after_read(final(self), 2),
            r is Ok <==> old(self).position() + 2 <= old(self).data().len(),
            r matches Ok(v) ==> v == endian_value(old(self).peek(2), old(self).big_endian()),
            r is Err ==> r == Err::<u16, Error>(Error::UnexpectedEof),
    {
        match self.take(2) {
            Some(v) => {
                proof {
                    lemma_be2(v@);
                }
                if self.big_endian {
                    Ok((v[0] as u16) * 256 + (v[1] as u16))
                } else {
                    Ok((v[0] as u16) + (v[1] as u16) * 256)
                }
            },
            None => Err(Error::UnexpectedEof),
        }
    }

    fn decode_u32(b: &Vec<u8>, big_endian: bool) -> (v: u32)
        requires
            b@.len() == 4,
        ensures
            v == endian_value(b@, big_endian),
    {
        proof {
            lemma_be4(b@);
        }
        if big_endian {
            (b[0] as u32) * 0x100_0000 + (b[1] as u32) * 0x1_0000 + (b[2] as u32) * 0x100
                + (b[3] as u32)
        } else {
            (b[0] as u32) + (b[1] as u32) * 0x100 + (b[2] as u32) * 0x1_0000 + (b[3] as u32)
                * 0x100_0000
        }
    }

    /// Reads a 32-bit unsigned integer according to the configured endianness.
    ///
    /// Fails with `UnexpectedEof` if there is not enough data left to read.
    pub fn read_u32(&mut self) -> (r: Result<u32, Error>)
        ensures
            old(self).after_read(final(self), 4),
            r is Ok <==> old(self).position() + 4 <= old(self).data().len(),
            r matches Ok(v) ==> v == endian_value(old(self).peek(4), old(self).big_endian()),
            r is Err ==> r == Err::<u32, Error>(Error::UnexpectedEof),
    {
        match self.take(4) {
            Some(v) => Ok(Self::decode_u32(&v, self.big_endian)),
            None => Err(Error::UnexpectedEof),
        }
    }

    /// Reads a 64-bit unsigned integer according to the configured endianness.
    ///
    /// Fails with `UnexpectedEof` if there is not enough data left to read.
    pub fn read_u64(&mut self) -> (r: Result<u64, Error>)
        ensures
            old(self).after_read(final(self), 8),
            r is Ok <==> old(self).position() + 8 <= old(self).data().len(),
            r matches Ok(v) ==> v == endian_value(old(self).peek(8), old(self).big_endian()),
            r is Err ==> r == Err::<u64, Error>(Error::UnexpectedEof),
    {
        match self.take(8) {
            Some(v) => {
                let lo = slice_to_vec(slice_subrange(v.as_slice(), 0, 4));
                let hi = slice_to_vec(slice_subrange(v.as_slice(), 4, 8));
                let a = Self::decode_u32(&lo, self.big_endian) as u64;
                let b = Self::decode_u32(&hi, self.big_endian) as u64;
                proof {
                    lemma_be8(v@);
                }
                if self.big_endian {
                    Ok(a * 0x1_0000_0000 + b)
                } else {
                    Ok(a + b * 0x1_0000_0000)
                }
            },
            None => Err(Error::UnexpectedEof),
        }
    }

    /// Reads the specified number of bytes into a vector.
    ///
    /// Fails with `UnexpectedEof` if there is not enough data left to read.
    pub fn read_bytes_u8(&mut self, bytes: usize) -> (r: Result<Vec<u8>, Error>)
        ensures
            old(self).after_read(final(self), bytes as nat),
            r is Ok <==> old(self).position() + bytes <= old(self).data().len(),
            r matches Ok(v) ==> v@ == old(self).peek(bytes as nat),
            r is Err ==> r == Err::<Vec<u8>, Error>(Error::UnexpectedEof),
    {
        match self.take(bytes) {
            Some(v) => Ok(v),
            None => Err(Error::UnexpectedEof),
        }
    }

    /// Reads `bytes` bytes and decodes each consecutive pair of them as a 16-bit unsigned
    /// integer according to the configured endianness; an odd trailing byte is dropped.
    ///
    /// Fails with `UnexpectedEof` if there is not enough data left to read.
    pub fn read_bytes_u16(&mut self, bytes: usize) -> (r: Result<Vec<u16>, Error>)
        ensures
            old(self).after_read(final(self), bytes as nat),
            r is Ok <==> old(self).position() + bytes <= old(self).data().len(),
            r matches Ok(v) ==> v@ == u16_chunks(old(self).peek(bytes as nat), old(self).big_endian()),
            r is Err ==> r == Err::<Vec<u16>, Error>(Error::UnexpectedEof),
    {
        let big = self.big_endian;
        match self.take(bytes) {
            Some(b) => {
                let mut out: Vec<u16> = Vec::new();
                let blen = b.len();
                let n = blen / 2;
                let mut i: usize = 0;
                while i < n
                    invariant
                        blen == b@.len(),
                        n == b@.len() / 2,
                        i <= n,
                        out@ =~= u16_chunks(b@, big).take(i as int),
                    decreases n - i,
                {
                    assert(2 * i + 1 < b@.len());
                    let j: usize = 2 * i;
                    let ghost pair = b@.subrange(j as int, j + 2);
                    proof {
                        lemma_be2(pair);
                    }
                    let x = if big {
                        (b[j] as u16) * 256 + (b[j + 1] as u16)
                    } else {
                        (b[j] as u16) + (b[j + 1] as u16) * 256
                    };
                    out.push(x);
                    i = i + 1;
                }
                Ok(out)
            },
            None => Err(Error::UnexpectedEof),
        }
    }

    /// Reads a 32-bit signed integer according to the configured endianness.
    ///
    /// Fails with `UnexpectedEof` if there is not enough data left to read.
    pub fn read_i32(&mut self) -> (r: Result<i32, Error>)
        ensures
            old(self).after_read(final(self), 4),
            r is Ok <==> old(self).position() + 4 <= old(self).data().len(),
            r matches Ok(v) ==> v == signed32(endian_value(old(self).peek(4), old(self).big_endian())),
            r is Err ==> r == Err::<i32, Error>(Error::UnexpectedEof),
    {
        match self.read_u32() {
            Ok(u) => {
                let s: i64 = if u >= 0x8000_0000 {
                    (u as i64) - 0x1_0000_0000
                } else {
                    u as i64
                };
                Ok(s as i32)
            },
            Err(e) => Err(e),
        }
    }
}

} // verus!
