//! Decisions of a stream download that need no I/O: which content key decrypts a CENC
//! stream, the fake PNG header some hosts put before segments, and the byte ranges a
//! single large segment is fetched in.
use crate::error::Error;
use crate::playlist::types::Range;
use vstd::prelude::*;

verus! {

/// The key pairs as plain text.
pub open spec fn key_pairs(v: Seq<(String, String)>) -> Seq<(Seq<char>, Seq<char>)> {
    v.map_values(|p: (String, String)| (p.0@, p.1@))
}

/// The key of `kid` among `(kid, key)` pairs; where a KID repeats, the later pair counts,
/// as when the pairs are collected into a map.
pub open spec fn lookup(keys: Seq<(Seq<char>, Seq<char>)>, kid: Seq<char>) -> Option<Seq<char>>
    decreases keys.len(),
{
    if keys.len() == 0 {
        None
    } else if keys.last().0 == kid {
        Some(keys.last().1)
    } else {
        lookup(keys.drop_last(), kid)
    }
}

/// The key of the first of `kids` that has one.
pub open spec fn first_mapped(keys: Seq<(Seq<char>, Seq<char>)>, kids: Seq<Seq<char>>) -> Option<
    Seq<char>,
>
    decreases kids.len(),
{
    if kids.len() == 0 {
        None
    } else {
        match lookup(keys, kids[0]) {
            Some(v) => Some(v),
            None => first_mapped(keys, kids.drop_first()),
        }
    }
}

/// The texts as plain values.
pub open spec fn texts(v: Seq<String>) -> Seq<Seq<char>> {
    v.map_values(|s: String| s@)
}

pub(crate) fn same_string(a: &String, b: &str) -> (r: bool)
    ensures
        r == (a@ == b@),
{
    crate::downloader::fetch::same_text(a.as_str(), b)
}

/// The key that the pairs give `kid`, the later pair where it repeats.
pub fn lookup_key(keys: &Vec<(String, String)>, kid: &str) -> (r: Option<String>)
    ensures
        match (r, lookup(key_pairs(keys@), kid@)) {
            (Some(a), Some(b)) => a@ == b,
            (None, None) => true,
            _ => false,
        },
{
    let mut i = keys.len();
    proof {
        assert(keys@.take(keys@.len() as int) =~= keys@);
    }
    while i > 0
        invariant
            i <= keys@.len(),
            lookup(key_pairs(keys@), kid@) == lookup(key_pairs(keys@.take(i as int)), kid@),
        decreases i,
    {
        let ghost p = key_pairs(keys@.take(i as int));
        proof {
            assert(p.drop_last() =~= key_pairs(keys@.take(i - 1)));
            assert(p.last() == (keys@[i - 1].0@, keys@[i - 1].1@));
        }
        if same_string(&keys[i - 1].0, kid) {
            return Some(keys[i - 1].1.clone());
        }
        i = i - 1;
    }
    proof {
        assert(key_pairs(keys@.take(0)) =~= seq![]);
    }
    None
}

/// The key of the first of `kids` that the pairs map.
fn first_mapped_key(keys: &Vec<(String, String)>, kids: &Vec<String>) -> (r: Option<String>)
    ensures
        match (r, first_mapped(key_pairs(keys@), texts(kids@))) {
            (Some(a), Some(b)) => a@ == b,
            (None, None) => true,
            _ => false,
        },
{
    let mut i: usize = 0;
    proof {
        assert(texts(kids@).skip(0) =~= texts(kids@));
    }
    while i < kids.len()
        invariant
            i <= kids@.len(),
            first_mapped(key_pairs(keys@), texts(kids@)) == first_mapped(
                key_pairs(keys@),
                texts(kids@).skip(i as int),
            ),
        decreases kids.len() - i,
    {
        let ghost rest = texts(kids@).skip(i as int);
        proof {
            assert(rest[0] == kids@[i as int]@);
            assert(rest.drop_first() =~= texts(kids@).skip(i + 1));
        }
        match lookup_key(keys, kids[i].as_str()) {
            Some(v) => {
                return Some(v);
            },
            None => {},
        }
        i = i + 1;
    }
    proof {
        assert(texts(kids@).skip(i as int) =~= seq![]);
    }
    None
}

/// The content key for a CENC stream with default key ID `default_kid`: the key given
/// for it, else the key given for the first key ID that the stream's PSSH boxes name
/// (read by calling `pssh_kids`, only where needed).
///
/// Fails where the default key ID is unknown, where no key at all was given, where
/// reading the PSSH key IDs fails, or where none of them has a key.
pub fn cenc_key<F: Fn() -> Result<Vec<String>, Error>>(
    default_kid: Option<&str>,
    keys: &Vec<(String, String)>,
    pssh_kids: &F,
) -> (r: Result<String, Error>)
    requires
        pssh_kids.requires(()),
    ensures
        match default_kid {
            None => r matches Err(Error::Other(m)) && m@
                == "Unable to determine default kid for this stream."@,
            Some(d) => if keys@.len() == 0 {
                r matches Err(Error::MissingKey(x)) && x@ == d@
            } else {
                match lookup(key_pairs(keys@), d@) {
                    Some(v) => r matches Ok(s) && s@ == v,
                    None => exists|out: Result<Vec<String>, Error>|
                        #[trigger] pssh_kids.ensures((), out) && match out {
                            Err(e) => r == Err::<String, Error>(e),
                            Ok(kids) => match first_mapped(key_pairs(keys@), texts(kids@)) {
                                Some(v) => r matches Ok(s) && s@ == v,
                                None => r matches Err(Error::Other(m)) && m@
                                    == "Unable to determine key for this stream."@,
                            },
                        },
                }
            },
        },
{
    let d = match default_kid {
        Some(d) => d,
        None => {
            return Err(Error::Other("Unable to determine default kid for this stream.".to_owned()));
        },
    };
    if keys.len() == 0 {
        return Err(Error::MissingKey(d.to_owned()));
    }
    match lookup_key(keys, d) {
        Some(v) => Ok(v),
        None => {
            let out = pssh_kids();
            match out {
                Err(e) => Err(e),
                Ok(kids) => match first_mapped_key(keys, &kids) {
                    Some(v) => Ok(v),
                    None => Err(Error::Other("Unable to determine key for this stream.".to_owned())),
                },
            }
        },
    }
}

/// The signature of a PNG file, which some hosts put before each segment.
pub open spec fn png_header() -> Seq<u8> {
    seq![0x89u8, 0x50u8, 0x4eu8, 0x47u8, 0x0du8, 0x0au8, 0x1au8, 0x0au8]
}

/// A segment's bytes without a leading PNG signature, where it has one.
pub fn strip_png_header(bytes: Vec<u8>) -> (r: Vec<u8>)
    ensures
        r@ == if bytes@.len() >= 8 && bytes@.take(8) == png_header() {
            bytes@.skip(8)
        } else {
            bytes@
        },
{
    if bytes.len() >= 8 && bytes[0] == 0x89 && bytes[1] == 0x50 && bytes[2] == 0x4e && bytes[3]
        == 0x47 && bytes[4] == 0x0d && bytes[5] == 0x0a && bytes[6] == 0x1a && bytes[7] == 0x0a {
        let mut out: Vec<u8> = Vec::new();
        let mut i: usize = 8;
        while i < bytes.len()
            invariant
                8 <= i <= bytes@.len(),
                out@ == bytes@.subrange(8, i as int),
            decreases bytes.len() - i,
        {
            out.push(bytes[i]);
            i = i + 1;
            proof {
                assert(out@ =~= bytes@.subrange(8, i as int));
            }
        }
        proof {
            assert(bytes@.take(8) =~= png_header());
            assert(out@ =~= bytes@.skip(8));
        }
        out
    } else {
        proof {
            if bytes@.len() >= 8 && bytes@.take(8) == png_header() {
                assert(bytes@.take(8)[0] == bytes@[0]);
                assert(bytes@.take(8)[7] == bytes@[7]);
            }
        }
        bytes
    }
}

/// The `k`-th byte range of `len` bytes fetched `chunk` bytes at a time (ends inclusive).
pub open spec fn chunk_range(len: nat, chunk: nat, k: nat) -> (nat, nat) {
    let start = k * chunk;
    let end = if start + chunk - 1 < len - 1 {
        (start + chunk - 1) as nat
    } else {
        (len - 1) as nat
    };
    (start, end)
}

/// The number of ranges `len` bytes take, `chunk` bytes each (the last may be shorter).
pub open spec fn chunk_count(len: nat, chunk: nat) -> nat {
    if len == 0 {
        0
    } else {
        ((len - 1) / (chunk as int) + 1) as nat
    }
}

/// Whether the end of every range fits in 64 bits as it is computed.
pub open spec fn chunks_fit(len: nat, chunk: nat) -> bool {
    len == 0 || ((len - 1) / (chunk as int)) * chunk + chunk - 1 <= u64::MAX
}

/// The byte ranges (ends inclusive) that `content_length` bytes are fetched in, `chunk`
/// bytes each but the last: `0..=chunk-1`, `chunk..=2*chunk-1`, and so on up to the last
/// byte. None for no bytes.
pub fn chunk_ranges(content_length: u64, chunk: u64) -> (r: Vec<Range>)
    requires
        chunk > 0,
        chunks_fit(content_length as nat, chunk as nat),
    ensures
        r@.len() == chunk_count(content_length as nat, chunk as nat),
        forall|k: int|
            0 <= k < r@.len() ==> ((#[trigger] r@[k]).0 as nat, r@[k].1 as nat) == chunk_range(
                content_length as nat,
                chunk as nat,
                k as nat,
            ),
{
    let mut r: Vec<Range> = Vec::new();
    if content_length == 0 {
        return r;
    }
    let last = content_length - 1;
    let n = last / chunk + 1;
    proof {
        assert(n == chunk_count(content_length as nat, chunk as nat));
    }
    let mut k: u64 = 0;
    while k < n
        invariant
            chunk > 0,
            content_length > 0,
            last == content_length - 1,
            chunks_fit(content_length as nat, chunk as nat),
            n == chunk_count(content_length as nat, chunk as nat),
            n == last / chunk + 1,
            k <= n,
            r@.len() == k,
            forall|j: int|
                0 <= j < r@.len() ==> ((#[trigger] r@[j]).0 as nat, r@[j].1 as nat) == chunk_range(
                    content_length as nat,
                    chunk as nat,
                    j as nat,
                ),
        decreases n - k,
    {
        proof {
            lemma_chunk_start_fits(content_length as nat, chunk as nat, k as nat);
        }
        let start = k * chunk;
        let end = if start + (chunk - 1) < last {
            start + (chunk - 1)
        } else {
            last
        };
        r.push(Range(start, end));
        k = k + 1;
    }
    r
}

/// The ranges a segment is fetched in tile its bytes: the first starts at byte 0, each
/// next one starts right after the one before ends, the last ends at the last byte, and
/// none is longer than `chunk` bytes.
pub proof fn chunk_ranges_tile(len: nat, chunk: nat)
    requires
        chunk > 0,
        len > 0,
    ensures
        chunk_range(len, chunk, 0).0 == 0,
        forall|k: nat|
            k + 1 < chunk_count(len, chunk) ==> #[trigger] chunk_range(len, chunk, k + 1).0
                == chunk_range(len, chunk, k).1 + 1,
        chunk_range(len, chunk, (chunk_count(len, chunk) - 1) as nat).1 == len - 1,
        forall|k: nat|
            k < chunk_count(len, chunk) ==> #[trigger] chunk_range(len, chunk, k).0 <= chunk_range(
                len,
                chunk,
                k,
            ).1 < chunk_range(len, chunk, k).0 + chunk,
{
    let q = (len - 1) / (chunk as int);
    assert(q * chunk <= len - 1 < q * chunk + chunk) by (nonlinear_arith)
        requires
            chunk > 0,
            q == (len - 1) / (chunk as int),
            len > 0,
    ;
    assert forall|k: nat| k + 1 < chunk_count(len, chunk) implies #[trigger] chunk_range(
        len,
        chunk,
        k + 1,
    ).0 == chunk_range(len, chunk, k).1 + 1 by {
        assert((k + 1) * chunk == k * chunk + chunk) by (nonlinear_arith);
        assert((k + 1) * chunk <= q * chunk) by (nonlinear_arith)
            requires
                k + 1 <= q,
                chunk > 0,
        ;
    }
    assert forall|k: nat| k < chunk_count(len, chunk) implies #[trigger] chunk_range(
        len,
        chunk,
        k,
    ).0 <= chunk_range(len, chunk, k).1 < chunk_range(len, chunk, k).0 + chunk by {
        assert(k * chunk <= q * chunk) by (nonlinear_arith)
            requires
                k <= q,
                chunk > 0,
        ;
    }
}

proof fn lemma_chunk_start_fits(len: nat, chunk: nat, k: nat)
    requires
        chunk > 0,
        len > 0,
        chunks_fit(len, chunk),
        k < (len - 1) / (chunk as int) + 1,
    ensures
        k * chunk + chunk - 1 <= u64::MAX,
        k * chunk <= len - 1,
{
    let q = (len - 1) / (chunk as int);
    assert(k * chunk <= q * chunk) by (nonlinear_arith)
        requires
            k <= q,
            chunk > 0,
    ;
    assert(q * chunk <= len - 1) by (nonlinear_arith)
        requires
            chunk > 0,
            q == (len - 1) / (chunk as int),
            len > 0,
    ;
}

} // verus!
