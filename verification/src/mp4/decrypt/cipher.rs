//! Decryption of the samples of Common Encryption (`cenc`, `cens`, `cbc1`, `cbcs`).
//!
//! A sample is decrypted in two steps: the regions to decrypt are worked out from the
//! scheme, the encryption pattern and the subsample layout, then the AES operations run
//! on them. Counter-mode schemes run one key stream over the encrypted bytes taken in
//! order; block-chaining schemes decrypt each region on its own, with the IV that the
//! scheme gives it.
use crate::mp4::boxes::iv::{pad_iv, padded_iv};
use crate::mp4::boxes::senc::{SencSample, SencSubsample};
use crate::mp4::decrypt::aes::{
    aes128_cbc_decrypt, aes128_ctr, aes128_keystream, cbc_decrypt_blocks, ctr_apply_keystream,
};
use vstd::prelude::*;
use vstd::slice::{slice_subrange, slice_to_vec};

verus! {

/// The protection scheme of a track.
#[derive(Clone, Copy, Debug, PartialEq, Eq, Structural)]
pub enum CipherMode {
    Cenc,
    Cens,
    Cbc1,
    Cbcs,
    Unknown,
}

/// The scheme named by a `schm` scheme type.
pub open spec fn mode_of(scheme_type: u32) -> CipherMode {
    if scheme_type == 0x63656E63 {
        CipherMode::Cenc
    } else if scheme_type == 0x63656E73 {
        CipherMode::Cens
    } else if scheme_type == 0x63626331 {
        CipherMode::Cbc1
    } else if scheme_type == 0x63626373 {
        CipherMode::Cbcs
    } else {
        CipherMode::Unknown
    }
}

pub open spec fn min(a: int, b: int) -> int {
    if a < b {
        a
    } else {
        b
    }
}

/// `s` with `t` written over it from position `a`.
pub open spec fn splice(s: Seq<u8>, a: int, t: Seq<u8>) -> Seq<u8> {
    s.take(a) + t + s.skip(a + t.len())
}

/// The bytes of the regions `r` (start and length), in order.
pub open spec fn gather(data: Seq<u8>, r: Seq<(int, int)>) -> Seq<u8>
    decreases r.len(),
{
    if r.len() == 0 {
        Seq::empty()
    } else {
        gather(data, r.drop_last()) + data.subrange(r.last().0, r.last().0 + r.last().1)
    }
}

/// `data` with the bytes `v` written back over the regions `r`, in order.
pub open spec fn scatter(data: Seq<u8>, r: Seq<(int, int)>, v: Seq<u8>) -> Seq<u8>
    decreases r.len(),
{
    if r.len() == 0 {
        data
    } else {
        let k = v.len() - r.last().1;
        splice(scatter(data, r.drop_last(), v.take(k)), r.last().0, v.skip(k))
    }
}

/// `data` after one counter-mode key stream runs over the regions `r`, taken in order.
pub open spec fn apply_ctr(key: Seq<u8>, iv: Seq<u8>, data: Seq<u8>, r: Seq<(int, int)>) -> Seq<
    u8,
> {
    scatter(data, r, aes128_ctr(key, iv, gather(data, r)))
}

/// The total length of the regions `r`.
pub open spec fn total_len(r: Seq<(int, int)>) -> int
    decreases r.len(),
{
    if r.len() == 0 {
        0
    } else {
        total_len(r.drop_last()) + r.last().1
    }
}

/// The regions `r` come in order and do not overlap.
pub open spec fn ordered_ranges(r: Seq<(int, int)>) -> bool {
    forall|a: int, b: int| 0 <= a < b < r.len() ==> #[trigger] r[a].0 + r[a].1 <= #[trigger] r[b].0
}

/// Position `i` lies in the `k`-th region.
pub open spec fn in_range(r: Seq<(int, int)>, k: int, i: int) -> bool {
    0 <= k < r.len() && r[k].0 <= i < r[k].0 + r[k].1
}

proof fn lemma_total_len_prefix(r: Seq<(int, int)>, k: int)
    requires
        0 <= k < r.len(),
        forall|m: int| 0 <= m < r.len() ==> 0 <= (#[trigger] r[m]).1,
    ensures
        total_len(r.take(k + 1)) == total_len(r.take(k)) + r[k].1,
        total_len(r.take(k)) + r[k].1 <= total_len(r),
        0 <= total_len(r.take(k)),
    decreases r.len() - k,
{
    assert(r.take(k + 1).drop_last() =~= r.take(k));
    lemma_total_len_nonneg(r.take(k));
    if k + 1 == r.len() {
        assert(r.take(k + 1) =~= r);
    } else {
        lemma_total_len_prefix(r, k + 1);
    }
}

proof fn lemma_total_len_nonneg(r: Seq<(int, int)>)
    requires
        forall|m: int| 0 <= m < r.len() ==> 0 <= (#[trigger] r[m]).1,
    ensures
        0 <= total_len(r),
    decreases r.len(),
{
    if r.len() > 0 {
        lemma_total_len_nonneg(r.drop_last());
    }
}

proof fn lemma_gather_points(data: Seq<u8>, r: Seq<(int, int)>)
    requires
        ranges_within(r, data.len() as int),
    ensures
        gather(data, r).len() == total_len(r),
        forall|k: int, j: int|
            0 <= k < r.len() && 0 <= j < r[k].1 ==> #[trigger] gather(data, r)[total_len(
                r.take(k),
            ) + j] == data[r[k].0 + j],
    decreases r.len(),
{
    if r.len() > 0 {
        let r1 = r.drop_last();
        lemma_gather_points(data, r1);
        let g1 = gather(data, r1);
        let g = gather(data, r);
        let last = r.len() - 1;
        assert(r1.take(last) =~= r1);
        assert(r.take(last) =~= r1);
        assert forall|k: int, j: int| 0 <= k < r.len() && 0 <= j < r[k].1 implies #[trigger] g[total_len(
            r.take(k),
        ) + j] == data[r[k].0 + j] by {
            if k < last {
                assert(r1.take(k) =~= r.take(k));
                lemma_total_len_prefix(r1, k);
                assert(r1[k] == r[k]);
            }
        }
    }
}

proof fn lemma_scatter_points(data: Seq<u8>, r: Seq<(int, int)>, v: Seq<u8>)
    requires
        ranges_within(r, data.len() as int),
        ordered_ranges(r),
        v.len() == total_len(r),
    ensures
        scatter(data, r, v).len() == data.len(),
        forall|k: int, j: int|
            0 <= k < r.len() && 0 <= j < r[k].1 ==> #[trigger] scatter(data, r, v)[r[k].0 + j] == v[total_len(
                r.take(k),
            ) + j],
        forall|i: int|
            0 <= i < data.len() && (forall|k: int| !#[trigger] in_range(r, k, i)) ==> #[trigger] scatter(
                data,
                r,
                v,
            )[i] == data[i],
    decreases r.len(),
{
    if r.len() > 0 {
        let r1 = r.drop_last();
        let last = r.len() - 1;
        let (a, l) = r[last];
        let kk = v.len() - l;
        assert(r.take(last) =~= r1);
        assert(total_len(r) == total_len(r1) + l);
        assert(ranges_within(r1, data.len() as int)) by {
            assert forall|m: int| 0 <= m < r1.len() implies 0 <= (#[trigger] r1[m]).0 && 0 <= r1[m].1
                && r1[m].0 + r1[m].1 <= data.len() by {
                assert(r1[m] == r[m]);
            }
        }
        assert(ordered_ranges(r1)) by {
            assert forall|x: int, y: int| 0 <= x < y < r1.len() implies #[trigger] r1[x].0 + r1[x].1
                <= #[trigger] r1[y].0 by {
                assert(r1[x] == r[x] && r1[y] == r[y]);
            }
        }
        lemma_total_len_nonneg(r1);
        assert(0 <= l);
        assert(0 <= kk <= v.len());
        let v1 = v.take(kk);
        let w = v.skip(kk);
        lemma_scatter_points(data, r1, v1);
        let s1 = scatter(data, r1, v1);
        let s = scatter(data, r, v);
        assert(s == splice(s1, a, w));
        assert(w.len() == l);
        assert(0 <= a && a + l <= data.len());
        assert(s.len() == data.len());
        assert forall|k: int, j: int| 0 <= k < r.len() && 0 <= j < r[k].1 implies #[trigger] s[r[k].0
            + j] == v[total_len(r.take(k)) + j] by {
            if k == last {
                assert(s[a + j] == w[j]);
            } else {
                assert(r[k].0 + r[k].1 <= a);
                assert(r1[k] == r[k]);
                assert(r1.take(k) =~= r.take(k));
                lemma_total_len_prefix(r1, k);
                assert(s[r[k].0 + j] == s1[r[k].0 + j]);
            }
        }
        assert forall|i: int|
            0 <= i < data.len() && (forall|k: int| !#[trigger] in_range(r, k, i)) implies #[trigger] s[i]
            == data[i] by {
            assert(!in_range(r, last, i));
            assert forall|k: int| !#[trigger] in_range(r1, k, i) by {
                if 0 <= k < r1.len() {
                    assert(r1[k] == r[k]);
                    assert(!in_range(r, k, i));
                }
            }
            assert(s[i] == s1[i]);
        }
    }
}

proof fn lemma_total_len_cover(r: Seq<(int, int)>, t: int) -> (kj: (int, int))
    requires
        forall|m: int| 0 <= m < r.len() ==> 0 <= (#[trigger] r[m]).1,
        0 <= t < total_len(r),
    ensures
        0 <= kj.0 < r.len(),
        0 <= kj.1 < r[kj.0].1,
        t == total_len(r.take(kj.0)) + kj.1,
    decreases r.len(),
{
    let r1 = r.drop_last();
    let last = r.len() - 1;
    assert(r.take(last) =~= r1);
    lemma_total_len_nonneg(r1);
    if t < total_len(r1) {
        let (k, j) = lemma_total_len_cover(r1, t);
        assert(r1.take(k) =~= r.take(k));
        assert(r1[k] == r[k]);
        (k, j)
    } else {
        (last, t - total_len(r1))
    }
}

/// Running the counter-mode key stream twice over the same regions gives the data back:
/// decrypting `cenc` or `cens` data is encrypting it again.
pub proof fn ctr_twice_is_identity(key: Seq<u8>, iv: Seq<u8>, data: Seq<u8>, r: Seq<(int, int)>)
    requires
        ranges_within(r, data.len() as int),
        ordered_ranges(r),
    ensures
        apply_ctr(key, iv, apply_ctr(key, iv, data, r), r) == data,
{
    let g = gather(data, r);
    lemma_gather_points(data, r);
    let v = aes128_ctr(key, iv, g);
    let d1 = scatter(data, r, v);
    lemma_scatter_points(data, r, v);
    let g1 = gather(d1, r);
    lemma_gather_points(d1, r);
    assert(g1 =~= v) by {
        assert forall|t: int| 0 <= t < g1.len() implies g1[t] == v[t] by {
            let (k, j) = lemma_total_len_cover(r, t);
            assert(g1[total_len(r.take(k)) + j] == d1[r[k].0 + j]);
            assert(d1[r[k].0 + j] == v[total_len(r.take(k)) + j]);
        }
    }
    let ks = aes128_keystream(key, iv, g.len());
    let back = aes128_ctr(key, iv, g1);
    assert(back =~= g) by {
        assert forall|t: int| 0 <= t < g.len() implies back[t] == g[t] by {
            let x = g[t];
            let y = ks[t];
            assert(back[t] == (x ^ y) ^ y);
            assert((x ^ y) ^ y == x) by (bit_vector);
        }
    }
    let d2 = scatter(d1, r, back);
    lemma_scatter_points(d1, r, back);
    assert(d2 =~= data) by {
        assert forall|i: int| 0 <= i < data.len() implies d2[i] == data[i] by {
            if exists|k: int| in_range(r, k, i) {
                let k = choose|k: int| in_range(r, k, i);
                let j = i - r[k].0;
                assert(d2[r[k].0 + j] == back[total_len(r.take(k)) + j]);
                assert(g[total_len(r.take(k)) + j] == data[r[k].0 + j]);
            } else {
                assert(d2[i] == d1[i]);
                assert(d1[i] == data[i]);
            }
        }
    }
}

/// `data` after the block-chaining decryptions `ops` (start, length, IV), in order.
pub open spec fn apply_cbc(key: Seq<u8>, data: Seq<u8>, ops: Seq<(int, int, Seq<u8>)>) -> Seq<u8>
    decreases ops.len(),
{
    if ops.len() == 0 {
        data
    } else {
        let d = apply_cbc(key, data, ops.drop_last());
        let (a, l, iv) = ops.last();
        splice(d, a, aes128_cbc_decrypt(key, iv, d.subrange(a, a + l)))
    }
}

/// The encrypted regions of `start..start + len` under a pattern of `c` encrypted bytes
/// then `s` clear bytes, from `pos` on; the last run of either kind may be short.
pub open spec fn pattern_ranges(start: int, len: int, pos: int, c: int, s: int) -> Seq<(int, int)>
    decreases len - pos,
{
    if pos >= len || (c <= 0 && s <= 0) {
        Seq::empty()
    } else {
        let tc = if c > 0 {
            min(len - pos, c)
        } else {
            0
        };
        let chunk = if tc > 0 {
            seq![(start + pos, tc)]
        } else {
            Seq::empty()
        };
        let p1 = pos + tc;
        if p1 >= len {
            chunk
        } else {
            let ts = if s > 0 {
                min(len - p1, s)
            } else {
                0
            };
            chunk + pattern_ranges(start, len, p1 + ts, c, s)
        }
    }
}

/// The encrypted regions of a `cens` region: all of it without a pattern.
pub open spec fn cens_ranges(start: int, len: int, c: int, s: int) -> Seq<(int, int)> {
    if c == 0 && s == 0 {
        seq![(start, len)]
    } else {
        pattern_ranges(start, len, 0, c, s)
    }
}

/// The counter-mode regions of a whole region processed under `mode`.
pub open spec fn region_ctr_ranges(mode: CipherMode, start: int, len: int, c: int, s: int) -> Seq<
    (int, int),
> {
    match mode {
        CipherMode::Cenc => seq![(start, len)],
        CipherMode::Cens => cens_ranges(start, len, c, s),
        _ => Seq::empty(),
    }
}

/// The counter-mode regions of the subsamples from the `k`-th on, the `k`-th starting at
/// `offset`: the encrypted part of each (under the pattern when `pattern`), up to the
/// first subsample that runs past the end of the sample.
pub open spec fn ctr_sub_ranges(
    subs: Seq<SencSubsample>,
    k: int,
    offset: int,
    len: int,
    c: int,
    s: int,
    pattern: bool,
) -> Seq<(int, int)>
    decreases subs.len() - k,
{
    if k < 0 || k >= subs.len() {
        Seq::empty()
    } else {
        let clear = subs[k].bytes_of_clear_data as int;
        let enc = subs[k].bytes_of_encrypted_data as int;
        if offset + clear + enc > len {
            Seq::empty()
        } else {
            let start = offset + clear;
            let here = if enc > 0 {
                if pattern {
                    pattern_ranges(start, enc, 0, c, s)
                } else {
                    seq![(start, enc)]
                }
            } else {
                Seq::empty()
            };
            here + ctr_sub_ranges(subs, k + 1, offset + clear + enc, len, c, s, pattern)
        }
    }
}

/// One block-chaining decryption of the whole blocks of `start..start + len`.
pub open spec fn cbc_block_ops(start: int, len: int, iv: Seq<u8>) -> Seq<(int, int, Seq<u8>)> {
    let blocks = len / 16 * 16;
    if blocks == 0 {
        Seq::empty()
    } else {
        seq![(start, blocks, iv)]
    }
}

/// The `cbcs` decryptions of `start..start + len` under a pattern of `c` encrypted then
/// `s` clear bytes, from `pos` on: the whole blocks of each encrypted run, each run
/// chained to the last encrypted block of the one before.
pub open spec fn cbcs_pattern_ops(
    data: Seq<u8>,
    start: int,
    len: int,
    pos: int,
    iv: Seq<u8>,
    c: int,
    s: int,
) -> Seq<(int, int, Seq<u8>)>
    decreases len - pos,
{
    if pos >= len || (c <= 0 && s <= 0) {
        Seq::empty()
    } else {
        let te = if c > 0 {
            min(len - pos, c)
        } else {
            0
        };
        let blocks = te / 16 * 16;
        let here = if blocks > 0 {
            seq![(start + pos, blocks, iv)]
        } else {
            Seq::empty()
        };
        let next_iv = if blocks > 0 {
            data.subrange(start + pos + blocks - 16, start + pos + blocks)
        } else {
            iv
        };
        let p1 = pos + te;
        if p1 >= len {
            here
        } else {
            let ts = if s > 0 {
                min(len - p1, s)
            } else {
                0
            };
            here + cbcs_pattern_ops(data, start, len, p1 + ts, next_iv, c, s)
        }
    }
}

/// The block-chaining decryptions of a region processed under `mode`.
pub open spec fn region_cbc_ops(
    mode: CipherMode,
    data: Seq<u8>,
    start: int,
    len: int,
    iv: Seq<u8>,
    c: int,
    s: int,
) -> Seq<(int, int, Seq<u8>)> {
    match mode {
        CipherMode::Cbc1 => cbc_block_ops(start, len, iv),
        CipherMode::Cbcs => if c == 0 && s == 0 {
            cbc_block_ops(start, len, iv)
        } else {
            cbcs_pattern_ops(data, start, len, 0, iv, c, s)
        },
        _ => Seq::empty(),
    }
}

/// The block-chaining decryptions of the subsamples from the `k`-th on, the `k`-th
/// starting at `offset`, each with the sample's IV: the encrypted part of each, and for
/// the first subsample that runs past the end of the sample, everything from its start.
pub open spec fn cbc_sub_ops(
    mode: CipherMode,
    data: Seq<u8>,
    subs: Seq<SencSubsample>,
    k: int,
    offset: int,
    iv: Seq<u8>,
    c: int,
    s: int,
) -> Seq<(int, int, Seq<u8>)>
    decreases subs.len() - k,
{
    if k < 0 || k >= subs.len() {
        Seq::empty()
    } else {
        let clear = subs[k].bytes_of_clear_data as int;
        let enc = subs[k].bytes_of_encrypted_data as int;
        if offset + clear + enc > data.len() {
            region_cbc_ops(mode, data, offset, data.len() - offset, iv, c, s)
        } else {
            let here = if enc > 0 {
                region_cbc_ops(mode, data, offset + clear, enc, iv, c, s)
            } else {
                Seq::empty()
            };
            here + cbc_sub_ops(mode, data, subs, k + 1, offset + clear + enc, iv, c, s)
        }
    }
}

/// A sample after decryption under `mode` with the key, the pattern sizes `c` and `s`,
/// the sample's IV and its subsamples.
pub open spec fn decrypted_sample(
    mode: CipherMode,
    key: Seq<u8>,
    c: int,
    s: int,
    data: Seq<u8>,
    iv: Seq<u8>,
    subs: Seq<SencSubsample>,
) -> Seq<u8> {
    match mode {
        CipherMode::Unknown => data,
        CipherMode::Cenc | CipherMode::Cens => apply_ctr(
            key,
            iv,
            data,
            if subs.len() > 0 {
                ctr_sub_ranges(
                    subs,
                    0,
                    0,
                    data.len() as int,
                    c,
                    s,
                    c > 0 && s > 0 && mode == CipherMode::Cens,
                )
            } else {
                region_ctr_ranges(mode, 0, data.len() as int, c, s)
            },
        ),
        CipherMode::Cbc1 | CipherMode::Cbcs => apply_cbc(
            key,
            data,
            if subs.len() > 0 {
                cbc_sub_ops(mode, data, subs, 0, 0, iv, c, s)
            } else {
                region_cbc_ops(mode, data, 0, (data.len() / 16 * 16) as int, iv, c, s)
            },
        ),
    }
}

/// The regions `r` lie within `lo..hi`, in order, without overlap.
pub open spec fn ranges_between(r: Seq<(int, int)>, lo: int, hi: int) -> bool {
    &&& ordered_ranges(r)
    &&& forall|k: int|
        0 <= k < r.len() ==> lo <= (#[trigger] r[k]).0 && 0 <= r[k].1 && r[k].0 + r[k].1 <= hi
}

proof fn lemma_concat_between(a: Seq<(int, int)>, b: Seq<(int, int)>, lo: int, mid: int, hi: int)
    requires
        lo <= mid <= hi,
        ranges_between(a, lo, mid),
        ranges_between(b, mid, hi),
    ensures
        ranges_between(a + b, lo, hi),
{
    let c = a + b;
    assert forall|x: int, y: int| 0 <= x < y < c.len() implies #[trigger] c[x].0 + c[x].1
        <= #[trigger] c[y].0 by {
        if y < a.len() {
            assert(c[x] == a[x] && c[y] == a[y]);
        } else if x < a.len() {
            assert(c[x] == a[x] && c[y] == b[y - a.len()]);
        } else {
            assert(c[x] == b[x - a.len()] && c[y] == b[y - a.len()]);
        }
    }
    assert forall|k: int| 0 <= k < c.len() implies lo <= (#[trigger] c[k]).0 && 0 <= c[k].1 && c[k].0
        + c[k].1 <= hi by {
        if k < a.len() {
            assert(c[k] == a[k]);
        } else {
            assert(c[k] == b[k - a.len()]);
        }
    }
}

proof fn lemma_pattern_between(start: int, len: int, pos: int, c: int, s: int)
    requires
        0 <= pos,
    ensures
        ranges_between(pattern_ranges(start, len, pos, c, s), start + pos, start + len),
    decreases len - pos,
{
    if !(pos >= len || (c <= 0 && s <= 0)) {
        let tc = if c > 0 {
            min(len - pos, c)
        } else {
            0
        };
        let chunk: Seq<(int, int)> = if tc > 0 {
            seq![(start + pos, tc)]
        } else {
            Seq::empty()
        };
        let p1 = pos + tc;
        assert(ranges_between(chunk, start + pos, start + p1));
        if p1 < len {
            let ts = if s > 0 {
                min(len - p1, s)
            } else {
                0
            };
            lemma_pattern_between(start, len, p1 + ts, c, s);
            lemma_concat_between(
                chunk,
                pattern_ranges(start, len, p1 + ts, c, s),
                start + pos,
                start + p1 + ts,
                start + len,
            );
        }
    }
}

proof fn lemma_sub_between(
    subs: Seq<SencSubsample>,
    k: int,
    offset: int,
    len: int,
    c: int,
    s: int,
    pattern: bool,
)
    requires
        0 <= offset,
    ensures
        ranges_between(ctr_sub_ranges(subs, k, offset, len, c, s, pattern), offset, len),
    decreases subs.len() - k,
{
    if !(k < 0 || k >= subs.len()) {
        let clear = subs[k].bytes_of_clear_data as int;
        let enc = subs[k].bytes_of_encrypted_data as int;
        if offset + clear + enc <= len {
            let start = offset + clear;
            let here: Seq<(int, int)> = if enc > 0 {
                if pattern {
                    pattern_ranges(start, enc, 0, c, s)
                } else {
                    seq![(start, enc)]
                }
            } else {
                Seq::empty()
            };
            if enc > 0 && pattern {
                lemma_pattern_between(start, enc, 0, c, s);
            }
            assert(ranges_between(here, offset, start + enc));
            lemma_sub_between(subs, k + 1, offset + clear + enc, len, c, s, pattern);
            lemma_concat_between(
                here,
                ctr_sub_ranges(subs, k + 1, offset + clear + enc, len, c, s, pattern),
                offset,
                offset + clear + enc,
                len,
            );
        }
    }
}

/// The counter-mode regions of a sample of `n` bytes.
pub open spec fn sample_ctr_ranges(
    mode: CipherMode,
    c: int,
    s: int,
    n: int,
    subs: Seq<SencSubsample>,
) -> Seq<(int, int)> {
    if subs.len() > 0 {
        ctr_sub_ranges(subs, 0, 0, n, c, s, c > 0 && s > 0 && mode == CipherMode::Cens)
    } else {
        region_ctr_ranges(mode, 0, n, c, s)
    }
}

proof fn lemma_sample_ranges(mode: CipherMode, c: int, s: int, n: int, subs: Seq<SencSubsample>)
    requires
        0 <= n,
    ensures
        ranges_between(sample_ctr_ranges(mode, c, s, n, subs), 0, n),
{
    if subs.len() > 0 {
        lemma_sub_between(subs, 0, 0, n, c, s, c > 0 && s > 0 && mode == CipherMode::Cens);
    } else if mode == CipherMode::Cens && !(c == 0 && s == 0) {
        lemma_pattern_between(0, n, 0, c, s);
    }
}

/// Decrypting a `cenc` or `cens` sample twice gives it back: the counter-mode schemes
/// encrypt and decrypt alike, so what decryption gives back of an encrypted sample is
/// the sample that was encrypted.
pub proof fn ctr_sample_decryption_is_involution(
    mode: CipherMode,
    key: Seq<u8>,
    c: int,
    s: int,
    data: Seq<u8>,
    iv: Seq<u8>,
    subs: Seq<SencSubsample>,
)
    requires
        mode == CipherMode::Cenc || mode == CipherMode::Cens,
    ensures
        decrypted_sample(mode, key, c, s, decrypted_sample(mode, key, c, s, data, iv, subs), iv, subs)
            == data,
{
    let n = data.len() as int;
    let r = sample_ctr_ranges(mode, c, s, n, subs);
    lemma_sample_ranges(mode, c, s, n, subs);
    assert(decrypted_sample(mode, key, c, s, data, iv, subs) == apply_ctr(key, iv, data, r));
    let v = aes128_ctr(key, iv, gather(data, r));
    lemma_gather_points(data, r);
    lemma_scatter_points(data, r, v);
    let once = apply_ctr(key, iv, data, r);
    assert(once.len() == data.len());
    assert(decrypted_sample(mode, key, c, s, once, iv, subs) == apply_ctr(key, iv, once, r));
    ctr_twice_is_identity(key, iv, data, r);
}

/// Counter-mode decryption keeps the length of the data and leaves every byte outside
/// its regions as it was (the clear bytes of subsamples among them).
pub proof fn ctr_keeps_other_bytes(key: Seq<u8>, iv: Seq<u8>, data: Seq<u8>, r: Seq<(int, int)>)
    requires
        ranges_within(r, data.len() as int),
        ordered_ranges(r),
    ensures
        apply_ctr(key, iv, data, r).len() == data.len(),
        forall|i: int|
            0 <= i < data.len() && (forall|k: int| !#[trigger] in_range(r, k, i)) ==> #[trigger] apply_ctr(
                key,
                iv,
                data,
                r,
            )[i] == data[i],
{
    lemma_gather_points(data, r);
    lemma_scatter_points(data, r, aes128_ctr(key, iv, gather(data, r)));
}

/// Regions as integers.
pub open spec fn ranges_view(v: Seq<(usize, usize)>) -> Seq<(int, int)> {
    v.map_values(|r: (usize, usize)| (r.0 as int, r.1 as int))
}

/// Decryptions as integers and byte sequences.
pub open spec fn ops_view(v: Seq<(usize, usize, [u8; 16])>) -> Seq<(int, int, Seq<u8>)> {
    v.map_values(|o: (usize, usize, [u8; 16])| (o.0 as int, o.1 as int, o.2@))
}

/// Every region lies within `n` bytes.
pub open spec fn ranges_within(r: Seq<(int, int)>, n: int) -> bool {
    forall|k: int| 0 <= k < r.len() ==> 0 <= (#[trigger] r[k]).0 && 0 <= r[k].1 && r[k].0 + r[k].1 <= n
}

/// Every decryption covers whole blocks within `n` bytes, with a 16-byte IV.
pub open spec fn ops_within(o: Seq<(int, int, Seq<u8>)>, n: int) -> bool {
    forall|k: int|
        0 <= k < o.len() ==> 0 <= (#[trigger] o[k]).0 && 0 <= o[k].1 && o[k].0 + o[k].1 <= n
            && o[k].1 % 16 == 0 && o[k].2.len() == 16
}

/// Runs one counter-mode key stream over the regions `r` of `data`, in order.
fn apply_ctr_exec(key: &[u8; 16], iv: &[u8; 16], data: &mut [u8], r: &Vec<(usize, usize)>)
    requires
        ranges_within(ranges_view(r@), old(data)@.len() as int),
    ensures
        final(data)@ == apply_ctr(key@, iv@, old(data)@, ranges_view(r@)),
        final(data)@.len() == old(data)@.len(),
{
    let ghost d0 = data@;
    let ghost rv = ranges_view(r@);
    let mut buf: Vec<u8> = Vec::new();
    let mut k: usize = 0;
    while k < r.len()
        invariant
            data@ == d0,
            rv == ranges_view(r@),
            ranges_within(rv, d0.len() as int),
            k <= r@.len(),
            buf@ == gather(d0, rv.take(k as int)),
        decreases r.len() - k,
    {
        let (a, l) = r[k];
        proof {
            assert(rv[k as int] == (a as int, l as int));
        }
        let mut j: usize = 0;
        while j < l
            invariant
                data@ == d0,
                rv == ranges_view(r@),
                ranges_within(rv, d0.len() as int),
                k < r@.len(),
                rv[k as int] == (a as int, l as int),
                j <= l,
                buf@ == gather(d0, rv.take(k as int)) + d0.subrange(a as int, a + j),
            decreases l - j,
        {
            buf.push(data[a + j]);
            j = j + 1;
            proof {
                assert(buf@ =~= gather(d0, rv.take(k as int)) + d0.subrange(a as int, a + j));
            }
        }
        k = k + 1;
        proof {
            assert(rv.take(k as int).drop_last() =~= rv.take(k - 1));
            assert(buf@ =~= gather(d0, rv.take(k as int)));
        }
    }
    proof {
        assert(rv.take(r@.len() as int) =~= rv);
    }
    let ghost g = buf@;
    ctr_apply_keystream(key, iv, &mut buf);
    let ghost v = buf@;
    proof {
        assert(v =~= aes128_ctr(key@, iv@, g));
    }
    let _ = buf.len();
    let n = data.len();
    let mut t: usize = 0;
    let mut k: usize = 0;
    while k < r.len()
        invariant
            rv == ranges_view(r@),
            ranges_within(rv, d0.len() as int),
            g == gather(d0, rv),
            v == aes128_ctr(key@, iv@, g),
            v.len() == g.len(),
            v.len() <= usize::MAX,
            n == d0.len(),
            buf@ == v,
            k <= r@.len(),
            t == gather(d0, rv.take(k as int)).len(),
            data@ == scatter(d0, rv.take(k as int), v.take(t as int)),
            data@.len() == d0.len(),
        decreases r.len() - k,
    {
        let (a, l) = r[k];
        proof {
            assert(rv[k as int] == (a as int, l as int));
            lemma_gather_prefix_len(d0, rv, k as int);
        }
        let ghost cur = data@;
        proof {
            assert(a + l <= d0.len());
            assert(t + l <= v.len());
        }
        let mut j: usize = 0;
        while j < l
            invariant
                a + l <= d0.len(),
                n == d0.len(),
                v.len() <= usize::MAX,
                rv == ranges_view(r@),
                ranges_within(rv, d0.len() as int),
                k < r@.len(),
                rv[k as int] == (a as int, l as int),
                buf@ == v,
                t + l <= v.len(),
                cur.len() == d0.len(),
                j <= l,
                data@ == splice(cur, a as int, v.subrange(t as int, t + j)),
            decreases l - j,
        {
            data[a + j] = buf[t + j];
            j = j + 1;
            proof {
                assert(data@ =~= splice(cur, a as int, v.subrange(t as int, t + j)));
            }
        }
        proof {
            let rk = rv.take(k + 1);
            assert(rk.drop_last() =~= rv.take(k as int));
            assert(rk.last() == (a as int, l as int));
            let vt = v.take(t + l);
            assert(vt.take(t as int) =~= v.take(t as int));
            assert(vt.skip(t as int) =~= v.subrange(t as int, t + l));
            assert(gather(d0, rk).len() == t + l);
        }
        t = t + l;
        k = k + 1;
    }
    proof {
        assert(rv.take(r@.len() as int) =~= rv);
        assert(v.take(t as int) =~= v);
    }
}

/// The regions before the `k`-th add up to no more than all of them, and the `k`-th
/// adds its length.
proof fn lemma_gather_prefix_len(data: Seq<u8>, r: Seq<(int, int)>, k: int)
    requires
        ranges_within(r, data.len() as int),
        0 <= k < r.len(),
    ensures
        gather(data, r.take(k + 1)).len() == gather(data, r.take(k)).len() + r[k].1,
        gather(data, r.take(k + 1)).len() <= gather(data, r).len(),
    decreases r.len() - k,
{
    assert(r.take(k + 1).drop_last() =~= r.take(k));
    if k + 1 < r.len() {
        lemma_gather_prefix_len(data, r, k + 1);
    } else {
        assert(r.take(k + 1) =~= r);
    }
}

/// Runs the block-chaining decryptions `ops` on `data`, in order.
fn apply_cbc_exec(key: &[u8; 16], data: &mut [u8], ops: &Vec<(usize, usize, [u8; 16])>)
    requires
        ops_within(ops_view(ops@), old(data)@.len() as int),
    ensures
        final(data)@ == apply_cbc(key@, old(data)@, ops_view(ops@)),
        final(data)@.len() == old(data)@.len(),
{
    let ghost d0 = data@;
    let ghost ov = ops_view(ops@);
    let n = data.len();
    let mut k: usize = 0;
    while k < ops.len()
        invariant
            ov == ops_view(ops@),
            ops_within(ov, d0.len() as int),
            n == d0.len(),
            data@.len() == d0.len(),
            k <= ops@.len(),
            data@ == apply_cbc(key@, d0, ov.take(k as int)),
        decreases ops.len() - k,
    {
        let (a, l, iv) = ops[k];
        proof {
            assert(ov[k as int] == (a as int, l as int, iv@));
        }
        let ghost cur = data@;
        let mut buf = slice_to_vec(slice_subrange(data, a, a + l));
        cbc_decrypt_blocks(key, &iv, &mut buf);
        let ghost v = buf@;
        let mut j: usize = 0;
        while j < l
            invariant
                a + l <= n,
                n == d0.len(),
                cur.len() == d0.len(),
                buf@ == v,
                v.len() == l,
                j <= l,
                data@ == splice(cur, a as int, v.take(j as int)),
            decreases l - j,
        {
            data[a + j] = buf[j];
            j = j + 1;
            proof {
                assert(data@ =~= splice(cur, a as int, v.take(j as int)));
            }
        }
        proof {
            assert(ov.take(k + 1).drop_last() =~= ov.take(k as int));
            assert(ov.take(k + 1).last() == (a as int, l as int, iv@));
            assert(v.take(l as int) =~= v);
        }
        k = k + 1;
    }
    proof {
        assert(ov.take(ops@.len() as int) =~= ov);
    }
}

/// Appends the region `a..a + l` to a plan of regions within `n` bytes.
fn push_range(out: &mut Vec<(usize, usize)>, a: usize, l: usize, Ghost(n): Ghost<int>)
    requires
        a + l <= n,
        ranges_within(ranges_view(old(out)@), n),
    ensures
        ranges_view(final(out)@) == ranges_view(old(out)@).push((a as int, l as int)),
        ranges_within(ranges_view(final(out)@), n),
{
    out.push((a, l));
    proof {
        assert(ranges_view(out@) =~= ranges_view(old(out)@).push((a as int, l as int)));
    }
}

/// Appends a decryption of `a..a + l` with `iv` to a plan within `n` bytes.
fn push_op(
    out: &mut Vec<(usize, usize, [u8; 16])>,
    a: usize,
    l: usize,
    iv: [u8; 16],
    Ghost(n): Ghost<int>,
)
    requires
        a + l <= n,
        l % 16 == 0,
        ops_within(ops_view(old(out)@), n),
    ensures
        ops_view(final(out)@) == ops_view(old(out)@).push((a as int, l as int, iv@)),
        ops_within(ops_view(final(out)@), n),
{
    out.push((a, l, iv));
    proof {
        assert(ops_view(out@) =~= ops_view(old(out)@).push((a as int, l as int, iv@)));
    }
}

/// Appends the encrypted regions of `start..start + len` under the pattern.
fn push_pattern_ranges(
    out: &mut Vec<(usize, usize)>,
    start: usize,
    len: usize,
    c: usize,
    s: usize,
    Ghost(n): Ghost<int>,
)
    requires
        c > 0 || s > 0,
        start + len <= n <= usize::MAX,
        ranges_within(ranges_view(old(out)@), n),
    ensures
        ranges_view(final(out)@) == ranges_view(old(out)@) + pattern_ranges(
            start as int,
            len as int,
            0,
            c as int,
            s as int,
        ),
        ranges_within(ranges_view(final(out)@), n),
{
    let mut pos: usize = 0;
    proof {
        assert(ranges_view(out@) =~= ranges_view(old(out)@));
    }
    while pos < len
        invariant
            c > 0 || s > 0,
            start + len <= n <= usize::MAX,
            pos <= len,
            ranges_within(ranges_view(out@), n),
            ranges_view(out@) + pattern_ranges(start as int, len as int, pos as int, c as int, s as int)
                == ranges_view(old(out)@) + pattern_ranges(
                start as int,
                len as int,
                0,
                c as int,
                s as int,
            ),
        decreases len - pos,
    {
        let ghost before = ranges_view(out@);
        let ghost rest = pattern_ranges(start as int, len as int, pos as int, c as int, s as int);
        let tc = if c > 0 {
            if len - pos < c {
                len - pos
            } else {
                c
            }
        } else {
            0
        };
        if tc > 0 {
            push_range(out, start + pos, tc, Ghost(n));
        }
        let p1 = pos + tc;
        let next = if p1 < len {
            let ts = if s > 0 {
                if len - p1 < s {
                    len - p1
                } else {
                    s
                }
            } else {
                0
            };
            p1 + ts
        } else {
            p1
        };
        proof {
            let chunk = if tc > 0 {
                seq![(start + pos, tc as int)]
            } else {
                Seq::<(int, int)>::empty()
            };
            assert(ranges_view(out@) =~= before + chunk);
            if p1 < len {
                assert(rest == chunk + pattern_ranges(
                    start as int,
                    len as int,
                    next as int,
                    c as int,
                    s as int,
                ));
                assert(before + chunk + pattern_ranges(
                    start as int,
                    len as int,
                    next as int,
                    c as int,
                    s as int,
                ) =~= before + rest);
            } else {
                assert(rest == chunk);
                assert(pattern_ranges(start as int, len as int, next as int, c as int, s as int)
                    =~= Seq::<(int, int)>::empty());
                assert(before + chunk + Seq::<(int, int)>::empty() =~= before + rest);
            }
        }
        pos = next;
    }
    proof {
        assert(pattern_ranges(start as int, len as int, pos as int, c as int, s as int)
            =~= Seq::<(int, int)>::empty());
        assert(ranges_view(out@) + Seq::<(int, int)>::empty() =~= ranges_view(out@));
    }
}

/// Appends the decryption of the whole blocks of `start..start + len` with `iv`.
fn push_cbc_block_ops(
    out: &mut Vec<(usize, usize, [u8; 16])>,
    start: usize,
    len: usize,
    iv: [u8; 16],
    Ghost(n): Ghost<int>,
)
    requires
        start + len <= n <= usize::MAX,
        ops_within(ops_view(old(out)@), n),
    ensures
        ops_view(final(out)@) == ops_view(old(out)@) + cbc_block_ops(start as int, len as int, iv@),
        ops_within(ops_view(final(out)@), n),
{
    let blocks = len / 16 * 16;
    if blocks > 0 {
        push_op(out, start, blocks, iv, Ghost(n));
        proof {
            assert(ops_view(out@) =~= ops_view(old(out)@) + cbc_block_ops(
                start as int,
                len as int,
                iv@,
            ));
        }
    } else {
        proof {
            assert(ops_view(out@) =~= ops_view(old(out)@) + cbc_block_ops(
                start as int,
                len as int,
                iv@,
            ));
        }
    }
}

/// Appends the `cbcs` decryptions of `start..start + len` of `data` under the pattern,
/// the first run with `iv`.
fn push_cbcs_pattern_ops(
    data: &[u8],
    out: &mut Vec<(usize, usize, [u8; 16])>,
    start: usize,
    len: usize,
    iv: [u8; 16],
    c: usize,
    s: usize,
)
    requires
        c > 0 || s > 0,
        start + len <= data@.len(),
        ops_within(ops_view(old(out)@), data@.len() as int),
    ensures
        ops_view(final(out)@) == ops_view(old(out)@) + cbcs_pattern_ops(
            data@,
            start as int,
            len as int,
            0,
            iv@,
            c as int,
            s as int,
        ),
        ops_within(ops_view(final(out)@), data@.len() as int),
{
    let ghost n = data@.len() as int;
    let _ = data.len();
    let mut pos: usize = 0;
    let mut cur_iv = iv;
    proof {
        assert(ops_view(out@) =~= ops_view(old(out)@));
    }
    while pos < len
        invariant
            c > 0 || s > 0,
            n == data@.len(),
            start + len <= n <= usize::MAX,
            pos <= len,
            ops_within(ops_view(out@), n),
            ops_view(out@) + cbcs_pattern_ops(
                data@,
                start as int,
                len as int,
                pos as int,
                cur_iv@,
                c as int,
                s as int,
            ) == ops_view(old(out)@) + cbcs_pattern_ops(
                data@,
                start as int,
                len as int,
                0,
                iv@,
                c as int,
                s as int,
            ),
        decreases len - pos,
    {
        let ghost before = ops_view(out@);
        let ghost old_iv = cur_iv@;
        let ghost rest = cbcs_pattern_ops(
            data@,
            start as int,
            len as int,
            pos as int,
            cur_iv@,
            c as int,
            s as int,
        );
        let te = if c > 0 {
            if len - pos < c {
                len - pos
            } else {
                c
            }
        } else {
            0
        };
        let blocks = te / 16 * 16;
        if blocks > 0 {
            let iv_start = start + pos + blocks - 16;
            let next_iv = pad_iv(slice_subrange(data, iv_start, iv_start + 16));
            proof {
                assert(next_iv@ =~= data@.subrange(iv_start as int, iv_start + 16));
            }
            push_op(out, start + pos, blocks, cur_iv, Ghost(n));
            cur_iv = next_iv;
        }
        let p1 = pos + te;
        let next = if p1 < len {
            let ts = if s > 0 {
                if len - p1 < s {
                    len - p1
                } else {
                    s
                }
            } else {
                0
            };
            p1 + ts
        } else {
            p1
        };
        proof {
            let here = if blocks > 0 {
                seq![(start + pos, blocks as int, old_iv)]
            } else {
                Seq::<(int, int, Seq<u8>)>::empty()
            };
            assert(ops_view(out@) =~= before + here);
            let tail = cbcs_pattern_ops(
                data@,
                start as int,
                len as int,
                next as int,
                cur_iv@,
                c as int,
                s as int,
            );
            if p1 < len {
                assert(rest == here + tail);
            } else {
                assert(rest == here);
                assert(tail =~= Seq::<(int, int, Seq<u8>)>::empty());
            }
            assert(before + here + tail =~= before + rest);
        }
        pos = next;
    }
    proof {
        assert(cbcs_pattern_ops(data@, start as int, len as int, pos as int, cur_iv@, c as int, s as int)
            =~= Seq::<(int, int, Seq<u8>)>::empty());
        assert(ops_view(out@) + Seq::<(int, int, Seq<u8>)>::empty() =~= ops_view(out@));
    }
}

/// Decrypts the samples of a track protected by one of the Common Encryption schemes.
pub struct CencProcessor {
    key: [u8; 16],
    iv: [u8; 16],
    crypt_size: usize,
    skip_size: usize,
    mode: CipherMode,
}

impl CencProcessor {
    /// The content key.
    pub closed spec fn key(&self) -> Seq<u8> {
        self.key@
    }

    /// The bytes of an encrypted run of the pattern.
    pub closed spec fn crypt_size(&self) -> int {
        self.crypt_size as int
    }

    /// The bytes of a clear run of the pattern.
    pub closed spec fn skip_size(&self) -> int {
        self.skip_size as int
    }

    /// The protection scheme.
    pub closed spec fn mode(&self) -> CipherMode {
        self.mode
    }

    /// The processor for a key, the encrypted and clear 16-byte blocks of the pattern and
    /// the scheme type of a `schm` box; an unknown scheme leaves samples as they are.
    pub fn new(key: &[u8; 16], crypt_blocks: u8, skip_blocks: u8, scheme_type: u32) -> (p: Self)
        ensures
            p.key() == key@,
            p.crypt_size() == crypt_blocks * 16,
            p.skip_size() == skip_blocks * 16,
            p.mode() == mode_of(scheme_type),
    {
        let mode = if scheme_type == 0x63656E63 {
            CipherMode::Cenc
        } else if scheme_type == 0x63656E73 {
            CipherMode::Cens
        } else if scheme_type == 0x63626331 {
            CipherMode::Cbc1
        } else if scheme_type == 0x63626373 {
            CipherMode::Cbcs
        } else {
            CipherMode::Unknown
        };
        CencProcessor {
            key: *key,
            iv: [0u8; 16],
            crypt_size: crypt_blocks as usize * 16,
            skip_size: skip_blocks as usize * 16,
            mode,
        }
    }

    /// Decrypts one sample in place, with the IV and subsamples of its `senc` entry.
    pub fn decrypt_sample_inplace(&mut self, data: &mut [u8], sample: &SencSample)
        ensures
            final(data)@ == decrypted_sample(
                old(self).mode(),
                old(self).key(),
                old(self).crypt_size(),
                old(self).skip_size(),
                old(data)@,
                sample.iv@,
                sample.subsamples@,
            ),
            final(data)@.len() == old(data)@.len(),
            final(self).key() == old(self).key(),
            final(self).crypt_size() == old(self).crypt_size(),
            final(self).skip_size() == old(self).skip_size(),
            final(self).mode() == old(self).mode(),
    {
        if self.mode == CipherMode::Unknown {
            return;
        }
        self.iv = sample.iv;
        if sample.subsamples.len() > 0 {
            self.decrypt_subsamples_inplace(data, &sample.iv, &sample.subsamples);
        } else if self.mode == CipherMode::Cbc1 || self.mode == CipherMode::Cbcs {
            self.decrypt_full_blocks_inplace(data);
        } else {
            self.process_inplace(data);
        }
    }

    fn decrypt_subsamples_inplace(
        &self,
        data: &mut [u8],
        iv: &[u8; 16],
        subsamples: &Vec<SencSubsample>,
    )
        requires
            self.mode != CipherMode::Unknown,
            subsamples@.len() > 0,
        ensures
            final(data)@.len() == old(data)@.len(),
            final(data)@ == decrypted_sample(
                self.mode(),
                self.key(),
                self.crypt_size(),
                self.skip_size(),
                old(data)@,
                iv@,
                subsamples@,
            ),
    {
        if self.mode == CipherMode::Cenc || self.mode == CipherMode::Cens {
            self.decrypt_subsamples_ctr_inplace(data, iv, subsamples);
        } else {
            self.decrypt_subsamples_cbc_inplace(data, iv, subsamples);
        }
    }

    /// Decrypts the whole blocks of a sample without subsamples.
    fn decrypt_full_blocks_inplace(&self, data: &mut [u8])
        requires
            self.mode == CipherMode::Cbc1 || self.mode == CipherMode::Cbcs,
        ensures
            final(data)@.len() == old(data)@.len(),
            final(data)@ == apply_cbc(
                self.key(),
                old(data)@,
                region_cbc_ops(
                    self.mode,
                    old(data)@,
                    0,
                    (old(data)@.len() / 16 * 16) as int,
                    self.iv@,
                    self.crypt_size(),
                    self.skip_size(),
                ),
            ),
    {
        let n = data.len();
        let blocks = n / 16 * 16;
        let mut ops: Vec<(usize, usize, [u8; 16])> = Vec::new();
        proof {
            assert(ops_view(ops@) =~= Seq::<(int, int, Seq<u8>)>::empty());
        }
        self.cbc_plan(data, &mut ops, 0, blocks, self.iv);
        proof {
            assert(ops_view(ops@) =~= Seq::<(int, int, Seq<u8>)>::empty() + region_cbc_ops(
                self.mode,
                data@,
                0,
                blocks as int,
                self.iv@,
                self.crypt_size(),
                self.skip_size(),
            ));
        }
        apply_cbc_exec(&self.key, data, &ops);
    }

    /// Decrypts a whole sample under a counter-mode scheme.
    fn process_inplace(&self, data: &mut [u8])
        requires
            self.mode == CipherMode::Cenc || self.mode == CipherMode::Cens,
        ensures
            final(data)@.len() == old(data)@.len(),
            final(data)@ == apply_ctr(
                self.key(),
                self.iv@,
                old(data)@,
                region_ctr_ranges(
                    self.mode,
                    0,
                    old(data)@.len() as int,
                    self.crypt_size(),
                    self.skip_size(),
                ),
            ),
    {
        let n = data.len();
        let mut ranges: Vec<(usize, usize)> = Vec::new();
        proof {
            assert(ranges_view(ranges@) =~= Seq::<(int, int)>::empty());
        }
        self.ctr_plan(&mut ranges, 0, n, Ghost(n as int));
        proof {
            assert(ranges_view(ranges@) =~= Seq::<(int, int)>::empty() + region_ctr_ranges(
                self.mode,
                0,
                n as int,
                self.crypt_size(),
                self.skip_size(),
            ));
        }
        apply_ctr_exec(&self.key, &self.iv, data, &ranges);
    }

    /// Appends the counter-mode regions of `start..start + len` under the scheme: all of
    /// it for `cenc`, the pattern's encrypted runs for `cens`.
    fn ctr_plan(&self, out: &mut Vec<(usize, usize)>, start: usize, len: usize, Ghost(n): Ghost<int>)
        requires
            self.mode == CipherMode::Cenc || self.mode == CipherMode::Cens,
            start + len <= n <= usize::MAX,
            ranges_within(ranges_view(old(out)@), n),
        ensures
            ranges_view(final(out)@) == ranges_view(old(out)@) + region_ctr_ranges(
                self.mode,
                start as int,
                len as int,
                self.crypt_size(),
                self.skip_size(),
            ),
            ranges_within(ranges_view(final(out)@), n),
    {
        if self.mode == CipherMode::Cens && (self.crypt_size > 0 || self.skip_size > 0) {
            push_pattern_ranges(out, start, len, self.crypt_size, self.skip_size, Ghost(n));
        } else {
            push_range(out, start, len, Ghost(n));
        }
    }

    /// Appends the block-chaining decryptions of `start..start + len` of `data` under the
    /// scheme, starting from `iv`: its whole blocks for `cbc1`, the pattern's encrypted
    /// runs for `cbcs`.
    fn cbc_plan(
        &self,
        data: &[u8],
        out: &mut Vec<(usize, usize, [u8; 16])>,
        start: usize,
        len: usize,
        iv: [u8; 16],
    )
        requires
            self.mode == CipherMode::Cbc1 || self.mode == CipherMode::Cbcs,
            start + len <= data@.len(),
            ops_within(ops_view(old(out)@), data@.len() as int),
        ensures
            ops_view(final(out)@) == ops_view(old(out)@) + region_cbc_ops(
                self.mode,
                data@,
                start as int,
                len as int,
                iv@,
                self.crypt_size(),
                self.skip_size(),
            ),
            ops_within(ops_view(final(out)@), data@.len() as int),
    {
        let n = data.len();
        if self.mode == CipherMode::Cbcs && (self.crypt_size > 0 || self.skip_size > 0) {
            push_cbcs_pattern_ops(data, out, start, len, iv, self.crypt_size, self.skip_size);
        } else {
            push_cbc_block_ops(out, start, len, iv, Ghost(n as int));
        }
    }

    /// Decrypts the subsamples of a sample under a counter-mode scheme: one key stream,
    /// from the sample's IV, over their encrypted parts, up to the first subsample that
    /// runs past the end of the sample.
    fn decrypt_subsamples_ctr_inplace(
        &self,
        data: &mut [u8],
        iv: &[u8; 16],
        subsamples: &Vec<SencSubsample>,
    )
        requires
            self.mode == CipherMode::Cenc || self.mode == CipherMode::Cens,
        ensures
            final(data)@.len() == old(data)@.len(),
            final(data)@ == apply_ctr(
                self.key(),
                iv@,
                old(data)@,
                ctr_sub_ranges(
                    subsamples@,
                    0,
                    0,
                    old(data)@.len() as int,
                    self.crypt_size(),
                    self.skip_size(),
                    self.crypt_size() > 0 && self.skip_size() > 0 && self.mode == CipherMode::Cens,
                ),
            ),
    {
        let ghost d0 = data@;
        let len = data.len();
        let c = self.crypt_size;
        let s = self.skip_size;
        let has_pattern = c > 0 && s > 0 && self.mode == CipherMode::Cens;
        let ghost subs = subsamples@;
        let ghost all = ctr_sub_ranges(subs, 0, 0, len as int, c as int, s as int, has_pattern);
        let mut ranges: Vec<(usize, usize)> = Vec::new();
        let mut offset: usize = 0;
        let mut k: usize = 0;
        proof {
            assert(ranges_view(ranges@) + all =~= all);
        }
        while k < subsamples.len()
            invariant
                data@ == d0,
                d0 == old(data)@,
                len == d0.len(),
                c == self.crypt_size(),
                s == self.skip_size(),
                has_pattern == (c > 0 && s > 0 && self.mode == CipherMode::Cens),
                self.mode == CipherMode::Cenc || self.mode == CipherMode::Cens,
                subs == subsamples@,
                all == ctr_sub_ranges(subs, 0, 0, len as int, c as int, s as int, has_pattern),
                k <= subs.len(),
                offset <= len,
                ranges_within(ranges_view(ranges@), len as int),
                ranges_view(ranges@) + ctr_sub_ranges(
                    subs,
                    k as int,
                    offset as int,
                    len as int,
                    c as int,
                    s as int,
                    has_pattern,
                ) == all,
            decreases subsamples.len() - k,
        {
            let ghost before = ranges_view(ranges@);
            let clear = subsamples[k].bytes_of_clear_data as usize;
            let enc = subsamples[k].bytes_of_encrypted_data as usize;
            if (offset as u128) + (clear as u128) + (enc as u128) > (len as u128) {
                proof {
                    assert(subs[k as int].bytes_of_clear_data as int == clear);
                    assert(subs[k as int].bytes_of_encrypted_data as int == enc);
                    assert(ctr_sub_ranges(
                        subs,
                        k as int,
                        offset as int,
                        len as int,
                        c as int,
                        s as int,
                        has_pattern,
                    ) == Seq::<(int, int)>::empty());
                    assert(before + Seq::<(int, int)>::empty() =~= before);
                }
                apply_ctr_exec(&self.key, iv, data, &ranges);
                return;
            }
            let start = offset + clear;
            if enc > 0 {
                if has_pattern {
                    push_pattern_ranges(&mut ranges, start, enc, c, s, Ghost(len as int));
                } else {
                    push_range(&mut ranges, start, enc, Ghost(len as int));
                    proof {
                        assert(seq![(start as int, enc as int)] =~= Seq::<(int, int)>::empty().push(
                            (start as int, enc as int),
                        ));
                    }
                }
            }
            proof {
                let here = if enc > 0 {
                    if has_pattern {
                        pattern_ranges(start as int, enc as int, 0, c as int, s as int)
                    } else {
                        seq![(start as int, enc as int)]
                    }
                } else {
                    Seq::<(int, int)>::empty()
                };
                assert(ranges_view(ranges@) =~= before + here);
                let tail = ctr_sub_ranges(
                    subs,
                    k + 1,
                    start + enc,
                    len as int,
                    c as int,
                    s as int,
                    has_pattern,
                );
                assert(before + here + tail =~= before + (here + tail));
            }
            offset = start + enc;
            k = k + 1;
        }
        proof {
            assert(ranges_view(ranges@) + Seq::<(int, int)>::empty() =~= ranges_view(ranges@));
        }
        apply_ctr_exec(&self.key, iv, data, &ranges);
    }

    /// Decrypts the subsamples of a sample under a block-chaining scheme: the encrypted
    /// part of each, from the sample's IV, and for the first subsample that runs past the
    /// end of the sample, everything from its start.
    fn decrypt_subsamples_cbc_inplace(
        &self,
        data: &mut [u8],
        iv: &[u8; 16],
        subsamples: &Vec<SencSubsample>,
    )
        requires
            self.mode == CipherMode::Cbc1 || self.mode == CipherMode::Cbcs,
        ensures
            final(data)@.len() == old(data)@.len(),
            final(data)@ == apply_cbc(
                self.key(),
                old(data)@,
                cbc_sub_ops(
                    self.mode,
                    old(data)@,
                    subsamples@,
                    0,
                    0,
                    iv@,
                    self.crypt_size(),
                    self.skip_size(),
                ),
            ),
    {
        let ghost d0 = data@;
        let len = data.len();
        let ghost subs = subsamples@;
        let ghost all = cbc_sub_ops(
            self.mode,
            d0,
            subs,
            0,
            0,
            iv@,
            self.crypt_size(),
            self.skip_size(),
        );
        let mut ops: Vec<(usize, usize, [u8; 16])> = Vec::new();
        let mut offset: usize = 0;
        let mut k: usize = 0;
        proof {
            assert(ops_view(ops@) + all =~= all);
        }
        while k < subsamples.len()
            invariant
                data@ == d0,
                d0 == old(data)@,
                len == d0.len(),
                self.mode == CipherMode::Cbc1 || self.mode == CipherMode::Cbcs,
                subs == subsamples@,
                all == cbc_sub_ops(
                    self.mode,
                    d0,
                    subs,
                    0,
                    0,
                    iv@,
                    self.crypt_size(),
                    self.skip_size(),
                ),
                k <= subs.len(),
                offset <= len,
                ops_within(ops_view(ops@), len as int),
                ops_view(ops@) + cbc_sub_ops(
                    self.mode,
                    d0,
                    subs,
                    k as int,
                    offset as int,
                    iv@,
                    self.crypt_size(),
                    self.skip_size(),
                ) == all,
            decreases subsamples.len() - k,
        {
            let ghost before = ops_view(ops@);
            let clear = subsamples[k].bytes_of_clear_data as usize;
            let enc = subsamples[k].bytes_of_encrypted_data as usize;
            if (offset as u128) + (clear as u128) + (enc as u128) > (len as u128) {
                self.cbc_plan(data, &mut ops, offset, len - offset, *iv);
                proof {
                    assert(subs[k as int].bytes_of_clear_data as int == clear);
                    assert(subs[k as int].bytes_of_encrypted_data as int == enc);
                    assert(cbc_sub_ops(
                        self.mode,
                        d0,
                        subs,
                        k as int,
                        offset as int,
                        iv@,
                        self.crypt_size(),
                        self.skip_size(),
                    ) == region_cbc_ops(
                        self.mode,
                        d0,
                        offset as int,
                        len - offset,
                        iv@,
                        self.crypt_size(),
                        self.skip_size(),
                    ));
                }
                apply_cbc_exec(&self.key, data, &ops);
                return;
            }
            let start = offset + clear;
            if enc > 0 {
                self.cbc_plan(data, &mut ops, start, enc, *iv);
            }
            proof {
                let here = if enc > 0 {
                    region_cbc_ops(
                        self.mode,
                        d0,
                        start as int,
                        enc as int,
                        iv@,
                        self.crypt_size(),
                        self.skip_size(),
                    )
                } else {
                    Seq::<(int, int, Seq<u8>)>::empty()
                };
                assert(ops_view(ops@) =~= before + here);
                let tail = cbc_sub_ops(
                    self.mode,
                    d0,
                    subs,
                    k + 1,
                    start + enc,
                    iv@,
                    self.crypt_size(),
                    self.skip_size(),
                );
                assert(before + here + tail =~= before + (here + tail));
            }
            offset = start + enc;
            k = k + 1;
        }
        proof {
            assert(ops_view(ops@) + Seq::<(int, int, Seq<u8>)>::empty() =~= ops_view(ops@));
        }
        apply_cbc_exec(&self.key, data, &ops);
    }
}

} // verus!
