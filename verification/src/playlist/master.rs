//! The order in which the streams of a master playlist are listed: video streams first,
//! best first, then audio streams, best first, then subtitle and other streams as found.
use crate::format::selector::positions;
use crate::playlist::types::MediaType;
use vstd::prelude::*;

verus! {

/// Whether the stream at `i` is listed before the stream at `j` of the same media type:
/// a greater key first (compared by its first part, then its second), and among equal
/// keys the one found first.
pub open spec fn ranks_before(keys: Seq<(u64, u64)>, i: usize, j: usize) -> bool {
    let a = keys[i as int];
    let b = keys[j as int];
    a.0 > b.0 || (a.0 == b.0 && (a.1 > b.1 || (a.1 == b.1 && i < j)))
}

/// Whether `s` is in listing order.
pub open spec fn ranked(s: Seq<usize>, keys: Seq<(u64, u64)>) -> bool {
    forall|a: int, b: int| 0 <= a < b < s.len() ==> ranks_before(keys, #[trigger] s[a], #[trigger] s[b])
}

/// Whether `s` holds just the positions of `g`.
pub open spec fn same_members(s: Seq<usize>, g: Seq<usize>) -> bool {
    s.len() == g.len() && forall|x: usize| s.contains(x) <==> g.contains(x)
}

/// Whether `s` lists the streams of type `t`, best first.
pub open spec fn ranked_group(
    s: Seq<usize>,
    kinds: Seq<MediaType>,
    keys: Seq<(u64, u64)>,
    t: MediaType,
) -> bool {
    ranked(s, keys) && same_members(s, positions(kinds, t, kinds.len() as int))
}

/// Whether `r` is the listing order of streams of the given types and ranking keys:
/// the video streams ranked by their keys, then the audio streams ranked by theirs, then
/// the subtitle and undefined streams in the order found.
pub open spec fn listing_order(r: Seq<usize>, kinds: Seq<MediaType>, keys: Seq<(u64, u64)>) -> bool {
    let nv = positions(kinds, MediaType::Video, kinds.len() as int).len();
    let na = positions(kinds, MediaType::Audio, kinds.len() as int).len();
    &&& r.len() >= nv + na
    &&& ranked_group(r.subrange(0, nv as int), kinds, keys, MediaType::Video)
    &&& ranked_group(r.subrange(nv as int, (nv + na) as int), kinds, keys, MediaType::Audio)
    &&& r.subrange((nv + na) as int, r.len() as int) == positions(
        kinds,
        MediaType::Subtitles,
        kinds.len() as int,
    ) + positions(kinds, MediaType::Undefined, kinds.len() as int)
}

/// Whether `r` lists each of the positions `0..n` exactly once.
pub open spec fn is_permutation(r: Seq<usize>, n: nat) -> bool {
    &&& r.len() == n
    &&& r.no_duplicates()
    &&& forall|k: int| 0 <= k < r.len() ==> r[k] < n
}

proof fn lemma_positions_facts(kinds: Seq<MediaType>, t: MediaType, n: int)
    requires
        0 <= n <= kinds.len(),
        kinds.len() <= usize::MAX,
    ensures
        forall|a: int, b: int|
            0 <= a < b < positions(kinds, t, n).len() ==> #[trigger] positions(kinds, t, n)[a]
                < #[trigger] positions(kinds, t, n)[b],
        forall|x: usize| #[trigger]
            positions(kinds, t, n).contains(x) <==> (x < n && kinds[x as int] == t),
        positions(kinds, t, n).len() <= n,
    decreases n,
{
    if n > 0 {
        lemma_positions_facts(kinds, t, n - 1);
        let p = positions(kinds, t, n - 1);
        if kinds[n - 1] == t {
            let last = (n - 1) as usize;
            let q = p.push(last);
            assert(q == positions(kinds, t, n));
            assert forall|x: usize| q.contains(x) <==> (x < n && kinds[x as int] == t) by {
                if x == last {
                    assert(q[p.len() as int] == x);
                }
                if q.contains(x) && x != last {
                    let k = choose|k: int| 0 <= k < q.len() && q[k] == x;
                    assert(k != p.len());
                    assert(p[k] == x);
                    assert(p.contains(x));
                }
                if p.contains(x) {
                    let k = choose|k: int| 0 <= k < p.len() && p[k] == x;
                    assert(q[k] == x);
                }
            }
            assert forall|a: int, b: int| 0 <= a < b < q.len() implies #[trigger] q[a] < #[trigger] q[b] by {
                if b == p.len() {
                    assert(q[a] == p[a]);
                    assert(p.contains(p[a]));
                } else {
                    assert(q[a] == p[a] && q[b] == p[b]);
                }
            }
        } else {
            assert(p == positions(kinds, t, n));
            assert forall|x: usize| p.contains(x) <==> (x < n && kinds[x as int] == t) by {
                if x == n - 1 {
                    assert(!p.contains(x));
                }
            }
        }
    }
}

/// Where the stream at `i` goes among the ranked positions `r`: after the streams that
/// rank before it.
fn insert_point(r: &Vec<usize>, keys: &Vec<(u64, u64)>, i: usize) -> (k: usize)
    requires
        i < keys@.len(),
        forall|x: int| 0 <= x < r@.len() ==> #[trigger] r@[x] < i,
    ensures
        k <= r@.len(),
        forall|x: int| 0 <= x < k ==> !ranks_before(keys@, i, #[trigger] r@[x]),
        k < r@.len() ==> ranks_before(keys@, i, r@[k as int]),
{
    let key = keys[i];
    let mut k: usize = 0;
    while k < r.len()
        invariant
            k <= r@.len(),
            i < keys@.len(),
            key == keys@[i as int],
            forall|x: int| 0 <= x < r@.len() ==> #[trigger] r@[x] < i,
            forall|x: int| 0 <= x < k ==> !ranks_before(keys@, i, #[trigger] r@[x]),
        decreases r.len() - k,
    {
        let other = keys[r[k]];
        if key.0 > other.0 || (key.0 == other.0 && key.1 > other.1) {
            return k;
        }
        k = k + 1;
    }
    k
}

/// The positions of the streams of type `t` in listing order.
fn ranked_positions(kinds: &Vec<MediaType>, keys: &Vec<(u64, u64)>, t: MediaType) -> (r: Vec<
    usize,
>)
    requires
        kinds@.len() == keys@.len(),
    ensures
        ranked_group(r@, kinds@, keys@, t),
{
    let n_kinds = kinds.len();
    assert(kinds@.len() == n_kinds);
    let mut r: Vec<usize> = Vec::new();
    let mut i: usize = 0;
    while i < kinds.len()
        invariant
            i <= kinds@.len(),
            kinds@.len() == keys@.len(),
            ranked(r@, keys@),
            r@.len() == positions(kinds@, t, i as int).len(),
            forall|x: usize| r@.contains(x) <==> positions(kinds@, t, i as int).contains(x),
            forall|k: int| 0 <= k < r@.len() ==> r@[k] < i,
        decreases kinds.len() - i,
    {
        proof {
            lemma_positions_facts(kinds@, t, i as int);
            lemma_positions_facts(kinds@, t, i + 1);
        }
        if kinds[i] == t {
            let k = insert_point(&r, keys, i);
            let ghost old_r = r@;
            r.insert(k, i);
            proof {
                assert forall|a: int, b: int| 0 <= a < b < r@.len() implies ranks_before(
                    keys@,
                    #[trigger] r@[a],
                    #[trigger] r@[b],
                ) by {
                    if b < k {
                        assert(r@[a] == old_r[a] && r@[b] == old_r[b]);
                    } else if b == k {
                        assert(r@[a] == old_r[a]);
                        assert(!ranks_before(keys@, i, old_r[a]));
                    } else if a == k {
                        assert(r@[b] == old_r[b - 1]);
                        assert(ranks_before(keys@, i, old_r[k as int]));
                        if b - 1 > k {
                            assert(ranks_before(keys@, old_r[k as int], old_r[b - 1]));
                        }
                    } else if a < k {
                        assert(r@[a] == old_r[a] && r@[b] == old_r[b - 1]);
                    } else {
                        assert(r@[a] == old_r[a - 1] && r@[b] == old_r[b - 1]);
                    }
                }
                let p = positions(kinds@, t, i as int);
                assert(positions(kinds@, t, i + 1) == p.push(i));
                assert forall|x: usize| r@.contains(x) <==> positions(kinds@, t, i + 1).contains(x) by {
                    if r@.contains(x) {
                        let m = choose|m: int| 0 <= m < r@.len() && r@[m] == x;
                        if m < k {
                            assert(old_r[m] == x);
                            assert(old_r.contains(x));
                        } else if m > k {
                            assert(old_r[m - 1] == x);
                            assert(old_r.contains(x));
                        }
                    }
                    if old_r.contains(x) {
                        let m = choose|m: int| 0 <= m < old_r.len() && old_r[m] == x;
                        if m < k {
                            assert(r@[m] == x);
                        } else {
                            assert(r@[m + 1] == x);
                        }
                    }
                    assert(r@[k as int] == i);
                }
                assert forall|m: int| 0 <= m < r@.len() implies r@[m] < i + 1 by {
                    if m < k {
                        assert(r@[m] == old_r[m]);
                    } else if m > k {
                        assert(r@[m] == old_r[m - 1]);
                    }
                }
            }
        } else {
            proof {
                assert(positions(kinds@, t, i + 1) == positions(kinds@, t, i as int));
            }
        }
        i = i + 1;
    }
    r
}

/// The positions of the streams of type `t` in the order found.
fn found_positions(kinds: &Vec<MediaType>, t: MediaType) -> (r: Vec<usize>)
    ensures
        r@ == positions(kinds@, t, kinds@.len() as int),
{
    let mut r: Vec<usize> = Vec::new();
    let mut i: usize = 0;
    while i < kinds.len()
        invariant
            i <= kinds@.len(),
            r@ == positions(kinds@, t, i as int),
        decreases kinds.len() - i,
    {
        if kinds[i] == t {
            r.push(i);
        }
        i = i + 1;
    }
    r
}

/// The order in which streams are listed, as positions: the video streams first, ranked
/// by their keys (resolution in pixels, then bandwidth) greatest first, then the audio
/// streams ranked by theirs (channels, then bandwidth), then the subtitle streams and
/// the streams of undefined type in the order found. Streams with equal keys keep the
/// order they were found in.
pub fn sort_order(kinds: &Vec<MediaType>, keys: &Vec<(u64, u64)>) -> (r: Vec<usize>)
    requires
        kinds@.len() == keys@.len(),
    ensures
        listing_order(r@, kinds@, keys@),
        is_permutation(r@, kinds@.len()),
{
    let n_kinds = kinds.len();
    assert(kinds@.len() == n_kinds);
    let mut r = ranked_positions(kinds, keys, MediaType::Video);
    let mut a = ranked_positions(kinds, keys, MediaType::Audio);
    let mut s = found_positions(kinds, MediaType::Subtitles);
    let mut u = found_positions(kinds, MediaType::Undefined);
    let ghost v0 = r@;
    let ghost a0 = a@;
    let ghost s0 = s@;
    let ghost u0 = u@;
    r.append(&mut a);
    r.append(&mut s);
    r.append(&mut u);
    proof {
        let n = kinds@.len() as int;
        lemma_positions_facts(kinds@, MediaType::Video, n);
        lemma_positions_facts(kinds@, MediaType::Audio, n);
        lemma_positions_facts(kinds@, MediaType::Subtitles, n);
        lemma_positions_facts(kinds@, MediaType::Undefined, n);
        assert(r@ == v0 + a0 + s0 + u0);
        assert(r@.subrange(0, v0.len() as int) =~= v0);
        assert(r@.subrange(v0.len() as int, (v0.len() + a0.len()) as int) =~= a0);
        assert(r@.subrange((v0.len() + a0.len()) as int, r@.len() as int) =~= s0 + u0);
        assert(kinds@.len() <= usize::MAX);
        lemma_listing_is_permutation(r@, kinds@, keys@, v0, a0, s0, u0);
    }
    r
}

/// The members of ranked groups and found positions make each position appear once.
proof fn lemma_listing_is_permutation(
    r: Seq<usize>,
    kinds: Seq<MediaType>,
    keys: Seq<(u64, u64)>,
    v: Seq<usize>,
    a: Seq<usize>,
    s: Seq<usize>,
    u: Seq<usize>,
)
    requires
        r == v + a + s + u,
        ranked_group(v, kinds, keys, MediaType::Video),
        ranked_group(a, kinds, keys, MediaType::Audio),
        s == positions(kinds, MediaType::Subtitles, kinds.len() as int),
        u == positions(kinds, MediaType::Undefined, kinds.len() as int),
        kinds.len() <= usize::MAX,
    ensures
        is_permutation(r, kinds.len()),
{
    let n = kinds.len() as int;
    lemma_positions_facts(kinds, MediaType::Video, n);
    lemma_positions_facts(kinds, MediaType::Audio, n);
    lemma_positions_facts(kinds, MediaType::Subtitles, n);
    lemma_positions_facts(kinds, MediaType::Undefined, n);
    // Where each position lies, by its media type.
    assert forall|k: int| 0 <= k < r.len() implies #[trigger] r[k] < n by {
        if k < v.len() {
            assert(r[k] == v[k]);
            assert(v.contains(v[k]));
        } else if k < v.len() + a.len() {
            assert(r[k] == a[k - v.len()]);
            assert(a.contains(a[k - v.len()]));
        } else if k < v.len() + a.len() + s.len() {
            assert(r[k] == s[k - v.len() - a.len()]);
            assert(s.contains(s[k - v.len() - a.len()]));
        } else {
            assert(r[k] == u[k - v.len() - a.len() - s.len()]);
            assert(u.contains(u[k - v.len() - a.len() - s.len()]));
        }
    }
    let kind_at = |k: int|
        if k < v.len() {
            MediaType::Video
        } else if k < v.len() + a.len() {
            MediaType::Audio
        } else if k < v.len() + a.len() + s.len() {
            MediaType::Subtitles
        } else {
            MediaType::Undefined
        };
    assert forall|k: int| 0 <= k < r.len() implies kinds[r[k] as int] == kind_at(k) by {
        if k < v.len() {
            assert(v.contains(v[k]));
        } else if k < v.len() + a.len() {
            assert(a.contains(a[k - v.len()]));
        } else if k < v.len() + a.len() + s.len() {
            assert(s.contains(s[k - v.len() - a.len()]));
        } else {
            assert(u.contains(u[k - v.len() - a.len() - s.len()]));
        }
    }
    assert forall|i: int, j: int| 0 <= i < j < r.len() implies r[i] != r[j] by {
        if kind_at(i) != kind_at(j) {
        } else if j < v.len() {
            assert(ranks_before(keys, v[i], v[j]));
        } else if j < v.len() + a.len() {
            assert(ranks_before(keys, a[i - v.len()], a[j - v.len()]));
        } else if j < v.len() + a.len() + s.len() {
            assert(s[i - v.len() - a.len()] < s[j - v.len() - a.len()]);
        } else {
            assert(u[i - v.len() - a.len() - s.len()] < u[j - v.len() - a.len() - s.len()]);
        }
    }
    // Every position is listed: the four groups have as many members as there are
    // positions.
    lemma_group_sizes(kinds, n);
}

/// The positions of the four media types together number `n`.
proof fn lemma_group_sizes(kinds: Seq<MediaType>, n: int)
    requires
        0 <= n <= kinds.len(),
    ensures
        positions(kinds, MediaType::Video, n).len() + positions(kinds, MediaType::Audio, n).len()
            + positions(kinds, MediaType::Subtitles, n).len() + positions(
            kinds,
            MediaType::Undefined,
            n,
        ).len() == n,
    decreases n,
{
    if n > 0 {
        lemma_group_sizes(kinds, n - 1);
    }
}

/// The items in the order of the positions `order`.
pub fn reorder<T>(items: Vec<T>, order: &Vec<usize>) -> (r: Vec<T>)
    requires
        order@.no_duplicates(),
        forall|k: int| 0 <= k < order@.len() ==> order@[k] < items@.len(),
    ensures
        r@ == order@.map_values(|i: usize| items@[i as int]),
{
    let ghost all = items@;
    let mut slots: Vec<Option<T>> = Vec::new();
    let mut rest = items;
    while rest.len() > 0
        invariant
            rest@.len() + slots@.len() == all.len(),
            rest@ == all.take(rest@.len() as int),
            forall|k: int|
                0 <= k < slots@.len() ==> #[trigger] slots@[k] == Some(
                    all[rest@.len() + k],
                ),
        decreases rest.len(),
    {
        let ghost n = rest@.len();
        match rest.pop() {
            Some(x) => {
                slots.insert(0, Some(x));
                proof {
                    assert(rest@ =~= all.take(rest@.len() as int));
                    assert(x == all[n - 1]);
                }
            },
            None => {},
        }
    }
    let mut out: Vec<T> = Vec::new();
    let mut j: usize = 0;
    while j < order.len()
        invariant
            slots@.len() == all.len(),
            j <= order@.len(),
            order@.no_duplicates(),
            forall|k: int| 0 <= k < order@.len() ==> order@[k] < all.len(),
            out@ == order@.take(j as int).map_values(|i: usize| all[i as int]),
            forall|m: usize|
                m < slots@.len() ==> (#[trigger] slots@[m as int] == if order@.take(
                    j as int,
                ).contains(m) {
                    None
                } else {
                    Some(all[m as int])
                }),
        decreases order.len() - j,
    {
        let i = order[j];
        let slot = slots.remove(i);
        slots.insert(i, None);
        proof {
            assert(!order@.take(j as int).contains(i)) by {
                if order@.take(j as int).contains(i) {
                    let m = choose|m: int| 0 <= m < j && order@.take(j as int)[m] == i;
                    assert(order@[m] == order@[j as int]);
                }
            }
            assert(slot == Some(all[i as int]));
            assert(order@.take(j + 1) =~= order@.take(j as int).push(i));
        }
        match slot {
            Some(x) => {
                out.push(x);
            },
            None => {},
        }
        proof {
            assert(out@ =~= order@.take(j + 1).map_values(|i: usize| all[i as int]));
            assert forall|m: usize| m < slots@.len() implies (#[trigger] slots@[m as int] == if order@.take(
                j + 1,
            ).contains(m) {
                None
            } else {
                Some(all[m as int])
            }) by {
                let before = order@.take(j as int);
                let after = order@.take(j + 1);
                if m == i {
                    assert(after[j as int] == i);
                } else {
                    if after.contains(m) {
                        let w = choose|w: int| 0 <= w < after.len() && after[w] == m;
                        assert(w < j);
                        assert(before[w] == m);
                    }
                    if before.contains(m) {
                        let w = choose|w: int| 0 <= w < before.len() && before[w] == m;
                        assert(after[w] == m);
                    }
                }
            }
        }
        j = j + 1;
    }
    proof {
        assert(order@.take(order@.len() as int) =~= order@);
    }
    out
}

} // verus!
