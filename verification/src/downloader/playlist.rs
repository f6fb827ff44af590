//! Settings of a playlist download given as text: the query string appended to requests
//! and the number of concurrent downloads.
use crate::format::parser::{chars_of, find, find_char};
use crate::format::selector::pieces;
use vstd::prelude::*;

verus! {

/// The number of leading `?` characters.
pub open spec fn lead_marks(t: Seq<char>) -> nat
    decreases t.len(),
{
    if t.len() > 0 && t[0] == '?' {
        1 + lead_marks(t.drop_first())
    } else {
        0
    }
}

/// The `key=value` pairs among `ps`, split at each piece's first `=`; pieces without `=`
/// are passed over.
pub open spec fn query_pairs(ps: Seq<Seq<char>>) -> Seq<(Seq<char>, Seq<char>)>
    decreases ps.len(),
{
    if ps.len() == 0 {
        seq![]
    } else {
        let p = ps.last();
        match find(p, '=') {
            Some(i) => query_pairs(ps.drop_last()).push((p.take(i), p.skip(i + 1))),
            None => query_pairs(ps.drop_last()),
        }
    }
}

/// The parameters of a query string: leading `?`s dropped, `&`-separated `key=value`
/// pairs, nothing for an empty string.
pub open spec fn query_spec(q: Seq<char>) -> Seq<(Seq<char>, Seq<char>)> {
    if q.len() == 0 {
        seq![]
    } else {
        query_pairs(pieces(q.skip(lead_marks(q) as int), '&'))
    }
}

/// The pairs as plain text.
pub open spec fn query_view(v: Seq<(String, String)>) -> Seq<(Seq<char>, Seq<char>)> {
    v.map_values(|p: (String, String)| (p.0@, p.1@))
}

/// Adds the pair of the piece `s[lo..hi]` (its characters are `c`), if it has a `=`.
fn add_pair(s: &str, c: &Vec<char>, lo: usize, hi: usize, out: &mut Vec<(String, String)>)
    requires
        c@ == s@,
        lo <= hi <= c@.len(),
    ensures
        ({
            let p = c@.subrange(lo as int, hi as int);
            query_view(final(out)@) == match find(p, '=') {
                Some(i) => query_view(old(out)@).push((p.take(i), p.skip(i + 1))),
                None => query_view(old(out)@),
            }
        }),
{
    let ghost p = c@.subrange(lo as int, hi as int);
    match find_char(c, lo, hi, '=') {
        Some(a) => {
            let key = s.substring_char(lo, a).to_owned();
            let value = s.substring_char(a + 1, hi).to_owned();
            let ghost before = out@;
            out.push((key, value));
            proof {
                assert(key@ =~= p.take(a - lo));
                assert(value@ =~= p.skip(a - lo + 1));
                assert(query_view(out@) =~= query_view(before).push((key@, value@)));
            }
        },
        None => {},
    }
}

/// The parameters of a query string such as `?a=1&b=2`, in order: leading `?`s are
/// dropped, pairs are separated by `&` and split at their first `=`, and pieces without
/// `=` are passed over. Keys and values are taken as written.
pub fn parse_query(query: &str) -> (r: Vec<(String, String)>)
    ensures
        query_view(r@) == query_spec(query@),
{
    let c = chars_of(query);
    let mut out: Vec<(String, String)> = Vec::new();
    if c.len() == 0 {
        proof {
            assert(query_view(out@) =~= seq![]);
        }
        return out;
    }
    let mut lo: usize = 0;
    proof {
        assert(c@.skip(0) =~= c@);
    }
    while lo < c.len() && c[lo] == '?'
        invariant
            lo <= c@.len(),
            lead_marks(c@) == lo + lead_marks(c@.skip(lo as int)),
        decreases c.len() - lo,
    {
        proof {
            assert(c@.skip(lo as int).drop_first() =~= c@.skip(lo + 1));
        }
        lo = lo + 1;
    }
    proof {
        let u = c@.skip(lo as int);
        if lo < c@.len() {
            assert(u[0] == c@[lo as int]);
        }
        assert(lead_marks(u) == 0);
    }
    let ghost t = c@.skip(lo as int);
    let mut start = lo;
    let mut i = lo;
    proof {
        assert(t.take(0) =~= seq![]);
        assert(pieces(t.take(0), '&') =~= seq![seq![]]);
        assert(query_view(out@) =~= seq![]);
        assert(pieces(t.take(0), '&').drop_last() =~= seq![]);
    }
    while i < c.len()
        invariant
            lo <= start <= i <= c@.len(),
            c@ == query@,
            t == c@.skip(lo as int),
            pieces(t.take(i - lo), '&').last() == c@.subrange(start as int, i as int),
            pieces(t.take(i - lo), '&').len() >= 1,
            query_view(out@) == query_pairs(pieces(t.take(i - lo), '&').drop_last()),
        decreases c.len() - i,
    {
        let ghost p = t.take(i - lo);
        let ghost q = t.take(i - lo + 1);
        let ghost ps = pieces(p, '&');
        proof {
            assert(q.drop_last() =~= p);
            assert(q.last() == c@[i as int]);
        }
        if c[i] == '&' {
            proof {
                assert(pieces(q, '&') == ps.push(seq![]));
                assert(pieces(q, '&').drop_last() =~= ps);
                assert(ps =~= ps.drop_last().push(ps.last()));
            }
            add_pair(query, &c, start, i, &mut out);
            start = i + 1;
            proof {
                assert(c@.subrange(start as int, i + 1) =~= seq![]);
            }
        } else {
            proof {
                assert(pieces(q, '&') == ps.update(ps.len() - 1, ps.last().push(c@[i as int])));
                assert(pieces(q, '&').drop_last() =~= ps.drop_last());
                assert(c@.subrange(start as int, i + 1) =~= c@.subrange(start as int, i as int).push(
                    c@[i as int],
                ));
            }
        }
        i = i + 1;
    }
    proof {
        assert(t.take(i - lo) =~= t);
        let ps = pieces(t, '&');
        assert(ps =~= ps.drop_last().push(ps.last()));
    }
    add_pair(query, &c, start, i, &mut out);
    out
}

/// The number of concurrent downloads, held between 1 and 16.
pub fn clamp_threads(threads: u8) -> (r: u8)
    ensures
        r == if threads < 1 {
            1
        } else if threads > 16 {
            16
        } else {
            threads
        },
{
    if threads < 1 {
        1
    } else if threads > 16 {
        16
    } else {
        threads
    }
}

} // verus!
