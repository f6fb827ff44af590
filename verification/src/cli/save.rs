//! Values given on the command line of the `save` command: decryption keys and
//! request headers.
use crate::error::Error;
use crate::format::parser::{chars_of, find, find_char, message, trim, trim_range};
use crate::format::selector::pieces;
use crate::mp4::hex::hex_char;
use crate::playlist::types::MediaType;
use crate::progress::{decimal_text, decimal_u64};
use vstd::prelude::*;
use vstd::string::StringSliceAdditionalSpecFns;
use vstd::utf8::{decode_utf8, encode_utf8, encode_utf8_decode_utf8, is_char_boundary};

verus! {

/// A character in lower case where it is an ASCII capital letter.
pub open spec fn ascii_lower(c: char) -> char {
    if 'A' <= c <= 'Z' {
        ((c as u32) + 32) as char
    } else {
        c
    }
}

/// A key or key ID as given, in ASCII lower case and with its dashes removed.
pub open spec fn normalize_key(t: Seq<char>) -> Seq<char>
    decreases t.len(),
{
    if t.len() == 0 {
        seq![]
    } else if t.last() == '-' {
        normalize_key(t.drop_last())
    } else {
        normalize_key(t.drop_last()).push(ascii_lower(t.last()))
    }
}

/// A lower-case hexadecimal digit.
pub open spec fn is_lower_hex(c: char) -> bool {
    ('0' <= c <= '9') || ('a' <= c <= 'f')
}

/// Whether a normalized key or key ID is 32 hexadecimal digits.
pub open spec fn valid_key(t: Seq<char>) -> bool {
    t.len() == 32 && forall|i: int| 0 <= i < t.len() ==> #[trigger] is_lower_hex(t[i])
}

/// The pairs that the pieces `ps` of a key list give, in order; `None` where a piece with
/// a `:` does not give a valid pair. Pieces without `:` are passed over.
pub open spec fn keys_from(ps: Seq<Seq<char>>) -> Option<Seq<(Seq<char>, Seq<char>)>>
    decreases ps.len(),
{
    if ps.len() == 0 {
        Some(seq![])
    } else {
        match keys_from(ps.drop_last()) {
            None => None,
            Some(r) => {
                let p = ps.last();
                match find(p, ':') {
                    None => Some(r),
                    Some(i) => {
                        let kid = normalize_key(p.take(i));
                        let key = normalize_key(p.skip(i + 1));
                        if valid_key(kid) && valid_key(key) {
                            Some(r.push((kid, key)))
                        } else {
                            None
                        }
                    },
                }
            },
        }
    }
}

/// The `KID:KEY` pairs of a `;`-separated key list.
pub open spec fn keys_spec(s: Seq<char>) -> Option<Seq<(Seq<char>, Seq<char>)>> {
    keys_from(pieces(s, ';'))
}

/// The pairs as plain text.
pub open spec fn pairs_view(v: Seq<(String, String)>) -> Seq<(Seq<char>, Seq<char>)> {
    v.map_values(|p: (String, String)| (p.0@, p.1@))
}

proof fn lemma_normalize_prefix(t: Seq<char>, a: int)
    requires
        0 <= a <= t.len(),
    ensures
        normalize_key(t.take(a)).len() <= normalize_key(t).len(),
        forall|i: int|
            0 <= i < normalize_key(t.take(a)).len() ==> #[trigger] normalize_key(t.take(a))[i]
                == normalize_key(t)[i],
    decreases t.len() - a,
{
    if a == t.len() {
        assert(t.take(a) =~= t);
    } else {
        lemma_normalize_prefix(t, a + 1);
        let u = t.take(a + 1);
        assert(u.drop_last() =~= t.take(a));
        let n0 = normalize_key(t.take(a));
        let n1 = normalize_key(u);
        if u.last() == '-' {
            assert(n1 == n0);
        } else {
            assert(n1 == n0.push(ascii_lower(u.last())));
        }
        assert forall|i: int| 0 <= i < n0.len() implies #[trigger] n0[i] == normalize_key(t)[i] by {
            assert(n0[i] == n1[i]);
        }
    }
}

/// The one-character text of a hexadecimal digit's value, in lower case.
fn hex_digit_text(v: usize) -> (r: &'static str)
    requires
        v < 16,
    ensures
        r@ == seq![hex_char(v as int)],
{
    let digits = "0123456789abcdef";
    proof {
        reveal_strlit("0123456789abcdef");
    }
    let r = digits.substring_char(v, v + 1);
    proof {
        assert(digits@[v as int] == hex_char(v as int));
        assert(r@ =~= seq![hex_char(v as int)]);
    }
    r
}

/// The value of the hexadecimal digit that `c` is once lowered, if it is one.
fn lowered_hex_value(c: char) -> (r: Option<usize>)
    ensures
        match r {
            Some(v) => v < 16 && is_lower_hex(ascii_lower(c)) && ascii_lower(c) == hex_char(
                v as int,
            ),
            None => !is_lower_hex(ascii_lower(c)),
        },
{
    if '0' <= c && c <= '9' {
        Some((c as u32 - '0' as u32) as usize)
    } else if 'a' <= c && c <= 'f' {
        Some((c as u32 - 'a' as u32 + 10) as usize)
    } else if 'A' <= c && c <= 'F' {
        Some((c as u32 - 'A' as u32 + 10) as usize)
    } else {
        None
    }
}

/// `c[lo..hi]` normalized, where that is a valid key.
fn key_text(c: &Vec<char>, lo: usize, hi: usize) -> (r: Option<String>)
    requires
        lo <= hi <= c@.len(),
    ensures
        match r {
            Some(s) => valid_key(normalize_key(c@.subrange(lo as int, hi as int))) && s@
                == normalize_key(c@.subrange(lo as int, hi as int)),
            None => !valid_key(normalize_key(c@.subrange(lo as int, hi as int))),
        },
{
    let ghost t = c@.subrange(lo as int, hi as int);
    let mut out = String::new();
    let mut count: usize = 0;
    let mut k = lo;
    while k < hi
        invariant
            lo <= k <= hi <= c@.len(),
            t == c@.subrange(lo as int, hi as int),
            out@ == normalize_key(t.take(k - lo)),
            count == out@.len(),
            count <= 32,
            forall|i: int| 0 <= i < out@.len() ==> #[trigger] is_lower_hex(out@[i]),
        decreases hi - k,
    {
        let ch = c[k];
        let ghost j = (k - lo) as int;
        proof {
            assert(t.take(j + 1).drop_last() =~= t.take(j));
            assert(t.take(j + 1).last() == ch);
        }
        if ch != '-' {
            proof {
                lemma_normalize_prefix(t, j + 1);
            }
            let v = match lowered_hex_value(ch) {
                Some(v) => v,
                None => {
                    proof {
                        assert(normalize_key(t.take(j + 1))[count as int] == ascii_lower(ch));
                        assert(normalize_key(t)[count as int] == ascii_lower(ch));
                    }
                    return None;
                },
            };
            if count == 32 {
                return None;
            }
            out.append(hex_digit_text(v));
            count = count + 1;
        }
        k = k + 1;
    }
    proof {
        assert(t.take(hi - lo) =~= t);
    }
    if count != 32 {
        return None;
    }
    Some(out)
}

/// Adds the pair of the piece `c[lo..hi]` that follows the pieces `done`.
fn add_piece(
    c: &Vec<char>,
    lo: usize,
    hi: usize,
    out: &mut Vec<(String, String)>,
    failed: &mut bool,
    Ghost(done): Ghost<Seq<Seq<char>>>,
)
    requires
        lo <= hi <= c@.len(),
        *old(failed) ==> keys_from(done) is None,
        !*old(failed) ==> keys_from(done) == Some(pairs_view(old(out)@)),
    ensures
        ({
            let all = done.push(c@.subrange(lo as int, hi as int));
            &&& *final(failed) ==> keys_from(all) is None
            &&& !*final(failed) ==> keys_from(all) == Some(pairs_view(final(out)@))
        }),
{
    let ghost piece = c@.subrange(lo as int, hi as int);
    let ghost all = done.push(piece);
    proof {
        assert(all.drop_last() =~= done);
        assert(all.last() == piece);
    }
    if *failed {
        return ;
    }
    match find_char(c, lo, hi, ':') {
        None => {},
        Some(a) => {
            proof {
                assert(c@.subrange(lo as int, a as int) =~= piece.take(a - lo));
                assert(c@.subrange(a + 1, hi as int) =~= piece.skip(a - lo + 1));
            }
            match (key_text(c, lo, a), key_text(c, a + 1, hi)) {
                (Some(kid), Some(key)) => {
                    let ghost before = out@;
                    out.push((kid, key));
                    proof {
                        assert(pairs_view(out@) =~= pairs_view(before).push((kid@, key@)));
                    }
                },
                _ => {
                    *failed = true;
                },
            }
        },
    }
}

/// Reads a `;`-separated list of `KID:KEY` pairs, each 32 hexadecimal digits once
/// lowered and stripped of dashes, into normalized pairs in the order given (where a
/// KID repeats, the later key is the one that counts). Pieces without `:` are passed
/// over; a piece with `:` that does not give a valid pair fails the whole list.
pub fn parse_keys(s: &str) -> (r: Result<Vec<(String, String)>, Error>)
    ensures
        match keys_spec(s@) {
            Some(ks) => r matches Ok(v) && pairs_view(v@) == ks,
            None => r matches Err(Error::Other(m)) && m@ == "Expected 'KID:KEY;…' but found '"@
                + s@ + "'."@,
        },
{
    let c = chars_of(s);
    let ghost t = c@;
    let mut out: Vec<(String, String)> = Vec::new();
    let mut failed = false;
    let mut start: usize = 0;
    let mut i: usize = 0;
    proof {
        assert(t.take(0) =~= seq![]);
        assert(pieces(t.take(0), ';') =~= seq![seq![]]);
        assert(pieces(t.take(0), ';').drop_last() =~= seq![]);
        assert(pairs_view(out@) =~= seq![]);
    }
    while i < c.len()
        invariant
            start <= i <= c@.len(),
            t == c@,
            pieces(t.take(i as int), ';').last() == t.subrange(start as int, i as int),
            pieces(t.take(i as int), ';').len() >= 1,
            failed ==> keys_from(pieces(t.take(i as int), ';').drop_last()) is None,
            !failed ==> keys_from(pieces(t.take(i as int), ';').drop_last()) == Some(
                pairs_view(out@),
            ),
        decreases c@.len() - i,
    {
        let ghost p = t.take(i as int);
        let ghost q = t.take(i + 1);
        let ghost ps = pieces(p, ';');
        proof {
            assert(q.drop_last() =~= p);
            assert(q.last() == c@[i as int]);
        }
        if c[i] == ';' {
            proof {
                assert(pieces(q, ';') == ps.push(seq![]));
                assert(pieces(q, ';').drop_last() =~= ps);
                assert(ps =~= ps.drop_last().push(ps.last()));
            }
            add_piece(&c, start, i, &mut out, &mut failed, Ghost(ps.drop_last()));
            start = i + 1;
            proof {
                assert(t.subrange(start as int, i + 1) =~= seq![]);
            }
        } else {
            proof {
                assert(pieces(q, ';') == ps.update(ps.len() - 1, ps.last().push(c@[i as int])));
                assert(pieces(q, ';').drop_last() =~= ps.drop_last());
                assert(t.subrange(start as int, i + 1) =~= t.subrange(start as int, i as int).push(
                    c@[i as int],
                ));
            }
        }
        i = i + 1;
    }
    proof {
        assert(t.take(i as int) =~= t);
        let ps = pieces(t, ';');
        assert(ps =~= ps.drop_last().push(ps.last()));
    }
    add_piece(&c, start, i, &mut out, &mut failed, Ghost(pieces(t, ';').drop_last()));
    if failed {
        Err(Error::Other(message("Expected 'KID:KEY;…' but found '", s, "'.")))
    } else {
        Ok(out)
    }
}

/// The name and value of a `KEY:VALUE` header, each trimmed: the text before the first
/// `:` and the text after it.
pub open spec fn header_spec(s: Seq<char>) -> Option<(Seq<char>, Seq<char>)> {
    match find(s, ':') {
        Some(i) => Some((trim(s.take(i)), trim(s.skip(i + 1)))),
        None => None,
    }
}

/// Splits a `KEY:VALUE` header at its first `:` and trims both parts; fails where there
/// is no `:`.
pub fn split_header(s: &str) -> (r: Result<(String, String), Error>)
    ensures
        match header_spec(s@) {
            Some((k, v)) => r matches Ok(p) && p.0@ == k && p.1@ == v,
            None => r matches Err(Error::Other(m)) && m@ == "Expected 'KEY:VALUE' but found '"@
                + s@ + "'."@,
        },
{
    let c = chars_of(s);
    proof {
        assert(c@.subrange(0, c@.len() as int) =~= c@);
    }
    match find_char(&c, 0, c.len(), ':') {
        Some(a) => {
            let (k0, k1) = trim_range(&c, 0, a);
            let (v0, v1) = trim_range(&c, a + 1, c.len());
            proof {
                assert(c@.subrange(0, a as int) =~= c@.take(a as int));
                assert(c@.subrange(a + 1, c@.len() as int) =~= c@.skip(a + 1));
            }
            let k = s.substring_char(k0, k1).to_owned();
            let v = s.substring_char(v0, v1).to_owned();
            Ok((k, v))
        },
        None => Err(Error::Other(message("Expected 'KEY:VALUE' but found '", s, "'."))),
    }
}

/// `t` cut for a table column: where its UTF-8 form is longer than `max` bytes, its first
/// `keep` bytes followed by `…`.
pub open spec fn shortened(t: Seq<char>, max: nat, keep: nat) -> Seq<char> {
    let b = encode_utf8(t);
    if b.len() > max {
        decode_utf8(b.subrange(0, keep as int)) + "…"@
    } else {
        t
    }
}

/// Whether `t` can be cut as `shortened` cuts it: the cut falls between characters
/// (a cut inside a character would panic).
pub open spec fn cuttable(t: Seq<char>, max: nat, keep: nat) -> bool {
    encode_utf8(t).len() > max ==> is_char_boundary(encode_utf8(t), keep as int)
}

/// The optional text, cut as `shortened` cuts it; empty where there is none.
pub open spec fn shortened_opt(t: Option<String>, max: nat, keep: nat) -> Seq<char> {
    match t {
        Some(x) => shortened(x@, max, keep),
        None => Seq::empty(),
    }
}

/// Whether an optional text can be cut.
pub open spec fn cuttable_opt(t: Option<String>, max: nat, keep: nat) -> bool {
    match t {
        Some(x) => cuttable(x@, max, keep),
        None => true,
    }
}

/// The columns of a stream's line in the list of formats, but for its type, frame rate
/// and channels: its number (from 1); its resolution `WxH` for video, its language
/// (cut to 8 bytes past 9) otherwise; its bitrate in whole kbps with `k`, where that is
/// not 0; its codecs (cut to 11 bytes past 12). Missing values give empty columns.
pub open spec fn format_row_spec(
    index: nat,
    media_type: MediaType,
    resolution: Option<(u64, u64)>,
    language: Option<String>,
    bandwidth: Option<u64>,
    codecs: Option<String>,
) -> Seq<Seq<char>> {
    seq![
        decimal_text(index + 1),
        if media_type == MediaType::Video {
            match resolution {
                Some((w, h)) => decimal_text(w as nat) + "x"@ + decimal_text(h as nat),
                None => Seq::empty(),
            }
        } else {
            shortened_opt(language, 9, 8)
        },
        match bandwidth {
            Some(b) => if b / 1000 > 0 {
                decimal_text((b / 1000) as nat) + "k"@
            } else {
                Seq::empty()
            },
            None => Seq::empty(),
        },
        shortened_opt(codecs, 12, 11),
    ]
}

/// Cuts text for a table column.
fn shorten(s: &str, max: usize, keep: usize) -> (r: String)
    requires
        keep <= max,
        cuttable(s@, max as nat, keep as nat),
    ensures
        r@ == shortened(s@, max as nat, keep as nat),
{
    if s.as_bytes().len() > max {
        let (a, _) = s.split_at(keep);
        proof {
            encode_utf8_decode_utf8(a@);
            reveal_strlit("…");
        }
        let mut r = a.to_owned();
        r.append("…");
        r
    } else {
        s.to_owned()
    }
}

/// Cuts optional text for a table column; empty where there is none.
fn shorten_opt(t: &Option<String>, max: usize, keep: usize) -> (r: String)
    requires
        keep <= max,
        cuttable_opt(*t, max as nat, keep as nat),
    ensures
        r@ == shortened_opt(*t, max as nat, keep as nat),
{
    match t {
        Some(x) => shorten(x.as_str(), max, keep),
        None => String::new(),
    }
}

/// The columns of a stream's line in the list of formats (see `format_row_spec`); its
/// type, frame rate and channel count are written by the caller.
pub fn format_row(
    index: usize,
    media_type: MediaType,
    resolution: Option<(u64, u64)>,
    language: &Option<String>,
    bandwidth: Option<u64>,
    codecs: &Option<String>,
) -> (r: Vec<String>)
    requires
        index < usize::MAX,
        media_type != MediaType::Video ==> cuttable_opt(*language, 9, 8),
        cuttable_opt(*codecs, 12, 11),
    ensures
        r@.map_values(|x: String| x@) == format_row_spec(
            index as nat,
            media_type,
            resolution,
            *language,
            bandwidth,
            *codecs,
        ),
{
    let id = decimal_u64((index + 1) as u64);
    let res_lang = if media_type == MediaType::Video {
        match resolution {
            Some((w, h)) => {
                let mut t = decimal_u64(w);
                proof {
                    reveal_strlit("x");
                }
                t.append("x");
                let hd = decimal_u64(h);
                t.append(hd.as_str());
                t
            },
            None => String::new(),
        }
    } else {
        shorten_opt(language, 9, 8)
    };
    let br = match bandwidth {
        Some(b) => if b / 1000 > 0 {
            let mut t = decimal_u64(b / 1000);
            proof {
                reveal_strlit("k");
            }
            t.append("k");
            t
        } else {
            String::new()
        },
        None => String::new(),
    };
    let codec = shorten_opt(codecs, 12, 11);
    let mut r: Vec<String> = Vec::new();
    r.push(id);
    r.push(res_lang);
    r.push(br);
    r.push(codec);
    proof {
        assert(r@.map_values(|x: String| x@) =~= format_row_spec(
            index as nat,
            media_type,
            resolution,
            *language,
            bandwidth,
            *codecs,
        ));
    }
    r
}

} // verus!
