//! Filters that compare text: resolutions, languages and codecs.
//!
//! Both sides are trimmed and compared in lower case. `=` and `!=` take a
//! comma-separated list, and a listed value also names the values that extend it
//! after a `-`, so that `language=en` matches `en-US`.
use crate::format::parser::{chars_of, occurs_at, trim, trim_range, Field, FilterOp};
use crate::format::selector::pieces;
use crate::downloader::sub::lower_ascii_text;
use crate::progress::decimal_text;
use vstd::prelude::*;

verus! {

/// The lower-case form of `t`, as `str::to_lowercase` gives it.
pub uninterp spec fn lowercase(t: Seq<char>) -> Seq<char>;

/// Lower-cases text with `str::to_lowercase`.
///
/// Claims that the result depends on the characters alone and, as std documents for
/// ASCII, that text of ASCII characters only has its capitals lowered and nothing else
/// changed; Unicode's mapping of other characters is left unstated.
#[verifier::external_body]
fn to_lower(c: &[char]) -> (r: Vec<char>)
    ensures
        r@ == lowercase(c@),
        (forall|i: int| 0 <= i < c@.len() ==> (#[trigger] c@[i] as u32) < 128) ==> r@
            == lower_ascii_text(c@),
{
    let s: String = c.iter().collect();
    s.to_lowercase().chars().collect()
}

/// `a` is `v`, or `v` followed by `-` and more.
pub open spec fn names(a: Seq<char>, v: Seq<char>) -> bool {
    a == v || v.push('-').is_prefix_of(a)
}

/// Some piece of `ps`, trimmed and lower-cased, is named by `a`.
pub open spec fn any_piece(a: Seq<char>, ps: Seq<Seq<char>>) -> bool
    decreases ps.len(),
{
    if ps.len() == 0 {
        false
    } else {
        any_piece(a, ps.drop_last()) || names(a, lowercase(trim(ps.last())))
    }
}

/// `p` occurs somewhere in `a`.
pub open spec fn has_infix(a: Seq<char>, p: Seq<char>) -> bool {
    exists|i: int| #[trigger] occurs_at(a, p, i)
}

/// Whether the text `actual` passes a filter with operator `op` and value `value`.
/// The ordering operators do not apply to text and never pass.
pub open spec fn text_matches(actual: Seq<char>, op: FilterOp, value: Seq<char>) -> bool {
    let a = lowercase(trim(actual));
    let v = lowercase(trim(value));
    match op {
        FilterOp::Eq => any_piece(a, pieces(value, ',')),
        FilterOp::Ne => !any_piece(a, pieces(value, ',')),
        FilterOp::Contains => has_infix(a, v),
        FilterOp::StartsWith => v.is_prefix_of(a),
        FilterOp::EndsWith => v.is_suffix_of(a),
        _ => false,
    }
}

/// A text filter with `!=` passes exactly where the same filter with `=` fails.
pub proof fn not_equal_is_negation(actual: Seq<char>, value: Seq<char>)
    ensures
        text_matches(actual, FilterOp::Ne, value) == !text_matches(actual, FilterOp::Eq, value),
{
}

/// The view of an optional string.
pub open spec fn opt_text(o: Option<String>) -> Option<Seq<char>> {
    match o {
        Some(s) => Some(s@),
        None => None,
    }
}

/// The text that a filter on `field` compares: the resolution written `WxH`, the
/// language, or the codecs, each empty when the stream has none; `None` for the fields
/// that are compared as numbers.
pub open spec fn field_text(
    field: Field,
    resolution: Option<(u64, u64)>,
    language: Option<Seq<char>>,
    codecs: Option<Seq<char>>,
) -> Option<Seq<char>> {
    match field {
        Field::Resolution => Some(
            match resolution {
                Some((w, h)) => decimal_text(w as nat) + seq!['x'] + decimal_text(h as nat),
                None => Seq::empty(),
            },
        ),
        Field::Language => Some(
            match language {
                Some(l) => l,
                None => Seq::empty(),
            },
        ),
        Field::Acodec | Field::Vcodec => Some(
            match codecs {
                Some(c) => c,
                None => Seq::empty(),
            },
        ),
        _ => None,
    }
}

/// A copy of `c[lo..hi]`.
fn sub_chars(c: &Vec<char>, lo: usize, hi: usize) -> (r: Vec<char>)
    requires
        lo <= hi <= c@.len(),
    ensures
        r@ == c@.subrange(lo as int, hi as int),
{
    let mut r: Vec<char> = Vec::new();
    let mut i = lo;
    while i < hi
        invariant
            lo <= i <= hi <= c@.len(),
            r@ == c@.subrange(lo as int, i as int),
        decreases hi - i,
    {
        r.push(c[i]);
        proof {
            assert(c@.subrange(lo as int, i + 1) =~= c@.subrange(lo as int, i as int).push(
                c@[i as int],
            ));
        }
        i = i + 1;
    }
    r
}

/// `c[lo..hi]`, trimmed and lower-cased.
fn lower_trimmed(c: &Vec<char>, lo: usize, hi: usize) -> (r: Vec<char>)
    requires
        lo <= hi <= c@.len(),
    ensures
        r@ == lowercase(trim(c@.subrange(lo as int, hi as int))),
{
    let (a, b) = trim_range(c, lo, hi);
    let s = sub_chars(c, a, b);
    to_lower(s.as_slice())
}

/// Whether `p` occurs in `a` at `i`.
fn occurs_exec(a: &Vec<char>, p: &Vec<char>, i: usize) -> (r: bool)
    ensures
        r == occurs_at(a@, p@, i as int),
{
    if p.len() > a.len() || i > a.len() - p.len() {
        return false;
    }
    let mut k: usize = 0;
    while k < p.len()
        invariant
            i + p.len() <= a.len(),
            k <= p@.len(),
            forall|j: int| 0 <= j < k ==> a@[i + j] == p@[j],
        decreases p.len() - k,
    {
        if a[i + k] != p[k] {
            proof {
                assert(a@.subrange(i as int, i + p@.len())[k as int] != p@[k as int]);
            }
            return false;
        }
        k = k + 1;
    }
    proof {
        assert(a@.subrange(i as int, i + p@.len()) =~= p@);
    }
    true
}

/// Whether `p` is a prefix of `a`.
fn prefix_exec(p: &Vec<char>, a: &Vec<char>) -> (r: bool)
    ensures
        r == p@.is_prefix_of(a@),
{
    let r = occurs_exec(a, p, 0);
    proof {
        if r {
            assert(p@ =~= a@.subrange(0, p@.len() as int));
        }
        if p@.is_prefix_of(a@) {
            assert(a@.subrange(0, p@.len() as int) =~= p@);
        }
    }
    r
}

/// Whether `p` is a suffix of `a`.
fn suffix_exec(p: &Vec<char>, a: &Vec<char>) -> (r: bool)
    ensures
        r == p@.is_suffix_of(a@),
{
    if p.len() > a.len() {
        return false;
    }
    let r = occurs_exec(a, p, a.len() - p.len());
    proof {
        let s = a@.len() - p@.len();
        if r {
            assert(p@ =~= a@.subrange(s, a@.len() as int));
        }
        if p@.is_suffix_of(a@) {
            assert(a@.subrange(s, s + p@.len()) =~= p@);
        }
    }
    r
}

/// Whether `p` occurs somewhere in `a`.
fn infix_exec(a: &Vec<char>, p: &Vec<char>) -> (r: bool)
    ensures
        r == has_infix(a@, p@),
{
    if p.len() > a.len() {
        return false;
    }
    let last = a.len() - p.len();
    let mut i: usize = 0;
    while i < last
        invariant
            i <= last,
            last + p@.len() == a@.len(),
            forall|j: int| 0 <= j < i ==> !occurs_at(a@, p@, j),
        decreases last - i,
    {
        if occurs_exec(a, p, i) {
            return true;
        }
        i = i + 1;
    }
    occurs_exec(a, p, last)
}

/// Whether `a` is `v` or starts with `v` and a `-`.
fn names_exec(a: &Vec<char>, v: &Vec<char>) -> (r: bool)
    ensures
        r == names(a@, v@),
{
    let mut w = sub_chars(v, 0, v.len());
    proof {
        assert(v@.subrange(0, v@.len() as int) =~= v@);
    }
    w.push('-');
    if a.len() == v.len() && occurs_exec(a, v, 0) {
        proof {
            assert(a@ =~= v@);
        }
        return true;
    }
    proof {
        if a@ == v@ {
            assert(a@.subrange(0, v@.len() as int) =~= v@);
        }
    }
    prefix_exec(&w, a)
}

/// Whether some comma-separated piece of `v`, trimmed and lower-cased, is named by `a`.
fn any_piece_exec(a: &Vec<char>, v: &Vec<char>) -> (r: bool)
    ensures
        r == any_piece(a@, pieces(v@, ',')),
{
    let n = v.len();
    let mut found = false;
    let mut start: usize = 0;
    let mut i: usize = 0;
    while i < n
        invariant
            start <= i <= n == v@.len(),
            pieces(v@.take(i as int), ',').len() >= 1,
            pieces(v@.take(i as int), ',').last() == v@.subrange(start as int, i as int),
            found == any_piece(a@, pieces(v@.take(i as int), ',').drop_last()),
        decreases n - i,
    {
        let ghost p = v@.take(i as int);
        let ghost q = v@.take(i + 1);
        proof {
            assert(q.drop_last() =~= p);
            assert(q.last() == v@[i as int]);
        }
        if v[i] == ',' {
            let w = lower_trimmed(v, start, i);
            let m = names_exec(a, &w);
            proof {
                let ps = pieces(p, ',');
                assert(pieces(q, ',') == ps.push(seq![]));
                assert(pieces(q, ',').drop_last() =~= ps);
                assert(ps.drop_last() =~= ps.take(ps.len() - 1));
            }
            found = found || m;
            start = i + 1;
            proof {
                assert(v@.subrange(start as int, i + 1) =~= seq![]);
            }
        } else {
            proof {
                let ps = pieces(p, ',');
                assert(pieces(q, ',') == ps.update(ps.len() - 1, ps.last().push(v@[i as int])));
                assert(pieces(q, ',').drop_last() =~= ps.drop_last());
                assert(v@.subrange(start as int, i + 1) =~= v@.subrange(start as int, i as int).push(
                    v@[i as int],
                ));
            }
        }
        i = i + 1;
    }
    let w = lower_trimmed(v, start, n);
    let m = names_exec(a, &w);
    proof {
        assert(v@.take(n as int) =~= v@);
    }
    found || m
}

/// Whether the text in `actual` passes a filter with operator `op` and value `value`.
fn matches_chars(actual: &Vec<char>, op: &FilterOp, value: &Vec<char>) -> (r: bool)
    ensures
        r == text_matches(actual@, *op, value@),
{
    let a = lower_trimmed(actual, 0, actual.len());
    proof {
        assert(actual@.subrange(0, actual@.len() as int) =~= actual@);
        assert(value@.subrange(0, value@.len() as int) =~= value@);
    }
    match op {
        FilterOp::Eq => any_piece_exec(&a, value),
        FilterOp::Ne => !any_piece_exec(&a, value),
        FilterOp::Contains => {
            let v = lower_trimmed(value, 0, value.len());
            infix_exec(&a, &v)
        },
        FilterOp::StartsWith => {
            let v = lower_trimmed(value, 0, value.len());
            prefix_exec(&v, &a)
        },
        FilterOp::EndsWith => {
            let v = lower_trimmed(value, 0, value.len());
            suffix_exec(&v, &a)
        },
        _ => false,
    }
}

/// Whether the text `actual` passes a filter with operator `op` and value `value`.
pub fn matches_text(actual: &str, op: &FilterOp, value: &str) -> (r: bool)
    ensures
        r == text_matches(actual@, *op, value@),
{
    let a = chars_of(actual);
    let v = chars_of(value);
    matches_chars(&a, op, &v)
}

/// The decimal digit `d`.
fn digit(d: u64) -> (c: char)
    requires
        d < 10,
    ensures
        c == (0x30 + d) as char,
{
    match d {
        0 => '0',
        1 => '1',
        2 => '2',
        3 => '3',
        4 => '4',
        5 => '5',
        6 => '6',
        7 => '7',
        8 => '8',
        _ => '9',
    }
}

/// The decimal digits of `n`.
fn digits(n: u64) -> (r: Vec<char>)
    ensures
        r@ == decimal_text(n as nat),
    decreases n,
{
    if n < 10 {
        let mut r: Vec<char> = Vec::new();
        r.push(digit(n));
        proof {
            assert(r@ =~= seq![(0x30 + n) as char]);
        }
        r
    } else {
        let mut r = digits(n / 10);
        r.push(digit(n % 10));
        proof {
            assert(r@ =~= decimal_text((n / 10) as nat) + seq![(0x30 + n % 10) as char]);
        }
        r
    }
}

/// Copies the characters of `s` onto the end of `out`.
fn append_chars(out: &mut Vec<char>, s: &Vec<char>)
    ensures
        final(out)@ == old(out)@ + s@,
{
    let mut i: usize = 0;
    while i < s.len()
        invariant
            i <= s@.len(),
            out@ == old(out)@ + s@.take(i as int),
        decreases s.len() - i,
    {
        out.push(s[i]);
        proof {
            assert(s@.take(i + 1) =~= s@.take(i as int).push(s@[i as int]));
        }
        i = i + 1;
    }
    proof {
        assert(s@.take(s@.len() as int) =~= s@);
    }
}

/// The characters of an optional string, empty when there is none.
fn text_or_empty(o: &Option<String>) -> (r: Vec<char>)
    ensures
        r@ == match opt_text(*o) {
            Some(t) => t,
            None => Seq::<char>::empty(),
        },
{
    match o {
        Some(s) => chars_of(s.as_str()),
        None => Vec::new(),
    }
}

/// Whether a stream passes a filter on one of its text fields: the resolution (`WxH`),
/// the language or the codecs. `None` for the fields that are compared as numbers.
pub fn matches_text_field(
    field: &Field,
    resolution: Option<(u64, u64)>,
    language: &Option<String>,
    codecs: &Option<String>,
    op: &FilterOp,
    value: &str,
) -> (r: Option<bool>)
    ensures
        match field_text(*field, resolution, opt_text(*language), opt_text(*codecs)) {
            Some(t) => r == Some(text_matches(t, *op, value@)),
            None => r is None,
        },
{
    let v = chars_of(value);
    let text = match field {
        Field::Resolution => match resolution {
            Some((w, h)) => {
                let mut t = digits(w);
                t.push('x');
                let hd = digits(h);
                append_chars(&mut t, &hd);
                proof {
                    assert(t@ =~= decimal_text(w as nat) + seq!['x'] + decimal_text(h as nat));
                }
                t
            },
            None => Vec::new(),
        },
        Field::Language => text_or_empty(language),
        Field::Acodec | Field::Vcodec => text_or_empty(codecs),
        _ => {
            return None;
        },
    };
    proof {
        assert(field_text(*field, resolution, opt_text(*language), opt_text(*codecs)) == Some(
            text@,
        ));
    }
    Some(matches_chars(&text, op, &v))
}

} // verus!
