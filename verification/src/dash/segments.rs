//! How the segments of a DASH representation are addressed: the choice among the
//! addressing modes, the segments of a `SegmentTimeline`, and the URL templates of a
//! `SegmentTemplate`.
use crate::error::Error;
use crate::format::parser::{
    chars_of, digits_value, eq_text, find, find_char, is_digit, is_first, parse_usize,
    parse_usize_exec,
};
use crate::cli::save::{ascii_lower, normalize_key};
use crate::format::text::opt_text;
use crate::playlist::types::{Key, KeyMethod};
use crate::progress::{decimal_text, decimal_u64};
use vstd::prelude::*;

verus! {

/// What a representation and its adaptation set carry, as far as the choice of an
/// addressing mode looks at it.
#[derive(Clone, Copy, Debug, PartialEq, Eq, Structural)]
pub struct AddressingFacts {
    /// The representation has a `SegmentList`.
    pub rep_segment_list: bool,
    /// The adaptation set has a `SegmentList`.
    pub set_segment_list: bool,
    /// The representation has a `SegmentTemplate`.
    pub rep_template: bool,
    /// The adaptation set has a `SegmentTemplate`.
    pub set_template: bool,
    /// One of the two templates has a `SegmentTimeline`.
    pub has_timeline: bool,
    /// One of the two templates has a `@media` attribute.
    pub has_media: bool,
    /// The representation has a `SegmentBase`.
    pub rep_segment_base: bool,
    /// The adaptation set has a `SegmentBase`.
    pub set_segment_base: bool,
    /// The representation has a `BaseURL`.
    pub rep_base_url: bool,
}

/// The addressing mode of a representation.
#[derive(Clone, Copy, Debug, PartialEq, Eq, Structural)]
pub enum Addressing {
    /// 1. The representation's `SegmentList`.
    RepresentationSegmentList,
    /// 2. The adaptation set's `SegmentList`.
    AdaptationSetSegmentList,
    /// 3. A `SegmentTemplate` with a `SegmentTimeline`.
    TemplateTimeline,
    /// 4. A `SegmentTemplate` with `@media` and `@duration`.
    TemplateDuration,
    /// 5. The representation's `SegmentBase`.
    RepresentationSegmentBase,
    /// 6. The adaptation set's `SegmentBase`.
    AdaptationSetSegmentBase,
    /// 7. The representation's plain `BaseURL`.
    PlainBaseUrl,
    /// A `SegmentTemplate` with neither a timeline nor `@media`: no segments, and no
    /// other mode is tried.
    TemplateWithoutMedia,
    /// None of the modes applies: no segments.
    Unaddressed,
}

/// The addressing mode, the first that applies in the documented order. A template
/// (on either level) decides between modes 3 and 4 and stops the search there.
pub open spec fn addressing_spec(f: AddressingFacts) -> Addressing {
    if f.rep_segment_list {
        Addressing::RepresentationSegmentList
    } else if f.set_segment_list {
        Addressing::AdaptationSetSegmentList
    } else if f.rep_template || f.set_template {
        if f.has_timeline {
            Addressing::TemplateTimeline
        } else if f.has_media {
            Addressing::TemplateDuration
        } else {
            Addressing::TemplateWithoutMedia
        }
    } else if f.rep_segment_base {
        Addressing::RepresentationSegmentBase
    } else if f.set_segment_base {
        Addressing::AdaptationSetSegmentBase
    } else if f.rep_base_url {
        Addressing::PlainBaseUrl
    } else {
        Addressing::Unaddressed
    }
}

/// Chooses the addressing mode of a representation.
pub fn addressing(f: &AddressingFacts) -> (a: Addressing)
    ensures
        a == addressing_spec(*f),
{
    if f.rep_segment_list {
        Addressing::RepresentationSegmentList
    } else if f.set_segment_list {
        Addressing::AdaptationSetSegmentList
    } else if f.rep_template || f.set_template {
        if f.has_timeline {
            Addressing::TemplateTimeline
        } else if f.has_media {
            Addressing::TemplateDuration
        } else {
            Addressing::TemplateWithoutMedia
        }
    } else if f.rep_segment_base {
        Addressing::RepresentationSegmentBase
    } else if f.set_segment_base {
        Addressing::AdaptationSetSegmentBase
    } else if f.rep_base_url {
        Addressing::PlainBaseUrl
    } else {
        Addressing::Unaddressed
    }
}

/// Chooses the addressing mode, refusing a timeline without the `@media` template that
/// its segment URLs are made from.
pub fn checked_addressing(f: &AddressingFacts) -> (r: Result<Addressing, Error>)
    ensures
        addressing_spec(*f) == Addressing::TemplateTimeline && !f.has_media ==> (r matches Err(
            Error::DashParse(m),
        ) && m@ == "Missing @media attribute on SegmentTimeline."@),
        !(addressing_spec(*f) == Addressing::TemplateTimeline && !f.has_media) ==> r == Ok::<
            Addressing,
            Error,
        >(addressing_spec(*f)),
{
    let a = addressing(f);
    if a == Addressing::TemplateTimeline && !f.has_media {
        return Err(Error::DashParse("Missing @media attribute on SegmentTimeline.".to_owned()));
    }
    Ok(a)
}

/// `d` with zeros in front, to at least `w` characters.
pub open spec fn zero_padded(d: Seq<char>, w: nat) -> Seq<char> {
    if d.len() >= w {
        d
    } else {
        Seq::new((w - d.len()) as nat, |i: int| '0') + d
    }
}

/// The width that a format tag `%0<width>d` asks for; no tag asks for none.
pub open spec fn tag_width(tag: Seq<char>) -> Option<nat> {
    if tag.len() == 0 {
        Some(0)
    } else if tag.len() >= 4 && tag[0] == '%' && tag[1] == '0' && tag.last() == 'd' {
        digits_value(tag.subrange(2, tag.len() - 1))
    } else {
        None
    }
}

/// The width asked for where `ident` is the identifier `name` with an optional format
/// tag.
pub open spec fn numeric_ident(ident: Seq<char>, name: Seq<char>) -> Option<nat> {
    if name.is_prefix_of(ident) {
        tag_width(ident.skip(name.len() as int))
    } else {
        None
    }
}

/// What the identifier between two `$` stands for: `$$` for a `$`, the representation
/// id, or the segment number, time or bandwidth in decimal, padded with zeros to the
/// tag's width; `None` for an identifier that is left as it is (an unknown one, or the
/// bandwidth of a representation that has none).
pub open spec fn substitution(
    ident: Seq<char>,
    rep_id: Seq<char>,
    bandwidth: Option<u64>,
    number: u64,
    time: u64,
) -> Option<Seq<char>> {
    if ident.len() == 0 {
        Some(seq!['$'])
    } else if ident == "RepresentationID"@ {
        Some(rep_id)
    } else if numeric_ident(ident, "Number"@) is Some {
        Some(zero_padded(decimal_text(number as nat), numeric_ident(ident, "Number"@)->0))
    } else if numeric_ident(ident, "Time"@) is Some {
        Some(zero_padded(decimal_text(time as nat), numeric_ident(ident, "Time"@)->0))
    } else if numeric_ident(ident, "Bandwidth"@) is Some && bandwidth is Some {
        Some(
            zero_padded(
                decimal_text(bandwidth->0 as nat),
                numeric_ident(ident, "Bandwidth"@)->0,
            ),
        )
    } else {
        None
    }
}

/// A `SegmentTemplate` URL with its `$...$` identifiers filled in, left to right; a `$`
/// without a closing one, and what follows it, stays as it is.
pub open spec fn template_text(
    t: Seq<char>,
    rep_id: Seq<char>,
    bandwidth: Option<u64>,
    number: u64,
    time: u64,
) -> Seq<char>
    decreases t.len(),
{
    match find(t, '$') {
        None => t,
        Some(i) => {
            let rest = t.skip(i + 1);
            match find(rest, '$') {
                None => t,
                Some(j) => {
                    let ident = rest.take(j);
                    let after = rest.skip(j + 1);
                    if 0 <= i < t.len() && 0 <= j < rest.len() {
                        t.take(i) + match substitution(ident, rep_id, bandwidth, number, time) {
                            Some(x) => x,
                            None => seq!['$'] + ident + seq!['$'],
                        } + template_text(after, rep_id, bandwidth, number, time)
                    } else {
                        t
                    }
                },
            }
        },
    }
}

/// `x` does not occur in `t`.
pub open spec fn lacks(t: Seq<char>, x: char) -> bool {
    forall|i: int| 0 <= i < t.len() ==> t[i] != x
}

proof fn lemma_find_first(t: Seq<char>, x: char, i: int)
    requires
        is_first(t, x, i),
    ensures
        find(t, x) == Some(i),
{
    let j = choose|j: int| is_first(t, x, j);
    assert(is_first(t, x, j));
    if j < i {
        assert(t[j] != x);
    } else if j > i {
        assert(t[i] != x);
    }
}

/// An identifier between two `$`, after text without a `$`, is replaced as
/// `substitution` says (or kept), and the rest is filled on.
proof fn lemma_template_ident(
    u: Seq<char>,
    ident: Seq<char>,
    v: Seq<char>,
    rep_id: Seq<char>,
    bandwidth: Option<u64>,
    number: u64,
    time: u64,
)
    requires
        lacks(u, '$'),
        lacks(ident, '$'),
    ensures
        template_text(u + seq!['$'] + ident + seq!['$'] + v, rep_id, bandwidth, number, time) == u
            + match substitution(ident, rep_id, bandwidth, number, time) {
            Some(x) => x,
            None => seq!['$'] + ident + seq!['$'],
        } + template_text(v, rep_id, bandwidth, number, time),
{
    let t = u + seq!['$'] + ident + seq!['$'] + v;
    let i = u.len() as int;
    assert(is_first(t, '$', i));
    lemma_find_first(t, '$', i);
    let rest = t.skip(i + 1);
    assert(rest =~= ident + seq!['$'] + v);
    let j = ident.len() as int;
    assert(is_first(rest, '$', j));
    lemma_find_first(rest, '$', j);
    assert(rest.take(j) =~= ident);
    assert(rest.skip(j + 1) =~= v);
    assert(t.take(i) =~= u);
}

/// The identifiers of a template URL are filled in, wherever they stand:
/// `$RepresentationID$` with the representation's id, `$Number$`, `$Time$` and (where
/// the representation has one) `$Bandwidth$` with the number in decimal, and `$$` with
/// a `$`; the text before stays, and the text after is filled on in the same way.
pub proof fn template_identifiers_are_filled(
    u: Seq<char>,
    v: Seq<char>,
    rep_id: Seq<char>,
    bandwidth: u64,
    number: u64,
    time: u64,
)
    requires
        lacks(u, '$'),
    ensures
        template_text(u + "$Bandwidth$"@ + v, rep_id, Some(bandwidth), number, time) == u
            + decimal_text(bandwidth as nat) + template_text(v, rep_id, Some(bandwidth), number, time),
        template_text(u + "$Number$"@ + v, rep_id, Some(bandwidth), number, time) == u
            + decimal_text(number as nat) + template_text(v, rep_id, Some(bandwidth), number, time),
        template_text(u + "$Time$"@ + v, rep_id, Some(bandwidth), number, time) == u
            + decimal_text(time as nat) + template_text(v, rep_id, Some(bandwidth), number, time),
        template_text(u + "$RepresentationID$"@ + v, rep_id, Some(bandwidth), number, time) == u
            + rep_id + template_text(v, rep_id, Some(bandwidth), number, time),
        template_text(u + "$$"@ + v, rep_id, Some(bandwidth), number, time) == u + seq!['$']
            + template_text(v, rep_id, Some(bandwidth), number, time),
{
    reveal_strlit("$Bandwidth$");
    reveal_strlit("$Number$");
    reveal_strlit("$Time$");
    reveal_strlit("$RepresentationID$");
    reveal_strlit("$$");
    reveal_strlit("Bandwidth");
    reveal_strlit("Number");
    reveal_strlit("Time");
    reveal_strlit("RepresentationID");
    let b = Some(bandwidth);
    let tail = template_text(v, rep_id, b, number, time);
    // $Bandwidth$
    let id_b = "Bandwidth"@;
    assert("$Bandwidth$"@ =~= seq!['$'] + id_b + seq!['$']);
    assert(u + "$Bandwidth$"@ + v =~= u + seq!['$'] + id_b + seq!['$'] + v);
    lemma_template_ident(u, id_b, v, rep_id, b, number, time);
    assert(id_b != "RepresentationID"@) by {
        assert(id_b.len() != "RepresentationID"@.len());
    }
    assert(!"Number"@.is_prefix_of(id_b)) by {
        assert(id_b[0] != "Number"@[0]);
    }
    assert(!"Time"@.is_prefix_of(id_b)) by {
        assert(id_b[0] != "Time"@[0]);
    }
    assert(id_b.skip(9) =~= Seq::<char>::empty());
    assert(id_b.subrange(0, 9) =~= "Bandwidth"@);
    assert(substitution(id_b, rep_id, b, number, time) == Some(decimal_text(bandwidth as nat)));
    // $Number$
    let id_n = "Number"@;
    assert("$Number$"@ =~= seq!['$'] + id_n + seq!['$']);
    assert(u + "$Number$"@ + v =~= u + seq!['$'] + id_n + seq!['$'] + v);
    lemma_template_ident(u, id_n, v, rep_id, b, number, time);
    assert(id_n != "RepresentationID"@) by {
        assert(id_n.len() != "RepresentationID"@.len());
    }
    assert(id_n.skip(6) =~= Seq::<char>::empty());
    assert(id_n.subrange(0, 6) =~= "Number"@);
    assert(substitution(id_n, rep_id, b, number, time) == Some(decimal_text(number as nat)));
    // $Time$
    let id_t = "Time"@;
    assert("$Time$"@ =~= seq!['$'] + id_t + seq!['$']);
    assert(u + "$Time$"@ + v =~= u + seq!['$'] + id_t + seq!['$'] + v);
    lemma_template_ident(u, id_t, v, rep_id, b, number, time);
    assert(id_t != "RepresentationID"@) by {
        assert(id_t.len() != "RepresentationID"@.len());
    }
    assert(!"Number"@.is_prefix_of(id_t)) by {
        assert(id_t[0] != "Number"@[0]);
    }
    assert(id_t.skip(4) =~= Seq::<char>::empty());
    assert(id_t.subrange(0, 4) =~= "Time"@);
    assert(substitution(id_t, rep_id, b, number, time) == Some(decimal_text(time as nat)));
    // $RepresentationID$
    let id_r = "RepresentationID"@;
    assert("$RepresentationID$"@ =~= seq!['$'] + id_r + seq!['$']);
    assert(u + "$RepresentationID$"@ + v =~= u + seq!['$'] + id_r + seq!['$'] + v);
    lemma_template_ident(u, id_r, v, rep_id, b, number, time);
    // $$
    let e = Seq::<char>::empty();
    assert("$$"@ =~= seq!['$'] + e + seq!['$']);
    assert(u + "$$"@ + v =~= u + seq!['$'] + e + seq!['$'] + v);
    lemma_template_ident(u, e, v, rep_id, b, number, time);
}

/// `n` in decimal, padded with zeros to `w` characters.
fn padded(n: u64, w: usize) -> (s: String)
    ensures
        s@ == zero_padded(decimal_text(n as nat), w as nat),
{
    let d = decimal_u64(n);
    let len = d.unicode_len();
    let mut s = String::new();
    if len < w {
        let mut k: usize = 0;
        proof {
            reveal_strlit("0");
        }
        while k < w - len
            invariant
                len < w,
                k <= w - len,
                s@ == Seq::new(k as nat, |i: int| '0'),
            decreases w - len - k,
        {
            s.append("0");
            k = k + 1;
            proof {
                reveal_strlit("0");
                assert(s@ =~= Seq::new(k as nat, |i: int| '0'));
            }
        }
    }
    s.append(d.as_str());
    proof {
        if len >= w {
            assert(s@ =~= decimal_text(n as nat));
        }
    }
    s
}

/// The width asked for where `c[lo..hi]` is the identifier `name` with an optional tag.
fn numeric_width(c: &Vec<char>, lo: usize, hi: usize, name: &str) -> (r: Option<usize>)
    requires
        lo <= hi <= c@.len(),
    ensures
        match (r, numeric_ident(c@.subrange(lo as int, hi as int), name@)) {
            (Some(a), Some(b)) => a == b,
            (None, None) => true,
            _ => false,
        },
{
    let ghost ident = c@.subrange(lo as int, hi as int);
    let k = name.unicode_len();
    if hi - lo < k {
        return None;
    }
    let m = lo + k;
    if !eq_text(c, lo, m, name) {
        proof {
            assert(ident.subrange(0, k as int) =~= c@.subrange(lo as int, m as int));
        }
        return None;
    }
    proof {
        assert(ident.subrange(0, k as int) =~= c@.subrange(lo as int, m as int));
        assert(ident.skip(k as int) =~= c@.subrange(m as int, hi as int));
    }
    let ghost tag = c@.subrange(m as int, hi as int);
    if m == hi {
        return Some(0);
    }
    if hi - m >= 4 && c[m] == '%' && c[m + 1] == '0' && c[hi - 1] == 'd' && '0' <= c[m + 2]
        && c[m + 2] <= '9' {
        let r = parse_usize_exec(c, m + 2, hi - 1);
        proof {
            let d = c@.subrange(m + 2, hi - 1);
            assert(tag.subrange(2, tag.len() - 1) =~= d);
            assert(d[0] == c@[m + 2]);
            assert(parse_usize(d) == digits_value(d));
        }
        return r;
    }
    proof {
        if hi - m >= 4 && c@[m as int] == '%' && c@[m + 1] == '0' && c@[hi - 1] == 'd' {
            let d = tag.subrange(2, tag.len() - 1);
            assert(d[0] == c@[m + 2]);
            assert(!is_digit(d[0]));
            assert(digits_value(d) is None);
        }
    }
    None
}

/// What the identifier `c[lo..hi]` stands for, or `None` where it stays as it is.
fn substitution_exec(
    c: &Vec<char>,
    lo: usize,
    hi: usize,
    rep_id: &str,
    bandwidth: Option<u64>,
    number: u64,
    time: u64,
) -> (r: Option<String>)
    requires
        lo <= hi <= c@.len(),
    ensures
        match (r, substitution(c@.subrange(lo as int, hi as int), rep_id@, bandwidth, number, time)) {
            (Some(a), Some(b)) => a@ == b,
            (None, None) => true,
            _ => false,
        },
{
    let ghost ident = c@.subrange(lo as int, hi as int);
    if lo == hi {
        proof {
            reveal_strlit("$");
        }
        return Some("$".to_owned());
    }
    if eq_text(c, lo, hi, "RepresentationID") {
        return Some(rep_id.to_owned());
    }
    match numeric_width(c, lo, hi, "Number") {
        Some(w) => {
            return Some(padded(number, w));
        },
        None => {},
    }
    match numeric_width(c, lo, hi, "Time") {
        Some(w) => {
            return Some(padded(time, w));
        },
        None => {},
    }
    match numeric_width(c, lo, hi, "Bandwidth") {
        Some(w) => match bandwidth {
            Some(b) => {
                return Some(padded(b, w));
            },
            None => {},
        },
        None => {},
    }
    None
}

/// Fills in a `SegmentTemplate` URL: `$RepresentationID$`, `$Number$`, `$Time$` and
/// `$Bandwidth$` (the numbers with an optional `%0<width>d` tag), and `$$` for a `$`.
#[verifier::rlimit(40)]
pub fn fill_template(t: &str, rep_id: &str, bandwidth: Option<u64>, number: u64, time: u64) -> (s:
    String)
    ensures
        s@ == template_text(t@, rep_id@, bandwidth, number, time),
{
    let c = chars_of(t);
    let n = c.len();
    let ghost full = template_text(c@, rep_id@, bandwidth, number, time);
    let mut out = String::new();
    let mut p: usize = 0;
    proof {
        assert(c@.skip(0) =~= c@);
    }
    loop
        invariant_except_break
            full == out@ + template_text(c@.skip(p as int), rep_id@, bandwidth, number, time),
        invariant
            n == c@.len(),
            c@ == t@,
            p <= n,
            full == template_text(c@, rep_id@, bandwidth, number, time),
        ensures
            out@ == full,
        decreases n - p,
    {
        let ghost u = c@.skip(p as int);
        proof {
            assert(c@.subrange(p as int, n as int) =~= u);
        }
        match find_char(&c, p, n, '$') {
            None => {
                out.append(t.substring_char(p, n));
                break;
            },
            Some(i) => {
                let ghost iu = i - p;
                proof {
                    assert(find(u, '$') == Some(iu));
                    assert(c@.subrange(i + 1, n as int) =~= u.skip(iu + 1));
                }
                match find_char(&c, i + 1, n, '$') {
                    None => {
                        out.append(t.substring_char(p, n));
                        break;
                    },
                    Some(j) => {
                        let ghost ju = j - (i + 1);
                        let ghost rest = u.skip(iu + 1);
                        proof {
                            assert(find(rest, '$') == Some(ju));
                            assert(rest.take(ju) =~= c@.subrange(i + 1, j as int));
                            assert(rest.skip(ju + 1) =~= c@.skip(j + 1));
                            assert(u.take(iu) =~= c@.subrange(p as int, i as int));
                        }
                        out.append(t.substring_char(p, i));
                        match substitution_exec(&c, i + 1, j, rep_id, bandwidth, number, time) {
                            Some(x) => {
                                out.append(x.as_str());
                            },
                            None => {
                                proof {
                                    assert(c@.subrange(i as int, j + 1) =~= seq!['$']
                                        + c@.subrange(i + 1, j as int) + seq!['$']);
                                }
                                out.append(t.substring_char(i, j + 1));
                            },
                        }
                        p = j + 1;
                    },
                }
            },
        }
    }
    out
}

/// How many segments the `S` element `k` of a timeline stands for, from its start time:
/// its repeat count plus one, or, for a negative repeat count, as many as fit before the
/// next element's `@t` (or `end` where there is none): one where nothing bounds it.
pub open spec fn repeat_count(
    entries: Seq<(Option<u64>, u64, i64)>,
    k: int,
    start: nat,
    end: Option<u64>,
) -> nat {
    let d = entries[k].1;
    let r = entries[k].2;
    if r >= 0 {
        (r + 1) as nat
    } else {
        let limit = if k + 1 < entries.len() && entries[k + 1].0 is Some {
            entries[k + 1].0
        } else {
            end
        };
        match limit {
            Some(l) => if l <= start {
                0
            } else if d == 0 {
                1
            } else {
                ((l - start - 1) / (d as int) + 1) as nat
            },
            None => 1,
        }
    }
}

/// `count` segments of duration `d`, numbered from `number` and starting at `time`, as
/// (number, start time) pairs.
pub open spec fn run(number: nat, time: nat, d: nat, count: nat) -> Seq<(u64, u64)>
    decreases count,
{
    if count == 0 {
        Seq::empty()
    } else {
        seq![(number as u64, time as u64)] + run(number + 1, time + d, d, (count - 1) as nat)
    }
}

/// The time after `count` segments of duration `d` from `time`.
pub open spec fn run_end(time: nat, d: nat, count: nat) -> nat
    decreases count,
{
    if count == 0 {
        time
    } else {
        run_end(time + d, d, (count - 1) as nat)
    }
}

proof fn lemma_run_end_grows(time: nat, d: nat, count: nat)
    ensures
        run_end(time, d, count) >= time,
        count >= 1 ==> run_end(time, d, count) >= time + d,
    decreases count,
{
    if count > 0 {
        lemma_run_end_grows(time + d, d, (count - 1) as nat);
    }
}

/// The segments of the timeline elements `entries[k..]`, the time running on from `time`
/// and the numbers from `number`; `None` where a time or number passes `u64::MAX`.
pub open spec fn timeline_from(
    entries: Seq<(Option<u64>, u64, i64)>,
    k: int,
    time: nat,
    number: nat,
    end: Option<u64>,
) -> Option<Seq<(u64, u64)>>
    decreases entries.len() - k,
{
    if k < 0 || k >= entries.len() {
        Some(Seq::empty())
    } else {
        let start = match entries[k].0 {
            Some(t) => t as nat,
            None => time,
        };
        let d = entries[k].1 as nat;
        let count = repeat_count(entries, k, start, end);
        let next_time = run_end(start, d, count);
        if next_time > u64::MAX || number + count > u64::MAX {
            None
        } else {
            match timeline_from(entries, k + 1, next_time, number + count, end) {
                Some(rest) => Some(run(number, start, d, count) + rest),
                None => None,
            }
        }
    }
}

/// The segments of a `SegmentTimeline` (its `S` elements as `(@t, @d, @r)`), numbered
/// from `start_number`, as (number, start time) pairs in timescale units.
pub open spec fn timeline_spec(
    entries: Seq<(Option<u64>, u64, i64)>,
    start_number: u64,
    end: Option<u64>,
) -> Option<Seq<(u64, u64)>> {
    timeline_from(entries, 0, 0, start_number as nat, end)
}

/// Expands a `SegmentTimeline` into its segments' numbers and start times. `end` is the
/// end of the period in timescale units, where it is known; it bounds an element with a
/// negative repeat count that no later `@t` bounds. `None` where a number or a time would
/// pass `u64::MAX`.
pub fn expand_timeline(
    entries: &Vec<(Option<u64>, u64, i64)>,
    start_number: u64,
    end: Option<u64>,
) -> (r: Option<Vec<(u64, u64)>>)
    ensures
        match (r, timeline_spec(entries@, start_number, end)) {
            (Some(v), Some(w)) => v@ == w,
            (None, None) => true,
            _ => false,
        },
{
    let ghost total = timeline_spec(entries@, start_number, end);
    let mut out: Vec<(u64, u64)> = Vec::new();
    let mut time: u64 = 0;
    let mut number: u64 = start_number;
    let mut k: usize = 0;
    proof {
        match timeline_from(entries@, 0, 0, start_number as nat, end) {
            Some(rest) => {
                assert(out@ + rest =~= rest);
            },
            None => {},
        }
    }
    while k < entries.len()
        invariant
            k <= entries@.len(),
            total == timeline_spec(entries@, start_number, end),
            total == match timeline_from(entries@, k as int, time as nat, number as nat, end) {
                Some(rest) => Some(out@ + rest),
                None => None::<Seq<(u64, u64)>>,
            },
        decreases entries.len() - k,
    {
        let (t_opt, d, rep) = entries[k];
        let start = match t_opt {
            Some(t) => t,
            None => time,
        };
        let count: u64 = if rep >= 0 {
            (rep as u64) + 1
        } else {
            let limit = if k + 1 < entries.len() && entries[k + 1].0.is_some() {
                entries[k + 1].0
            } else {
                end
            };
            match limit {
                Some(l) => if l <= start {
                    0
                } else if d == 0 {
                    1
                } else {
                    (l - start - 1) / d + 1
                },
                None => 1,
            }
        };
        let ghost dn = d as nat;
        let ghost out0 = out@;
        let ghost number0 = number as nat;
        proof {
            assert(count as nat == repeat_count(entries@, k as int, start as nat, end));
        }
        let mut cur_time = start;
        let mut m: u64 = 0;
        while m < count
            invariant
                m <= count,
                number as nat == number0 + m,
                run_end(start as nat, dn, count as nat) == run_end(
                    cur_time as nat,
                    dn,
                    (count - m) as nat,
                ),
                out0 + run(number0, start as nat, dn, count as nat) == out@ + run(
                    number as nat,
                    cur_time as nat,
                    dn,
                    (count - m) as nat,
                ),
                dn == d,
                k < entries@.len(),
                entries@[k as int] == (t_opt, d, rep),
                start as nat == match t_opt {
                    Some(t) => t as nat,
                    None => time as nat,
                },
                count as nat == repeat_count(entries@, k as int, start as nat, end),
                total == timeline_spec(entries@, start_number, end),
                total == match timeline_from(entries@, k as int, time as nat, number0, end) {
                    Some(rest) => Some(out0 + rest),
                    None => None::<Seq<(u64, u64)>>,
                },
            decreases count - m,
        {
            proof {
                lemma_run_end_grows(cur_time as nat, dn, (count - m) as nat);
                lemma_run_end_grows(cur_time as nat + dn, dn, (count - m - 1) as nat);
            }
            if number == u64::MAX || cur_time > u64::MAX - d {
                proof {
                    assert(number0 + count as nat > u64::MAX || run_end(
                        start as nat,
                        dn,
                        count as nat,
                    ) > u64::MAX);
                    assert(timeline_from(entries@, k as int, time as nat, number0, end) is None);
                }
                return None;
            }
            proof {
                let tail = run(number as nat + 1, cur_time as nat + dn, dn, (count - m - 1) as nat);
                assert(run(number as nat, cur_time as nat, dn, (count - m) as nat) == seq![
                    (number, cur_time),
                ] + tail);
                assert(out@ + (seq![(number, cur_time)] + tail) =~= out@.push((number, cur_time))
                    + tail);
            }
            out.push((number, cur_time));
            number = number + 1;
            cur_time = cur_time + d;
            m = m + 1;
        }
        proof {
            assert(out0 + run(number0, start as nat, dn, count as nat) =~= out@);
        }
        time = cur_time;
        k = k + 1;
    }
    proof {
        assert(out@ + Seq::<(u64, u64)>::empty() =~= out@);
    }
    Some(out)
}


/// The lower-case letter of an ASCII capital, as text.
fn lower_letter(c: char) -> (r: &'static str)
    requires
        'A' <= c <= 'Z',
    ensures
        r@ == seq![ascii_lower(c)],
{
    proof {
        reveal_strlit("a");
        reveal_strlit("b");
        reveal_strlit("c");
        reveal_strlit("d");
        reveal_strlit("e");
        reveal_strlit("f");
        reveal_strlit("g");
        reveal_strlit("h");
        reveal_strlit("i");
        reveal_strlit("j");
        reveal_strlit("k");
        reveal_strlit("l");
        reveal_strlit("m");
        reveal_strlit("n");
        reveal_strlit("o");
        reveal_strlit("p");
        reveal_strlit("q");
        reveal_strlit("r");
        reveal_strlit("s");
        reveal_strlit("t");
        reveal_strlit("u");
        reveal_strlit("v");
        reveal_strlit("w");
        reveal_strlit("x");
        reveal_strlit("y");
        reveal_strlit("z");
    }
    match c {
        'A' => "a",
        'B' => "b",
        'C' => "c",
        'D' => "d",
        'E' => "e",
        'F' => "f",
        'G' => "g",
        'H' => "h",
        'I' => "i",
        'J' => "j",
        'K' => "k",
        'L' => "l",
        'M' => "m",
        'N' => "n",
        'O' => "o",
        'P' => "p",
        'Q' => "q",
        'R' => "r",
        'S' => "s",
        'T' => "t",
        'U' => "u",
        'V' => "v",
        'W' => "w",
        'X' => "x",
        'Y' => "y",
        _ => "z",
    }
}

/// A key ID as given, in ASCII lower case and without its dashes.
fn normalized_kid(s: &str) -> (r: String)
    ensures
        r@ == normalize_key(s@),
{
    let n = s.unicode_len();
    let mut r = String::new();
    let mut i: usize = 0;
    while i < n
        invariant
            n == s@.len(),
            i <= n,
            r@ == normalize_key(s@.take(i as int)),
        decreases n - i,
    {
        let c = s.get_char(i);
        proof {
            assert(s@.take(i + 1).drop_last() =~= s@.take(i as int));
            assert(s@.take(i + 1).last() == c);
        }
        if c == '-' {
        } else if 'A' <= c && c <= 'Z' {
            r.append(lower_letter(c));
        } else {
            r.append(s.substring_char(i, i + 1));
            proof {
                assert(s@.subrange(i as int, i + 1) =~= seq![c]);
            }
        }
        i = i + 1;
    }
    proof {
        assert(s@.take(n as int) =~= s@);
    }
    r
}

/// The first `@cenc:default_KID` among `ContentProtection` elements, as `normalize_key`
/// writes it.
pub open spec fn first_kid(cps: Seq<(bool, Option<String>)>) -> Option<Seq<char>>
    decreases cps.len(),
{
    if cps.len() == 0 {
        None
    } else {
        match cps[0].1 {
            Some(k) => Some(normalize_key(k@)),
            None => first_kid(cps.drop_first()),
        }
    }
}

/// Whether some `ContentProtection` element has a `@value`.
pub open spec fn any_value(cps: Seq<(bool, Option<String>)>) -> bool {
    exists|i: int| 0 <= i < cps.len() && #[trigger] cps[i].0
}

/// The key that a representation's `ContentProtection` elements (the representation's,
/// then the adaptation set's, each as whether it has a `@value` and its
/// `@cenc:default_KID`) give its first segment: where one has a `@value`, a CENC key
/// with the first default KID, in ASCII lower case and without dashes; else none.
pub fn protection_key(cps: &Vec<(bool, Option<String>)>) -> (r: Option<Key>)
    ensures
        r is Some <==> any_value(cps@),
        r matches Some(k) ==> (k.method is Cenc && k.iv is None && k.uri is None && opt_text(
            k.default_kid,
        ) == first_kid(cps@)),
{
    let mut any = false;
    let mut kid: Option<String> = None;
    let mut i: usize = cps.len();
    while i > 0
        invariant
            i <= cps@.len(),
            any <==> exists|j: int| i <= j < cps@.len() && #[trigger] cps@[j].0,
            opt_text(kid) == first_kid(cps@.skip(i as int)),
        decreases i,
    {
        i = i - 1;
        proof {
            assert(cps@.skip(i as int).drop_first() =~= cps@.skip(i + 1));
            assert(cps@.skip(i as int)[0] == cps@[i as int]);
        }
        if cps[i].0 {
            any = true;
        }
        match &cps[i].1 {
            Some(k) => {
                kid = Some(normalized_kid(k.as_str()));
            },
            None => {},
        }
    }
    proof {
        assert(cps@.skip(0) =~= cps@);
    }
    if any {
        Some(Key { default_kid: kid, iv: None, method: KeyMethod::Cenc, uri: None })
    } else {
        None
    }
}

} // verus!
