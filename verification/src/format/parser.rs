//! Parsing of format expressions such as `bv[height<=720]+ba / b`.
//!
//! An expression is a `/`-separated fallback chain of `+`-separated merges of
//! single selectors; `/` and `+` inside brackets do not separate. A single selector
//! is a 1-based stream index, or a keyword followed by bracketed filters such as
//! `[language=en]`.
use crate::error::Error;
use vstd::prelude::*;

verus! {

/// A parsed format expression.
#[derive(Debug, PartialEq)]
pub enum FormatExpr {
    /// The first alternative that selects something for every part.
    Fallback(Vec<Self>),
    /// The union of what the parts select.
    Merge(Vec<Self>),
    /// Streams of a kind that pass all filters.
    Single { base: BaseFormat, filters: Vec<Filter> },
    /// The stream at a 0-based index.
    Index(usize),
}

/// The kind of streams a single selector picks from.
#[derive(Clone, Copy, Debug, PartialEq, Eq, Structural)]
pub enum BaseFormat {
    BestVideo,
    BestAudio,
    WorstVideo,
    WorstAudio,
    Sub,
    All,
    AllVid,
    AllAud,
    AllSub,
    AllUnd,
}

/// A condition on one field of a stream.
#[derive(Clone, Debug, PartialEq, Eq)]
pub struct Filter {
    pub field: Field,
    pub op: FilterOp,
    pub value: String,
}

/// A stream property that filters compare.
#[derive(Clone, Copy, Debug, PartialEq, Eq, Structural)]
pub enum Field {
    Width,
    Height,
    Resolution,
    Language,
    Tbr,
    Abr,
    Vbr,
    Fps,
    AudioChannels,
    Acodec,
    Vcodec,
}

/// A comparison operator of a filter.
#[derive(Clone, Copy, Debug, PartialEq, Eq, Structural)]
pub enum FilterOp {
    Eq,
    Ne,
    Le,
    Ge,
    Lt,
    Gt,
    Contains,
    StartsWith,
    EndsWith,
}

/// The mathematical content of a filter.
pub struct FilterView {
    pub field: Field,
    pub op: FilterOp,
    pub value: Seq<char>,
}

/// The mathematical content of a format expression.
pub enum ExprView {
    Fallback(Seq<ExprView>),
    Merge(Seq<ExprView>),
    Single { base: BaseFormat, filters: Seq<FilterView> },
    Index(nat),
}

/// The outcome of parsing: a value, a rejection, or an input on which the parser
/// would panic (a `]` that comes before the `[` it should close, between filters).
pub enum Parsed<T> {
    Value(T),
    Rejected,
    Panics,
}

impl Filter {
    pub open spec fn view_filter(&self) -> FilterView {
        FilterView { field: self.field, op: self.op, value: self.value@ }
    }
}

impl FormatExpr {
    pub open spec fn view_expr(&self) -> ExprView
        decreases self,
    {
        match self {
            FormatExpr::Fallback(v) => ExprView::Fallback(views(v@)),
            FormatExpr::Merge(v) => ExprView::Merge(views(v@)),
            FormatExpr::Single { base, filters } => ExprView::Single {
                base: *base,
                filters: filters@.map_values(|f: Filter| f.view_filter()),
            },
            FormatExpr::Index(i) => ExprView::Index(*i as nat),
        }
    }
}

/// The views of a sequence of expressions.
pub open spec fn views(v: Seq<FormatExpr>) -> Seq<ExprView>
    decreases v,
{
    if v.len() == 0 {
        Seq::empty()
    } else {
        views(v.drop_last()).push(v.last().view_expr())
    }
}

/// Unicode white space, as `char::is_whitespace` and `str::trim` see it.
pub open spec fn is_ws(c: char) -> bool {
    let u = c as u32;
    (0x9 <= u <= 0xd) || u == 0x20 || u == 0x85 || u == 0xa0 || u == 0x1680 || (0x2000 <= u
        <= 0x200a) || u == 0x2028 || u == 0x2029 || u == 0x202f || u == 0x205f || u == 0x3000
}

/// The number of leading white space characters.
pub open spec fn lead_ws(t: Seq<char>) -> nat
    decreases t.len(),
{
    if t.len() > 0 && is_ws(t[0]) {
        1 + lead_ws(t.drop_first())
    } else {
        0
    }
}

/// The number of trailing white space characters.
pub open spec fn trail_ws(t: Seq<char>) -> nat
    decreases t.len(),
{
    if t.len() > 0 && is_ws(t.last()) {
        1 + trail_ws(t.drop_last())
    } else {
        0
    }
}

/// `t` without leading and trailing white space.
pub open spec fn trim(t: Seq<char>) -> Seq<char> {
    let u = t.skip(lead_ws(t) as int);
    u.take(u.len() - trail_ws(u))
}

/// `i` is the first position of `x` in `t`.
pub open spec fn is_first(t: Seq<char>, x: char, i: int) -> bool {
    0 <= i < t.len() && t[i] == x && forall|j: int| 0 <= j < i ==> t[j] != x
}

/// The first position of `x` in `t`.
pub open spec fn find(t: Seq<char>, x: char) -> Option<int> {
    if exists|i: int| is_first(t, x, i) {
        Some(choose|i: int| is_first(t, x, i))
    } else {
        None
    }
}

/// `p` occurs in `t` at `i`.
pub open spec fn occurs_at(t: Seq<char>, p: Seq<char>, i: int) -> bool {
    0 <= i && i + p.len() <= t.len() && t.subrange(i, i + p.len()) == p
}

/// `i` is the first position where `p` occurs in `t`.
pub open spec fn is_first_pat(t: Seq<char>, p: Seq<char>, i: int) -> bool {
    occurs_at(t, p, i) && forall|j: int| 0 <= j < i ==> !occurs_at(t, p, j)
}

/// The first position where `p` occurs in `t`.
pub open spec fn find_pat(t: Seq<char>, p: Seq<char>) -> Option<int> {
    if exists|i: int| is_first_pat(t, p, i) {
        Some(choose|i: int| is_first_pat(t, p, i))
    } else {
        None
    }
}

/// The ranges of the parts of `t[i..]` separated by `delim` outside brackets, given
/// the bracket depth at `i` and the start of the current part.
pub open spec fn split_from(t: Seq<char>, delim: char, i: int, depth: int, start: int) -> Seq<
    (int, int),
>
    decreases t.len() - i,
{
    if i < 0 || i >= t.len() {
        seq![(start, t.len() as int)]
    } else if t[i] == '[' {
        split_from(t, delim, i + 1, depth + 1, start)
    } else if t[i] == ']' {
        split_from(t, delim, i + 1, depth - 1, start)
    } else if t[i] == delim && depth == 0 {
        seq![(start, i)] + split_from(t, delim, i + 1, depth, i + 1)
    } else {
        split_from(t, delim, i + 1, depth, start)
    }
}

/// The parts of `t` separated by `delim` outside brackets, as index ranges.
pub open spec fn split_top_level(t: Seq<char>, delim: char) -> Seq<(int, int)> {
    split_from(t, delim, 0, 0, 0)
}

pub open spec fn is_digit(c: char) -> bool {
    '0' <= c <= '9'
}

/// The value of a string of decimal digits.
pub open spec fn decimal(d: Seq<char>) -> nat
    decreases d.len(),
{
    if d.len() == 0 {
        0
    } else {
        decimal(d.drop_last()) * 10 + (d.last() as nat - '0' as nat) as nat
    }
}

/// The value of a nonempty string of decimal digits that fits in a `usize`.
pub open spec fn digits_value(d: Seq<char>) -> Option<nat> {
    if d.len() > 0 && (forall|i: int| 0 <= i < d.len() ==> is_digit(d[i])) && decimal(d)
        <= usize::MAX {
        Some(decimal(d))
    } else {
        None
    }
}

/// What `str::parse::<usize>` gives: an optional `+` and decimal digits, within range.
pub open spec fn parse_usize(t: Seq<char>) -> Option<nat> {
    if t.len() > 0 && t[0] == '+' {
        digits_value(t.drop_first())
    } else {
        digits_value(t)
    }
}

/// The stream kind named by a keyword.
pub open spec fn base_keyword(t: Seq<char>) -> Option<BaseFormat> {
    if t == "bv"@ || t == "bestvideo"@ {
        Some(BaseFormat::BestVideo)
    } else if t == "ba"@ || t == "bestaudio"@ {
        Some(BaseFormat::BestAudio)
    } else if t == "s"@ || t == "sub"@ {
        Some(BaseFormat::Sub)
    } else if t == "wv"@ || t == "worstvideo"@ {
        Some(BaseFormat::WorstVideo)
    } else if t == "wa"@ || t == "worstaudio"@ {
        Some(BaseFormat::WorstAudio)
    } else if t == "all"@ {
        Some(BaseFormat::All)
    } else if t == "allvid"@ {
        Some(BaseFormat::AllVid)
    } else if t == "allaud"@ {
        Some(BaseFormat::AllAud)
    } else if t == "allsub"@ {
        Some(BaseFormat::AllSub)
    } else if t == "allund"@ {
        Some(BaseFormat::AllUnd)
    } else {
        None
    }
}

/// The field named in a filter.
pub open spec fn field_name(t: Seq<char>) -> Option<Field> {
    if t == "width"@ {
        Some(Field::Width)
    } else if t == "height"@ {
        Some(Field::Height)
    } else if t == "resolution"@ {
        Some(Field::Resolution)
    } else if t == "language"@ {
        Some(Field::Language)
    } else if t == "tbr"@ {
        Some(Field::Tbr)
    } else if t == "abr"@ {
        Some(Field::Abr)
    } else if t == "vbr"@ {
        Some(Field::Vbr)
    } else if t == "fps"@ {
        Some(Field::Fps)
    } else if t == "audio_channels"@ {
        Some(Field::AudioChannels)
    } else if t == "acodec"@ {
        Some(Field::Acodec)
    } else if t == "vcodec"@ {
        Some(Field::Vcodec)
    } else {
        None
    }
}

/// The operators in the order they are tried: two-character ones before one-character ones.
pub open spec fn op_text(k: int) -> Seq<char> {
    if k == 0 {
        "*="@
    } else if k == 1 {
        "^="@
    } else if k == 2 {
        "$="@
    } else if k == 3 {
        "<="@
    } else if k == 4 {
        ">="@
    } else if k == 5 {
        "!="@
    } else if k == 6 {
        "<"@
    } else if k == 7 {
        ">"@
    } else {
        "="@
    }
}

pub open spec fn op_value(k: int) -> FilterOp {
    if k == 0 {
        FilterOp::Contains
    } else if k == 1 {
        FilterOp::StartsWith
    } else if k == 2 {
        FilterOp::EndsWith
    } else if k == 3 {
        FilterOp::Le
    } else if k == 4 {
        FilterOp::Ge
    } else if k == 5 {
        FilterOp::Ne
    } else if k == 6 {
        FilterOp::Lt
    } else if k == 7 {
        FilterOp::Gt
    } else {
        FilterOp::Eq
    }
}

/// The filter inside one pair of brackets, trying the operators from the `k`-th on:
/// the first operator (in that order) that occurs splits the text at its first
/// occurrence into a field name and a value.
pub open spec fn filter_from(t: Seq<char>, k: int) -> Option<FilterView>
    decreases 9 - k,
{
    if k < 0 || k >= 9 {
        None
    } else {
        match find_pat(t, op_text(k)) {
            Some(pos) => match field_name(trim(t.take(pos))) {
                Some(field) => Some(
                    FilterView {
                        field,
                        op: op_value(k),
                        value: trim(t.skip(pos + op_text(k).len())),
                    },
                ),
                None => None,
            },
            None => filter_from(t, k + 1),
        }
    }
}

/// The filters of a sequence of bracketed conditions.
pub open spec fn filters_spec(r: Seq<char>) -> Parsed<Seq<FilterView>>
    decreases r.len(),
{
    match find(r, '[') {
        None => Parsed::Value(Seq::empty()),
        Some(st) => match find(r, ']') {
            None => Parsed::Rejected,
            Some(en) => if en < st + 1 {
                Parsed::Panics
            } else {
                match filter_from(r.subrange(st + 1, en), 0) {
                    None => Parsed::Rejected,
                    Some(f) => match filters_spec(r.skip(en + 1)) {
                        Parsed::Value(fs) => Parsed::Value(seq![f] + fs),
                        Parsed::Rejected => Parsed::Rejected,
                        Parsed::Panics => Parsed::Panics,
                    },
                }
            },
        },
    }
}

/// One selector: an index, a `b`/`best` or `w`/`worst` shorthand for video and audio,
/// or a keyword with filters.
pub open spec fn single_spec(t: Seq<char>) -> Parsed<ExprView> {
    match parse_usize(t) {
        Some(idx) => if idx == 0 {
            Parsed::Rejected
        } else {
            Parsed::Value(ExprView::Index((idx - 1) as nat))
        },
        None => {
            let base_text = match find(t, '[') {
                Some(p) => t.take(p),
                None => t,
            };
            let filters_text = match find(t, '[') {
                Some(p) => t.skip(p),
                None => Seq::empty(),
            };
            let b = trim(base_text);
            if b == "b"@ || b == "best"@ || b == "w"@ || b == "worst"@ {
                let best = b == "b"@ || b == "best"@;
                match filters_spec(filters_text) {
                    Parsed::Value(fs) => Parsed::Value(
                        ExprView::Merge(
                            seq![
                                ExprView::Single {
                                    base: if best {
                                        BaseFormat::BestVideo
                                    } else {
                                        BaseFormat::WorstVideo
                                    },
                                    filters: fs,
                                },
                                ExprView::Single {
                                    base: if best {
                                        BaseFormat::BestAudio
                                    } else {
                                        BaseFormat::WorstAudio
                                    },
                                    filters: fs,
                                },
                            ],
                        ),
                    ),
                    Parsed::Rejected => Parsed::Rejected,
                    Parsed::Panics => Parsed::Panics,
                }
            } else {
                match base_keyword(b) {
                    None => Parsed::Rejected,
                    Some(base) => match filters_spec(filters_text) {
                        Parsed::Value(fs) => Parsed::Value(ExprView::Single { base, filters: fs }),
                        Parsed::Rejected => Parsed::Rejected,
                        Parsed::Panics => Parsed::Panics,
                    },
                }
            }
        },
    }
}

/// The trimmed text of the `k`-th part of `t`.
pub open spec fn part(t: Seq<char>, parts: Seq<(int, int)>, k: int) -> Seq<char> {
    trim(t.subrange(parts[k].0, parts[k].1))
}

/// `f` applied to the parts from the `k`-th on, stopping at the first failure.
pub open spec fn each_part(
    f: spec_fn(Seq<char>) -> Parsed<ExprView>,
    t: Seq<char>,
    parts: Seq<(int, int)>,
    k: int,
) -> Parsed<Seq<ExprView>>
    decreases parts.len() - k,
{
    if k < 0 || k >= parts.len() {
        Parsed::Value(Seq::empty())
    } else {
        match f(part(t, parts, k)) {
            Parsed::Value(e) => match each_part(f, t, parts, k + 1) {
                Parsed::Value(es) => Parsed::Value(seq![e] + es),
                Parsed::Rejected => Parsed::Rejected,
                Parsed::Panics => Parsed::Panics,
            },
            Parsed::Rejected => Parsed::Rejected,
            Parsed::Panics => Parsed::Panics,
        }
    }
}

/// A `+`-separated merge; a single part stands for itself.
pub open spec fn merge_spec(t: Seq<char>) -> Parsed<ExprView> {
    let parts = split_top_level(t, '+');
    if parts.len() == 1 {
        single_spec(part(t, parts, 0))
    } else {
        match each_part(|x: Seq<char>| single_spec(x), t, parts, 0) {
            Parsed::Value(es) => Parsed::Value(ExprView::Merge(es)),
            Parsed::Rejected => Parsed::Rejected,
            Parsed::Panics => Parsed::Panics,
        }
    }
}

/// A whole format expression: a `/`-separated fallback chain; a single part stands
/// for itself. Empty (or all white space) text is rejected.
pub open spec fn parse_spec(s: Seq<char>) -> Parsed<ExprView> {
    let t = trim(s);
    if t.len() == 0 {
        Parsed::Rejected
    } else {
        let parts = split_top_level(t, '/');
        if parts.len() == 1 {
            merge_spec(part(t, parts, 0))
        } else {
            match each_part(|x: Seq<char>| merge_spec(x), t, parts, 0) {
                Parsed::Value(es) => Parsed::Value(ExprView::Fallback(es)),
                Parsed::Rejected => Parsed::Rejected,
                Parsed::Panics => Parsed::Panics,
            }
        }
    }
}


/// The characters of `s`.
pub(crate) fn chars_of(s: &str) -> (v: Vec<char>)
    ensures
        v@ == s@,
{
    let n = s.unicode_len();
    let mut v: Vec<char> = Vec::new();
    let mut i: usize = 0;
    while i < n
        invariant
            n == s@.len(),
            i <= n,
            v@ == s@.take(i as int),
        decreases n - i,
    {
        v.push(s.get_char(i));
        i = i + 1;
        proof {
            assert(v@ =~= s@.take(i as int));
        }
    }
    proof {
        assert(s@.take(n as int) =~= s@);
    }
    v
}

fn is_ws_exec(c: char) -> (b: bool)
    ensures
        b == is_ws(c),
{
    let u = c as u32;
    (0x9 <= u && u <= 0xd) || u == 0x20 || u == 0x85 || u == 0xa0 || u == 0x1680 || (0x2000 <= u
        && u <= 0x200a) || u == 0x2028 || u == 0x2029 || u == 0x202f || u == 0x205f || u == 0x3000
}

/// The bounds, within `[lo, hi)`, of the trimmed text of `c[lo..hi]`.
pub(crate) fn trim_range(c: &Vec<char>, lo: usize, hi: usize) -> (r: (usize, usize))
    requires
        lo <= hi <= c@.len(),
    ensures
        lo <= r.0 <= r.1 <= hi,
        c@.subrange(r.0 as int, r.1 as int) == trim(c@.subrange(lo as int, hi as int)),
{
    let ghost t = c@.subrange(lo as int, hi as int);
    let mut a = lo;
    while a < hi && is_ws_exec(c[a])
        invariant
            lo <= a <= hi <= c@.len(),
            lead_ws(t) == (a - lo) + lead_ws(c@.subrange(a as int, hi as int)),
        decreases hi - a,
    {
        proof {
            let u = c@.subrange(a as int, hi as int);
            assert(u.drop_first() =~= c@.subrange(a + 1, hi as int));
        }
        a = a + 1;
    }
    proof {
        let u = c@.subrange(a as int, hi as int);
        if a < hi {
            assert(u[0] == c@[a as int]);
        }
        assert(lead_ws(u) == 0);
        assert(t.skip(lead_ws(t) as int) =~= u);
    }
    let ghost u = c@.subrange(a as int, hi as int);
    let mut b = hi;
    while b > a && is_ws_exec(c[b - 1])
        invariant
            lo <= a <= b <= hi <= c@.len(),
            u == c@.subrange(a as int, hi as int),
            trail_ws(u) == (hi - b) + trail_ws(c@.subrange(a as int, b as int)),
        decreases b - a,
    {
        proof {
            let w = c@.subrange(a as int, b as int);
            assert(w.drop_last() =~= c@.subrange(a as int, b - 1));
            assert(w.last() == c@[b - 1]);
        }
        b = b - 1;
    }
    proof {
        let w = c@.subrange(a as int, b as int);
        if b > a {
            assert(w.last() == c@[b - 1]);
        }
        assert(trail_ws(w) == 0);
        assert(u.take(u.len() - trail_ws(u)) =~= w);
    }
    (a, b)
}

/// The first position of `x` in `c[lo..hi]`, as an absolute index.
pub(crate) fn find_char(c: &Vec<char>, lo: usize, hi: usize, x: char) -> (r: Option<usize>)
    requires
        lo <= hi <= c@.len(),
    ensures
        match (r, find(c@.subrange(lo as int, hi as int), x)) {
            (Some(a), Some(b)) => a == lo + b && lo <= a < hi,
            (None, None) => true,
            _ => false,
        },
{
    let ghost t = c@.subrange(lo as int, hi as int);
    let mut i = lo;
    while i < hi
        invariant
            lo <= i <= hi <= c@.len(),
            t == c@.subrange(lo as int, hi as int),
            forall|j: int| 0 <= j < i - lo ==> t[j] != x,
        decreases hi - i,
    {
        if c[i] == x {
            proof {
                let k = (i - lo) as int;
                assert(is_first(t, x, k));
                assert forall|m: int| is_first(t, x, m) implies m == k by {
                    if m < k {
                        assert(t[m] != x);
                    }
                    if m > k {
                        assert(t[k] != x);
                    }
                }
            }
            return Some(i);
        }
        i = i + 1;
    }
    proof {
        assert(!exists|m: int| is_first(t, x, m));
    }
    None
}

/// Whether `c[lo..hi]` is the text `w`.
pub(crate) fn eq_text(c: &Vec<char>, lo: usize, hi: usize, w: &str) -> (b: bool)
    requires
        lo <= hi <= c@.len(),
    ensures
        b == (c@.subrange(lo as int, hi as int) == w@),
{
    let n = w.unicode_len();
    if hi - lo != n {
        proof {
            assert(c@.subrange(lo as int, hi as int).len() != w@.len());
        }
        return false;
    }
    let mut i: usize = 0;
    while i < n
        invariant
            n == w@.len(),
            hi - lo == n,
            lo <= hi <= c@.len(),
            i <= n,
            forall|j: int| 0 <= j < i ==> c@[lo + j] == w@[j],
        decreases n - i,
    {
        if c[lo + i] != w.get_char(i) {
            proof {
                assert(c@.subrange(lo as int, hi as int)[i as int] != w@[i as int]);
            }
            return false;
        }
        i = i + 1;
    }
    proof {
        assert(c@.subrange(lo as int, hi as int) =~= w@);
    }
    true
}

/// The first position where `w` occurs in `c[lo..hi]`, as an absolute index.
fn find_text(c: &Vec<char>, lo: usize, hi: usize, w: &str) -> (r: Option<usize>)
    requires
        lo <= hi <= c@.len(),
        w@.len() >= 1,
    ensures
        match (r, find_pat(c@.subrange(lo as int, hi as int), w@)) {
            (Some(a), Some(b)) => a == lo + b && lo <= a && a + w@.len() <= hi,
            (None, None) => true,
            _ => false,
        },
{
    let ghost t = c@.subrange(lo as int, hi as int);
    let n = w.unicode_len();
    let mut i = lo;
    while i < hi && hi - i >= n
        invariant
            lo <= i <= hi <= c@.len(),
            n == w@.len(),
            t == c@.subrange(lo as int, hi as int),
            forall|j: int| 0 <= j < i - lo ==> !occurs_at(t, w@, j),
        decreases hi - i,
    {
        if eq_text(c, i, i + n, w) {
            proof {
                let k = (i - lo) as int;
                assert(t.subrange(k, k + n) =~= c@.subrange(i as int, i + n));
                assert(is_first_pat(t, w@, k));
                assert forall|m: int| is_first_pat(t, w@, m) implies m == k by {
                    if m < k {
                        assert(!occurs_at(t, w@, m));
                    }
                    if m > k {
                        assert(!occurs_at(t, w@, k));
                    }
                }
            }
            return Some(i);
        }
        proof {
            let k = (i - lo) as int;
            assert(t.subrange(k, k + n) =~= c@.subrange(i as int, i + n));
        }
        i = i + 1;
    }
    proof {
        assert forall|m: int| !is_first_pat(t, w@, m) by {
            if 0 <= m && m + n <= t.len() {
                assert(m < i - lo);
            }
        }
    }
    None
}

/// Every part that splitting from `i` yields lies between `start` and the end of `t`.
proof fn lemma_split_bounds(t: Seq<char>, delim: char, i: int, depth: int, start: int)
    requires
        0 <= start <= i <= t.len(),
    ensures
        split_from(t, delim, i, depth, start).len() >= 1,
        forall|k: int|
            0 <= k < split_from(t, delim, i, depth, start).len() ==> start <= (#[trigger] split_from(
                t,
                delim,
                i,
                depth,
                start,
            )[k]).0 <= split_from(t, delim, i, depth, start)[k].1 <= t.len(),
    decreases t.len() - i,
{
    if i < t.len() {
        if t[i] == '[' {
            lemma_split_bounds(t, delim, i + 1, depth + 1, start);
        } else if t[i] == ']' {
            lemma_split_bounds(t, delim, i + 1, depth - 1, start);
        } else if t[i] == delim && depth == 0 {
            lemma_split_bounds(t, delim, i + 1, depth, i + 1);
            let rest = split_from(t, delim, i + 1, depth, i + 1);
            let all = split_from(t, delim, i, depth, start);
            assert forall|k: int| 0 < k < all.len() implies all[k] == rest[k - 1] by {}
        } else {
            lemma_split_bounds(t, delim, i + 1, depth, start);
        }
    }
}

/// The parts of `c[lo..hi]` separated by `delim` outside brackets, as absolute ranges.
fn split_exec(c: &Vec<char>, lo: usize, hi: usize, delim: char) -> (r: Vec<(usize, usize)>)
    requires
        lo <= hi <= c@.len(),
        hi - lo <= i32::MAX,
    ensures
        ({
            let sp = split_top_level(c@.subrange(lo as int, hi as int), delim);
            &&& r@.len() == sp.len()
            &&& forall|k: int|
                0 <= k < sp.len() ==> r@[k].0 == lo + sp[k].0 && r@[k].1 == lo + sp[k].1 && 0
                    <= sp[k].0 <= sp[k].1 <= hi - lo
        }),
        r@.len() >= 1,
{
    let ghost t = c@.subrange(lo as int, hi as int);
    let ghost sp = split_top_level(t, delim);
    let mut parts: Vec<(usize, usize)> = Vec::new();
    let mut depth: i64 = 0;
    let mut start = lo;
    let mut i = lo;
    proof {
        lemma_split_bounds(t, delim, 0, 0, 0);
    }
    while i < hi
        invariant
            lo <= start <= i <= hi <= c@.len(),
            hi - lo <= i32::MAX,
            t == c@.subrange(lo as int, hi as int),
            sp == split_top_level(t, delim),
            -(i - lo) <= depth <= i - lo,
            sp.len() == parts@.len() + split_from(t, delim, i - lo, depth as int, start - lo).len(),
            forall|k: int|
                0 <= k < parts@.len() ==> lo + sp[k].0 == parts@[k].0 && lo + sp[k].1
                    == parts@[k].1 && 0 <= sp[k].0 <= sp[k].1 <= hi - lo,
            forall|k: int|
                0 <= k < split_from(t, delim, i - lo, depth as int, start - lo).len() ==> sp[parts@.len()
                    + k] == #[trigger] split_from(t, delim, i - lo, depth as int, start - lo)[k],
        decreases hi - i,
    {
        let ch = c[i];
        let ghost k = (i - lo) as int;
        let ghost old_rest = split_from(t, delim, k, depth as int, start - lo);
        let ghost old_len = parts@.len();
        proof {
            assert(t[k] == ch);
        }
        if ch == '[' {
            depth = depth + 1;
        } else if ch == ']' {
            depth = depth - 1;
        } else if ch == delim && depth == 0 {
            proof {
                let rest2 = split_from(t, delim, k + 1, 0, k + 1);
                assert(old_rest == seq![(start - lo, k)] + rest2);
                lemma_split_bounds(t, delim, k, 0, start - lo);
                assert(old_rest[0] == (start - lo, k));
                assert(sp[old_len as int] == old_rest[0]);
                assert forall|j: int| 0 <= j < rest2.len() implies sp[old_len + 1 + j]
                    == #[trigger] rest2[j] by {
                    assert(old_rest[j + 1] == rest2[j]);
                    assert(sp[old_len + (j + 1)] == old_rest[j + 1]);
                }
            }
            let ghost old_parts = parts@;
            parts.push((start, i));
            proof {
                assert forall|j: int| 0 <= j < parts@.len() implies lo + sp[j].0 == parts@[j].0 && lo
                    + sp[j].1 == parts@[j].1 && 0 <= sp[j].0 <= sp[j].1 <= hi - lo by {
                    if j < old_len {
                        assert(parts@[j] == old_parts[j]);
                    } else {
                        assert(sp[j] == old_rest[0]);
                    }
                }
            }
            start = i + 1;
        }
        i = i + 1;
    }
    proof {
        let rest = split_from(t, delim, i - lo, depth as int, start - lo);
        assert(rest == seq![(start - lo, t.len() as int)]);
        assert(rest[0] == (start - lo, hi - lo));
        assert(sp[parts@.len() as int] == rest[0]);
    }
    parts.push((start, hi));
    parts
}

/// Decimal digits of `c[lo..hi]` read as `str::parse::<usize>` does.
pub(crate) fn parse_usize_exec(c: &Vec<char>, lo: usize, hi: usize) -> (r: Option<usize>)
    requires
        lo <= hi <= c@.len(),
    ensures
        match (r, parse_usize(c@.subrange(lo as int, hi as int))) {
            (Some(a), Some(b)) => a == b,
            (None, None) => true,
            _ => false,
        },
{
    let ghost t = c@.subrange(lo as int, hi as int);
    let start = if lo < hi && c[lo] == '+' {
        lo + 1
    } else {
        lo
    };
    let ghost d = c@.subrange(start as int, hi as int);
    proof {
        if lo < hi {
            assert(t[0] == c@[lo as int]);
        }
        if lo < hi && c@[lo as int] == '+' {
            assert(t.drop_first() =~= d);
        } else {
            assert(t =~= d);
        }
        assert(parse_usize(t) == digits_value(d));
    }
    if start == hi {
        return None;
    }
    let mut acc: usize = 0;
    let mut i = start;
    while i < hi
        invariant
            start <= i <= hi <= c@.len(),
            t == c@.subrange(lo as int, hi as int),
            d == c@.subrange(start as int, hi as int),
            d.len() > 0,
            parse_usize(t) == digits_value(d),
            forall|j: int| 0 <= j < i - start ==> is_digit(d[j]),
            acc == decimal(d.take(i - start)),
        decreases hi - i,
    {
        let ch = c[i];
        let ghost k = (i - start) as int;
        proof {
            assert(d[k] == ch);
            assert(d.take(k + 1).drop_last() =~= d.take(k));
            assert(d.take(k + 1).last() == ch);
        }
        if !('0' <= ch && ch <= '9') {
            proof {
                assert(!is_digit(d[k]));
            }
            return None;
        }
        let digit = (ch as u32 - '0' as u32) as usize;
        let next = match acc.checked_mul(10) {
            Some(m) => m.checked_add(digit),
            None => None,
        };
        match next {
            Some(v) => {
                acc = v;
            },
            None => {
                proof {
                    if forall|j: int| 0 <= j < d.len() ==> is_digit(d[j]) {
                        lemma_decimal_prefix(d, k + 1);
                    }
                }
                return None;
            },
        }
        i = i + 1;
    }
    proof {
        assert(d.take(d.len() as int) =~= d);
    }
    Some(acc)
}

/// A longer prefix of digits never has a smaller value.
proof fn lemma_decimal_prefix(d: Seq<char>, k: int)
    requires
        0 <= k <= d.len(),
        forall|j: int| 0 <= j < d.len() ==> is_digit(d[j]),
    ensures
        decimal(d.take(k)) <= decimal(d),
    decreases d.len() - k,
{
    if k < d.len() {
        lemma_decimal_prefix(d, k + 1);
        assert(d.take(k + 1).drop_last() =~= d.take(k));
        assert(is_digit(d[k]));
    } else {
        assert(d.take(k) =~= d);
    }
}

fn base_keyword_exec(c: &Vec<char>, lo: usize, hi: usize) -> (r: Option<BaseFormat>)
    requires
        lo <= hi <= c@.len(),
    ensures
        r == base_keyword(c@.subrange(lo as int, hi as int)),
{
    if eq_text(c, lo, hi, "bv") || eq_text(c, lo, hi, "bestvideo") {
        Some(BaseFormat::BestVideo)
    } else if eq_text(c, lo, hi, "ba") || eq_text(c, lo, hi, "bestaudio") {
        Some(BaseFormat::BestAudio)
    } else if eq_text(c, lo, hi, "s") || eq_text(c, lo, hi, "sub") {
        Some(BaseFormat::Sub)
    } else if eq_text(c, lo, hi, "wv") || eq_text(c, lo, hi, "worstvideo") {
        Some(BaseFormat::WorstVideo)
    } else if eq_text(c, lo, hi, "wa") || eq_text(c, lo, hi, "worstaudio") {
        Some(BaseFormat::WorstAudio)
    } else if eq_text(c, lo, hi, "all") {
        Some(BaseFormat::All)
    } else if eq_text(c, lo, hi, "allvid") {
        Some(BaseFormat::AllVid)
    } else if eq_text(c, lo, hi, "allaud") {
        Some(BaseFormat::AllAud)
    } else if eq_text(c, lo, hi, "allsub") {
        Some(BaseFormat::AllSub)
    } else if eq_text(c, lo, hi, "allund") {
        Some(BaseFormat::AllUnd)
    } else {
        None
    }
}

fn field_name_exec(c: &Vec<char>, lo: usize, hi: usize) -> (r: Option<Field>)
    requires
        lo <= hi <= c@.len(),
    ensures
        r == field_name(c@.subrange(lo as int, hi as int)),
{
    if eq_text(c, lo, hi, "width") {
        Some(Field::Width)
    } else if eq_text(c, lo, hi, "height") {
        Some(Field::Height)
    } else if eq_text(c, lo, hi, "resolution") {
        Some(Field::Resolution)
    } else if eq_text(c, lo, hi, "language") {
        Some(Field::Language)
    } else if eq_text(c, lo, hi, "tbr") {
        Some(Field::Tbr)
    } else if eq_text(c, lo, hi, "abr") {
        Some(Field::Abr)
    } else if eq_text(c, lo, hi, "vbr") {
        Some(Field::Vbr)
    } else if eq_text(c, lo, hi, "fps") {
        Some(Field::Fps)
    } else if eq_text(c, lo, hi, "audio_channels") {
        Some(Field::AudioChannels)
    } else if eq_text(c, lo, hi, "acodec") {
        Some(Field::Acodec)
    } else if eq_text(c, lo, hi, "vcodec") {
        Some(Field::Vcodec)
    } else {
        None
    }
}

fn op_at(k: usize) -> (r: (&'static str, FilterOp))
    requires
        k < 9,
    ensures
        r.0@ == op_text(k as int),
        r.0@.len() >= 1,
        r.1 == op_value(k as int),
{
    proof {
        reveal_strlit("*=");
        reveal_strlit("^=");
        reveal_strlit("$=");
        reveal_strlit("<=");
        reveal_strlit(">=");
        reveal_strlit("!=");
        reveal_strlit("<");
        reveal_strlit(">");
        reveal_strlit("=");
    }
    if k == 0 {
        ("*=", FilterOp::Contains)
    } else if k == 1 {
        ("^=", FilterOp::StartsWith)
    } else if k == 2 {
        ("$=", FilterOp::EndsWith)
    } else if k == 3 {
        ("<=", FilterOp::Le)
    } else if k == 4 {
        (">=", FilterOp::Ge)
    } else if k == 5 {
        ("!=", FilterOp::Ne)
    } else if k == 6 {
        ("<", FilterOp::Lt)
    } else if k == 7 {
        (">", FilterOp::Gt)
    } else {
        ("=", FilterOp::Eq)
    }
}

/// The text `prefix`, then `middle`, then `suffix`.
pub(crate) fn message(prefix: &str, middle: &str, suffix: &str) -> (m: String)
    ensures
        m@ == prefix@ + middle@ + suffix@,
{
    let mut m = prefix.to_owned();
    m.append(middle);
    m.append(suffix);
    m
}

fn format_error(prefix: &str, s: &str, lo: usize, hi: usize, suffix: &str) -> (e: Error)
    requires
        lo <= hi <= s@.len(),
    ensures
        e is FormatParse,
{
    Error::FormatParse(message(prefix, s.substring_char(lo, hi), suffix))
}

/// The filter inside one pair of brackets: `c[lo..hi]` is its text.
fn parse_one_filter(s: &str, c: &Vec<char>, lo: usize, hi: usize) -> (r: Result<Filter, Error>)
    requires
        c@ == s@,
        lo <= hi <= c@.len(),
    ensures
        match (r, filter_from(c@.subrange(lo as int, hi as int), 0)) {
            (Ok(f), Some(v)) => f.view_filter() == v,
            (Err(e), None) => e is FormatParse,
            _ => false,
        },
{
    let ghost t = c@.subrange(lo as int, hi as int);
    let mut k: usize = 0;
    while k < 9
        invariant
            k <= 9,
            c@ == s@,
            lo <= hi <= c@.len(),
            t == c@.subrange(lo as int, hi as int),
            filter_from(t, 0) == filter_from(t, k as int),
        decreases 9 - k,
    {
        let (op_str, op) = op_at(k);
        match find_text(c, lo, hi, op_str) {
            Some(pos) => {
                let (fa, fb) = trim_range(c, lo, pos);
                let (va, vb) = trim_range(c, pos + op_str.unicode_len(), hi);
                proof {
                    let p = (pos - lo) as int;
                    assert(t.take(p) =~= c@.subrange(lo as int, pos as int));
                    assert(t.skip(p + op_text(k as int).len()) =~= c@.subrange(
                        pos + op_str@.len(),
                        hi as int,
                    ));
                }
                match field_name_exec(c, fa, fb) {
                    Some(field) => {
                        let value = s.substring_char(va, vb).to_owned();
                        return Ok(Filter { field, op, value });
                    },
                    None => {
                        return Err(format_error("unknown field '", s, fa, fb, "'"));
                    },
                }
            },
            None => {},
        }
        k = k + 1;
    }
    Err(format_error("invalid filter '[", s, lo, hi, "]'"))
}

/// The filters in `c[lo..hi]`, a sequence of bracketed conditions; `None` where a `]`
/// comes before the `[` it should close.
fn parse_filters(s: &str, c: &Vec<char>, lo: usize, hi: usize) -> (r: Option<
    Result<Vec<Filter>, Error>,
>)
    requires
        c@ == s@,
        lo <= hi <= c@.len(),
    ensures
        match (r, filters_spec(c@.subrange(lo as int, hi as int))) {
            (Some(Ok(fs)), Parsed::Value(v)) => fs@.map_values(|f: Filter| f.view_filter()) == v,
            (Some(Err(e)), Parsed::Rejected) => e is FormatParse,
            (None, Parsed::Panics) => true,
            _ => false,
        },
    decreases hi - lo,
{
    let ghost t = c@.subrange(lo as int, hi as int);
    match find_char(c, lo, hi, '[') {
        None => Some(Ok(Vec::new())),
        Some(st) => match find_char(c, lo, hi, ']') {
            None => Some(Err(format_error("unclosed bracket in '", s, lo, hi, "'"))),
            Some(en) => {
                if en < st + 1 {
                    return None;
                }
                proof {
                    assert(t.subrange(st + 1 - lo, en - lo) =~= c@.subrange(st + 1, en as int));
                    assert(t.skip(en + 1 - lo) =~= c@.subrange(en + 1, hi as int));
                }
                let f = match parse_one_filter(s, c, st + 1, en) {
                    Ok(f) => f,
                    Err(e) => {
                        return Some(Err(e));
                    },
                };
                let mut rest = match parse_filters(s, c, en + 1, hi) {
                    Some(Ok(rest)) => rest,
                    Some(Err(e)) => {
                        return Some(Err(e));
                    },
                    None => {
                        return None;
                    },
                };
                let mut out: Vec<Filter> = Vec::new();
                out.push(f);
                out.append(&mut rest);
                proof {
                    let v = filters_spec(c@.subrange(en + 1, hi as int))->Value_0;
                    assert(out@.map_values(|f: Filter| f.view_filter()) =~= seq![
                        f.view_filter(),
                    ] + v);
                }
                Some(Ok(out))
            },
        },
    }
}

/// When `f` succeeds on the parts `k..m`, `each_part` from `k` collects those results
/// if `m` is the last part, and otherwise fails as `f` fails on part `m`.
proof fn lemma_each_part(
    f: spec_fn(Seq<char>) -> Parsed<ExprView>,
    t: Seq<char>,
    parts: Seq<(int, int)>,
    k: int,
    m: int,
)
    requires
        0 <= k <= m <= parts.len(),
        forall|j: int| k <= j < m ==> #[trigger] f(part(t, parts, j)) is Value,
    ensures
        m == parts.len() ==> each_part(f, t, parts, k) == Parsed::Value(
            Seq::new((m - k) as nat, |j: int| f(part(t, parts, k + j))->Value_0),
        ),
        m < parts.len() && f(part(t, parts, m)) is Rejected ==> each_part(f, t, parts, k) is Rejected,
        m < parts.len() && f(part(t, parts, m)) is Panics ==> each_part(f, t, parts, k) is Panics,
    decreases m - k,
{
    if k == m {
        assert(Seq::new(0, |j: int| f(part(t, parts, k + j))->Value_0) =~= Seq::<ExprView>::empty());
    } else {
        lemma_each_part(f, t, parts, k + 1, m);
        assert(f(part(t, parts, k)) is Value);
        if m == parts.len() {
            let e = f(part(t, parts, k))->Value_0;
            let rest = Seq::new((m - k - 1) as nat, |j: int| f(part(t, parts, k + 1 + j))->Value_0);
            assert(seq![e] + rest =~= Seq::new((m - k) as nat, |j: int| f(part(t, parts, k + j))->Value_0));
        }
    }
}

/// The views of `v` with `x` pushed.
proof fn lemma_views_push(v: Seq<FormatExpr>, x: FormatExpr)
    ensures
        views(v.push(x)) == views(v).push(x.view_expr()),
{
    assert(v.push(x).drop_last() =~= v);
}

/// A copy of a list of filters.
fn copy_filters(v: &Vec<Filter>) -> (r: Vec<Filter>)
    ensures
        r@.map_values(|f: Filter| f.view_filter()) == v@.map_values(|f: Filter| f.view_filter()),
{
    let mut r: Vec<Filter> = Vec::new();
    let mut i: usize = 0;
    while i < v.len()
        invariant
            i <= v@.len(),
            r@.len() == i,
            forall|j: int| 0 <= j < i ==> #[trigger] r@[j].view_filter() == v@[j].view_filter(),
        decreases v.len() - i,
    {
        let f = &v[i];
        let value = f.value.clone();
        r.push(Filter { field: f.field, op: f.op, value });
        i = i + 1;
    }
    proof {
        assert(r@.map_values(|f: Filter| f.view_filter()) =~= v@.map_values(
            |f: Filter| f.view_filter(),
        ));
    }
    r
}

/// One selector, whose text is `c[lo..hi]`; `None` where the filters would make the
/// parser panic.
fn parse_single(s: &str, c: &Vec<char>, lo: usize, hi: usize) -> (r: Option<
    Result<FormatExpr, Error>,
>)
    requires
        c@ == s@,
        lo <= hi <= c@.len(),
    ensures
        match (r, single_spec(c@.subrange(lo as int, hi as int))) {
            (Some(Ok(e)), Parsed::Value(v)) => e.view_expr() == v,
            (Some(Err(e)), Parsed::Rejected) => e is FormatParse,
            (None, Parsed::Panics) => true,
            _ => false,
        },
{
    let ghost t = c@.subrange(lo as int, hi as int);
    match parse_usize_exec(c, lo, hi) {
        Some(idx) => {
            if idx == 0 {
                return Some(
                    Err(Error::FormatParse("stream index must be >= 1, got 0".to_owned())),
                );
            } else {
                return Some(Ok(FormatExpr::Index(idx - 1)));
            }
        },
        None => {},
    }
    let split = match find_char(c, lo, hi, '[') {
        Some(p) => p,
        None => hi,
    };
    proof {
        assert(t.take(split - lo) =~= c@.subrange(lo as int, split as int));
        assert(t.skip(split - lo) =~= c@.subrange(split as int, hi as int));
        assert(c@.subrange(hi as int, hi as int) =~= Seq::<char>::empty());
    }
    let (ba, bb) = trim_range(c, lo, split);
    let best = eq_text(c, ba, bb, "b") || eq_text(c, ba, bb, "best");
    let worst = eq_text(c, ba, bb, "w") || eq_text(c, ba, bb, "worst");
    if best || worst {
        let filters = match parse_filters(s, c, split, hi) {
            Some(Ok(filters)) => filters,
            Some(Err(e)) => {
                return Some(Err(e));
            },
            None => {
                return None;
            },
        };
        let copy = copy_filters(&filters);
        let (video, audio) = if best {
            (BaseFormat::BestVideo, BaseFormat::BestAudio)
        } else {
            (BaseFormat::WorstVideo, BaseFormat::WorstAudio)
        };
        let mut parts: Vec<FormatExpr> = Vec::new();
        parts.push(FormatExpr::Single { base: video, filters: copy });
        parts.push(FormatExpr::Single { base: audio, filters });
        let ghost fs = filters_spec(c@.subrange(split as int, hi as int))->Value_0;
        proof {
            reveal_with_fuel(views, 3);
            assert(parts@.drop_last().drop_last() =~= Seq::<FormatExpr>::empty());
            let e = FormatExpr::Merge(parts);
            assert(parts@[0].view_expr() == ExprView::Single { base: video, filters: fs });
            assert(parts@[1].view_expr() == ExprView::Single { base: audio, filters: fs });
            assert(views(parts@) == seq![parts@[0].view_expr(), parts@[1].view_expr()]);
            assert(trim(c@.subrange(lo as int, split as int)) == c@.subrange(ba as int, bb as int));
            assert(single_spec(t) == Parsed::Value(e.view_expr()));
        }
        Some(Ok(FormatExpr::Merge(parts)))
    } else {
        match base_keyword_exec(c, ba, bb) {
            None => Some(Err(format_error("unknown keyword '", s, ba, bb, "'"))),
            Some(base) => match parse_filters(s, c, split, hi) {
                Some(Ok(filters)) => Some(Ok(FormatExpr::Single { base, filters })),
                Some(Err(e)) => Some(Err(e)),
                None => None,
            },
        }
    }
}

/// The three-way outcome of parsing, as a `Parsed` of the expression's view.
pub open spec fn outcome(r: Option<Result<FormatExpr, Error>>) -> Parsed<ExprView> {
    match r {
        Some(Ok(e)) => Parsed::Value(e.view_expr()),
        Some(Err(_)) => Parsed::Rejected,
        None => Parsed::Panics,
    }
}

/// A `+`-separated merge, whose text is `c[lo..hi]`.
fn parse_merge(s: &str, c: &Vec<char>, lo: usize, hi: usize) -> (r: Option<
    Result<FormatExpr, Error>,
>)
    requires
        c@ == s@,
        lo <= hi <= c@.len(),
        hi - lo <= i32::MAX,
    ensures
        outcome(r) == merge_spec(c@.subrange(lo as int, hi as int)),
        r matches Some(Err(e)) ==> e is FormatParse,
{
    let ghost t = c@.subrange(lo as int, hi as int);
    let ghost sp = split_top_level(t, '+');
    let ghost f = |x: Seq<char>| single_spec(x);
    let parts = split_exec(c, lo, hi, '+');
    if parts.len() == 1 {
        let (a, b) = trim_range(c, parts[0].0, parts[0].1);
        proof {
            assert(t.subrange(sp[0].0, sp[0].1) =~= c@.subrange(
                parts@[0].0 as int,
                parts@[0].1 as int,
            ));
        }
        return parse_single(s, c, a, b);
    }
    let mut exprs: Vec<FormatExpr> = Vec::new();
    let mut k: usize = 0;
    while k < parts.len()
        invariant
            c@ == s@,
            lo <= hi <= c@.len(),
            t == c@.subrange(lo as int, hi as int),
            sp == split_top_level(t, '+'),
            sp.len() != 1,
            f == (|x: Seq<char>| single_spec(x)),
            parts@.len() == sp.len(),
            forall|j: int|
                0 <= j < sp.len() ==> parts@[j].0 == lo + sp[j].0 && parts@[j].1 == lo + sp[j].1
                    && 0 <= sp[j].0 <= sp[j].1 <= hi - lo,
            k <= parts@.len(),
            forall|j: int| 0 <= j < k ==> #[trigger] f(part(t, sp, j)) is Value,
            views(exprs@) == Seq::new(k as nat, |j: int| f(part(t, sp, 0 + j))->Value_0),
        decreases parts.len() - k,
    {
        let (a, b) = trim_range(c, parts[k].0, parts[k].1);
        proof {
            assert(t.subrange(sp[k as int].0, sp[k as int].1) =~= c@.subrange(
                parts@[k as int].0 as int,
                parts@[k as int].1 as int,
            ));
            assert(c@.subrange(a as int, b as int) == part(t, sp, k as int));
            lemma_each_part(f, t, sp, 0, k as int);
            assert(f(part(t, sp, k as int)) == single_spec(part(t, sp, k as int)));
        }
        match parse_single(s, c, a, b) {
            Some(Ok(e)) => {
                proof {
                    lemma_views_push(exprs@, e);
                }
                exprs.push(e);
                k = k + 1;
                proof {
                    assert(views(exprs@) =~= Seq::new(
                        k as nat,
                        |j: int| f(part(t, sp, 0 + j))->Value_0,
                    ));
                }
            },
            Some(Err(e)) => {
                return Some(Err(e));
            },
            None => {
                return None;
            },
        }
    }
    proof {
        lemma_each_part(f, t, sp, 0, k as int);
    }
    Some(Ok(FormatExpr::Merge(exprs)))
}

impl FormatExpr {
    /// Parses a format expression, or gives `None` where the text has a `]` before
    /// the `[` it should close, between filters (an input on which `parse` would panic).
    pub fn try_parse(s: &str) -> (r: Option<Result<FormatExpr, Error>>)
        requires
            s@.len() <= i32::MAX,
        ensures
            outcome(r) == parse_spec(s@),
            r matches Some(Err(e)) ==> e is FormatParse,
    {
        let c = chars_of(s);
        let (lo, hi) = trim_range(&c, 0, c.len());
        proof {
            assert(c@.subrange(0, c@.len() as int) =~= s@);
        }
        let ghost t = c@.subrange(lo as int, hi as int);
        if lo == hi {
            return Some(Err(Error::FormatParse("expression cannot be empty".to_owned())));
        }
        let ghost sp = split_top_level(t, '/');
        let ghost f = |x: Seq<char>| merge_spec(x);
        let parts = split_exec(&c, lo, hi, '/');
        if parts.len() == 1 {
            let (a, b) = trim_range(&c, parts[0].0, parts[0].1);
            proof {
                assert(t.subrange(sp[0].0, sp[0].1) =~= c@.subrange(
                    parts@[0].0 as int,
                    parts@[0].1 as int,
                ));
            }
            return parse_merge(s, &c, a, b);
        }
        let mut exprs: Vec<FormatExpr> = Vec::new();
        let mut k: usize = 0;
        while k < parts.len()
            invariant
                c@ == s@,
                lo <= hi <= c@.len(),
                hi - lo <= i32::MAX,
                t == c@.subrange(lo as int, hi as int),
                t == trim(s@),
                t.len() > 0,
                sp == split_top_level(t, '/'),
                sp.len() != 1,
                f == (|x: Seq<char>| merge_spec(x)),
                parts@.len() == sp.len(),
                forall|j: int|
                    0 <= j < sp.len() ==> parts@[j].0 == lo + sp[j].0 && parts@[j].1 == lo + sp[j].1
                        && 0 <= sp[j].0 <= sp[j].1 <= hi - lo,
                k <= parts@.len(),
                forall|j: int| 0 <= j < k ==> #[trigger] f(part(t, sp, j)) is Value,
                views(exprs@) == Seq::new(k as nat, |j: int| f(part(t, sp, 0 + j))->Value_0),
            decreases parts.len() - k,
        {
            let (a, b) = trim_range(&c, parts[k].0, parts[k].1);
            proof {
                assert(t.subrange(sp[k as int].0, sp[k as int].1) =~= c@.subrange(
                    parts@[k as int].0 as int,
                    parts@[k as int].1 as int,
                ));
                assert(c@.subrange(a as int, b as int) == part(t, sp, k as int));
                lemma_each_part(f, t, sp, 0, k as int);
                assert(f(part(t, sp, k as int)) == merge_spec(part(t, sp, k as int)));
            }
            match parse_merge(s, &c, a, b) {
                Some(Ok(e)) => {
                    proof {
                        lemma_views_push(exprs@, e);
                    }
                    exprs.push(e);
                    k = k + 1;
                    proof {
                        assert(views(exprs@) =~= Seq::new(
                            k as nat,
                            |j: int| f(part(t, sp, 0 + j))->Value_0,
                        ));
                    }
                },
                Some(Err(e)) => {
                    return Some(Err(e));
                },
                None => {
                    return None;
                },
            }
        }
        proof {
            lemma_each_part(f, t, sp, 0, k as int);
        }
        Some(Ok(FormatExpr::Fallback(exprs)))
    }

    /// Parses a format expression: a `/`-separated chain of alternatives, each a
    /// `+`-separated merge of selectors; `/` and `+` inside brackets do not separate.
    pub fn parse(s: &str) -> (r: Result<FormatExpr, Error>)
        requires
            s@.len() <= i32::MAX,
            !(parse_spec(s@) is Panics),
        ensures
            match (r, parse_spec(s@)) {
                (Ok(e), Parsed::Value(v)) => e.view_expr() == v,
                (Err(e), Parsed::Rejected) => e is FormatParse,
                _ => false,
            },
    {
        match FormatExpr::try_parse(s) {
            Some(r) => r,
            None => vstd::pervasive::unreached(),
        }
    }
}

proof fn lemma_lead_ws(t: Seq<char>)
    ensures
        lead_ws(t) <= t.len(),
        lead_ws(t) < t.len() ==> !is_ws(t[lead_ws(t) as int]),
        forall|i: int| 0 <= i < lead_ws(t) ==> is_ws(#[trigger] t[i]),
    decreases t.len(),
{
    if t.len() > 0 && is_ws(t[0]) {
        lemma_lead_ws(t.drop_first());
        assert forall|i: int| 0 <= i < lead_ws(t) implies is_ws(#[trigger] t[i]) by {
            if i > 0 {
                assert(t[i] == t.drop_first()[i - 1]);
            }
        }
    }
}

proof fn lemma_trail_ws(t: Seq<char>)
    ensures
        trail_ws(t) <= t.len(),
        trail_ws(t) < t.len() ==> !is_ws(t[t.len() - 1 - trail_ws(t)]),
    decreases t.len(),
{
    if t.len() > 0 && is_ws(t.last()) {
        lemma_trail_ws(t.drop_last());
    }
}

/// Trimming twice is trimming once.
pub proof fn trim_idempotent(t: Seq<char>)
    ensures
        trim(trim(t)) == trim(t),
{
    lemma_lead_ws(t);
    let u = t.skip(lead_ws(t) as int);
    lemma_trail_ws(u);
    let w = trim(t);
    assert(w == u.take(u.len() - trail_ws(u)));
    if w.len() > 0 {
        assert(w[0] == u[0]);
        assert(u[0] == t[lead_ws(t) as int]);
        assert(lead_ws(w) == 0);
        assert(w.last() == u[u.len() - 1 - trail_ws(u)]);
        assert(trail_ws(w) == 0);
    } else {
        assert(lead_ws(w) == 0);
        assert(trail_ws(w) == 0);
    }
    assert(w.skip(0) =~= w);
    assert(w.take(w.len() as int) =~= w);
}

/// White space around a format expression does not change how it parses.
pub proof fn parse_ignores_surrounding_whitespace(s: Seq<char>)
    ensures
        parse_spec(s) == parse_spec(trim(s)),
{
    trim_idempotent(s);
}

/// Stream indices in format expressions count from 1: a selector made of the digits of
/// `n >= 1` picks the stream at 0-based index `n - 1`, and `0` is rejected.
pub proof fn index_selectors_count_from_one(d: Seq<char>)
    requires
        d.len() > 0,
        forall|i: int| 0 <= i < d.len() ==> is_digit(d[i]),
        decimal(d) <= usize::MAX,
    ensures
        decimal(d) >= 1 ==> single_spec(d) == Parsed::Value(ExprView::Index((decimal(d) - 1) as nat)),
        decimal(d) == 0 ==> single_spec(d) is Rejected,
{
    assert(is_digit(d[0]));
    assert(parse_usize(d) == Some(decimal(d)));
}

/// A lower-case ASCII letter.
pub open spec fn is_lower_letter(c: char) -> bool {
    'a' <= c <= 'z'
}

/// Text without delimiters or brackets splits into one part, the whole of it.
proof fn lemma_split_plain(t: Seq<char>, delim: char, i: int, start: int)
    requires
        0 <= i <= t.len(),
        !is_lower_letter(delim),
        forall|j: int| 0 <= j < t.len() ==> is_lower_letter(#[trigger] t[j]),
    ensures
        split_from(t, delim, i, 0, start) == seq![(start, t.len() as int)],
    decreases t.len() - i,
{
    if i < t.len() {
        lemma_split_plain(t, delim, i + 1, start);
    }
}

/// A keyword made of lower-case letters (other than the `b`, `best`, `w` and `worst`
/// shorthands) parses, with any white space around it, to the single selector of its
/// base format without filters.
proof fn lemma_keyword_parses(s: Seq<char>)
    requires
        trim(s).len() > 0,
        forall|j: int| 0 <= j < trim(s).len() ==> is_lower_letter(#[trigger] trim(s)[j]),
        trim(s) != "b"@,
        trim(s) != "best"@,
        trim(s) != "w"@,
        trim(s) != "worst"@,
        base_keyword(trim(s)) is Some,
    ensures
        parse_spec(s) == Parsed::Value(
            ExprView::Single { base: base_keyword(trim(s))->0, filters: Seq::empty() },
        ),
{
    let k = trim(s);
    trim_idempotent(s);
    lemma_split_plain(k, '/', 0, 0);
    lemma_split_plain(k, '+', 0, 0);
    lemma_split_plain(k, '[', 0, 0);
    assert(k.subrange(0, k.len() as int) =~= k);
    assert(split_top_level(k, '/') == seq![(0int, k.len() as int)]);
    assert(part(k, split_top_level(k, '/'), 0) == k);
    assert(split_top_level(k, '+') == seq![(0int, k.len() as int)]);
    assert(part(k, split_top_level(k, '+'), 0) == k);
    assert(!is_digit(k[0]) && k[0] != '+');
    assert(digits_value(k) is None);
    assert(parse_usize(k) is None);
    assert(!(exists|i: int| is_first(k, '[', i)));
    assert(find(k, '[') is None);
    let e: Seq<char> = Seq::empty();
    assert(!(exists|i: int| is_first(e, '[', i)));
    assert(filters_spec(e) == Parsed::Value(Seq::<FilterView>::empty()));
}

/// Each keyword, with any white space around it, parses to the single selector of the
/// base format it names, without filters: `bv`/`bestvideo`, `ba`/`bestaudio`, `s`/`sub`,
/// `wv`/`worstvideo`, `wa`/`worstaudio`, and `all`, `allvid`, `allaud`, `allsub`,
/// `allund`.
pub proof fn keywords_parse_to_their_selectors(s: Seq<char>)
    ensures
        trim(s) == "bv"@ ==> parse_spec(s) == Parsed::Value(
            ExprView::Single { base: BaseFormat::BestVideo, filters: Seq::empty() },
        ),
        trim(s) == "bestvideo"@ ==> parse_spec(s) == Parsed::Value(
            ExprView::Single { base: BaseFormat::BestVideo, filters: Seq::empty() },
        ),
        trim(s) == "ba"@ ==> parse_spec(s) == Parsed::Value(
            ExprView::Single { base: BaseFormat::BestAudio, filters: Seq::empty() },
        ),
        trim(s) == "bestaudio"@ ==> parse_spec(s) == Parsed::Value(
            ExprView::Single { base: BaseFormat::BestAudio, filters: Seq::empty() },
        ),
        trim(s) == "s"@ ==> parse_spec(s) == Parsed::Value(
            ExprView::Single { base: BaseFormat::Sub, filters: Seq::empty() },
        ),
        trim(s) == "sub"@ ==> parse_spec(s) == Parsed::Value(
            ExprView::Single { base: BaseFormat::Sub, filters: Seq::empty() },
        ),
        trim(s) == "wv"@ ==> parse_spec(s) == Parsed::Value(
            ExprView::Single { base: BaseFormat::WorstVideo, filters: Seq::empty() },
        ),
        trim(s) == "worstvideo"@ ==> parse_spec(s) == Parsed::Value(
            ExprView::Single { base: BaseFormat::WorstVideo, filters: Seq::empty() },
        ),
        trim(s) == "wa"@ ==> parse_spec(s) == Parsed::Value(
            ExprView::Single { base: BaseFormat::WorstAudio, filters: Seq::empty() },
        ),
        trim(s) == "worstaudio"@ ==> parse_spec(s) == Parsed::Value(
            ExprView::Single { base: BaseFormat::WorstAudio, filters: Seq::empty() },
        ),
        trim(s) == "all"@ ==> parse_spec(s) == Parsed::Value(
            ExprView::Single { base: BaseFormat::All, filters: Seq::empty() },
        ),
        trim(s) == "allvid"@ ==> parse_spec(s) == Parsed::Value(
            ExprView::Single { base: BaseFormat::AllVid, filters: Seq::empty() },
        ),
        trim(s) == "allaud"@ ==> parse_spec(s) == Parsed::Value(
            ExprView::Single { base: BaseFormat::AllAud, filters: Seq::empty() },
        ),
        trim(s) == "allsub"@ ==> parse_spec(s) == Parsed::Value(
            ExprView::Single { base: BaseFormat::AllSub, filters: Seq::empty() },
        ),
        trim(s) == "allund"@ ==> parse_spec(s) == Parsed::Value(
            ExprView::Single { base: BaseFormat::AllUnd, filters: Seq::empty() },
        ),
{
    if trim(s) == "bv"@ {
        assert(parse_spec(s) == Parsed::Value(
            ExprView::Single { base: BaseFormat::BestVideo, filters: Seq::empty() },
        )) by {
            reveal_strlit("bv");
            reveal_strlit("bestvideo");
            reveal_strlit("ba");
            assert(trim(s)[1] != "ba"@[1]);
            reveal_strlit("bestaudio");
            reveal_strlit("s");
            reveal_strlit("sub");
            reveal_strlit("wv");
            assert(trim(s)[0] != "wv"@[0]);
            reveal_strlit("worstvideo");
            reveal_strlit("wa");
            assert(trim(s)[0] != "wa"@[0]);
            reveal_strlit("worstaudio");
            reveal_strlit("all");
            reveal_strlit("allvid");
            reveal_strlit("allaud");
            reveal_strlit("allsub");
            reveal_strlit("allund");
            reveal_strlit("b");
            reveal_strlit("best");
            reveal_strlit("w");
            reveal_strlit("worst");
            assert(forall|j: int| 0 <= j < trim(s).len() ==> is_lower_letter(#[trigger] trim(s)[j]));
            assert(base_keyword(trim(s)) == Some(BaseFormat::BestVideo));
            lemma_keyword_parses(s);
        }
    }
    if trim(s) == "bestvideo"@ {
        assert(parse_spec(s) == Parsed::Value(
            ExprView::Single { base: BaseFormat::BestVideo, filters: Seq::empty() },
        )) by {
            reveal_strlit("bestvideo");
            reveal_strlit("bv");
            reveal_strlit("ba");
            reveal_strlit("bestaudio");
            assert(trim(s)[4] != "bestaudio"@[4]);
            reveal_strlit("s");
            reveal_strlit("sub");
            reveal_strlit("wv");
            reveal_strlit("worstvideo");
            reveal_strlit("wa");
            reveal_strlit("worstaudio");
            reveal_strlit("all");
            reveal_strlit("allvid");
            reveal_strlit("allaud");
            reveal_strlit("allsub");
            reveal_strlit("allund");
            reveal_strlit("b");
            reveal_strlit("best");
            reveal_strlit("w");
            reveal_strlit("worst");
            assert(forall|j: int| 0 <= j < trim(s).len() ==> is_lower_letter(#[trigger] trim(s)[j]));
            assert(base_keyword(trim(s)) == Some(BaseFormat::BestVideo));
            lemma_keyword_parses(s);
        }
    }
    if trim(s) == "ba"@ {
        assert(parse_spec(s) == Parsed::Value(
            ExprView::Single { base: BaseFormat::BestAudio, filters: Seq::empty() },
        )) by {
            reveal_strlit("ba");
            reveal_strlit("bv");
            assert(trim(s)[1] != "bv"@[1]);
            reveal_strlit("bestvideo");
            reveal_strlit("bestaudio");
            reveal_strlit("s");
            reveal_strlit("sub");
            reveal_strlit("wv");
            assert(trim(s)[0] != "wv"@[0]);
            reveal_strlit("worstvideo");
            reveal_strlit("wa");
            assert(trim(s)[0] != "wa"@[0]);
            reveal_strlit("worstaudio");
            reveal_strlit("all");
            reveal_strlit("allvid");
            reveal_strlit("allaud");
            reveal_strlit("allsub");
            reveal_strlit("allund");
            reveal_strlit("b");
            reveal_strlit("best");
            reveal_strlit("w");
            reveal_strlit("worst");
            assert(forall|j: int| 0 <= j < trim(s).len() ==> is_lower_letter(#[trigger] trim(s)[j]));
            assert(base_keyword(trim(s)) == Some(BaseFormat::BestAudio));
            lemma_keyword_parses(s);
        }
    }
    if trim(s) == "bestaudio"@ {
        assert(parse_spec(s) == Parsed::Value(
            ExprView::Single { base: BaseFormat::BestAudio, filters: Seq::empty() },
        )) by {
            reveal_strlit("bestaudio");
            reveal_strlit("bv");
            reveal_strlit("bestvideo");
            assert(trim(s)[4] != "bestvideo"@[4]);
            reveal_strlit("ba");
            reveal_strlit("s");
            reveal_strlit("sub");
            reveal_strlit("wv");
            reveal_strlit("worstvideo");
            reveal_strlit("wa");
            reveal_strlit("worstaudio");
            reveal_strlit("all");
            reveal_strlit("allvid");
            reveal_strlit("allaud");
            reveal_strlit("allsub");
            reveal_strlit("allund");
            reveal_strlit("b");
            reveal_strlit("best");
            reveal_strlit("w");
            reveal_strlit("worst");
            assert(forall|j: int| 0 <= j < trim(s).len() ==> is_lower_letter(#[trigger] trim(s)[j]));
            assert(base_keyword(trim(s)) == Some(BaseFormat::BestAudio));
            lemma_keyword_parses(s);
        }
    }
    if trim(s) == "s"@ {
        assert(parse_spec(s) == Parsed::Value(
            ExprView::Single { base: BaseFormat::Sub, filters: Seq::empty() },
        )) by {
            reveal_strlit("s");
            reveal_strlit("bv");
            reveal_strlit("bestvideo");
            reveal_strlit("ba");
            reveal_strlit("bestaudio");
            reveal_strlit("sub");
            reveal_strlit("wv");
            reveal_strlit("worstvideo");
            reveal_strlit("wa");
            reveal_strlit("worstaudio");
            reveal_strlit("all");
            reveal_strlit("allvid");
            reveal_strlit("allaud");
            reveal_strlit("allsub");
            reveal_strlit("allund");
            reveal_strlit("b");
            assert(trim(s)[0] != "b"@[0]);
            reveal_strlit("best");
            reveal_strlit("w");
            assert(trim(s)[0] != "w"@[0]);
            reveal_strlit("worst");
            assert(forall|j: int| 0 <= j < trim(s).len() ==> is_lower_letter(#[trigger] trim(s)[j]));
            assert(base_keyword(trim(s)) == Some(BaseFormat::Sub));
            lemma_keyword_parses(s);
        }
    }
    if trim(s) == "sub"@ {
        assert(parse_spec(s) == Parsed::Value(
            ExprView::Single { base: BaseFormat::Sub, filters: Seq::empty() },
        )) by {
            reveal_strlit("sub");
            reveal_strlit("bv");
            reveal_strlit("bestvideo");
            reveal_strlit("ba");
            reveal_strlit("bestaudio");
            reveal_strlit("s");
            reveal_strlit("wv");
            reveal_strlit("worstvideo");
            reveal_strlit("wa");
            reveal_strlit("worstaudio");
            reveal_strlit("all");
            assert(trim(s)[0] != "all"@[0]);
            reveal_strlit("allvid");
            reveal_strlit("allaud");
            reveal_strlit("allsub");
            reveal_strlit("allund");
            reveal_strlit("b");
            reveal_strlit("best");
            reveal_strlit("w");
            reveal_strlit("worst");
            assert(forall|j: int| 0 <= j < trim(s).len() ==> is_lower_letter(#[trigger] trim(s)[j]));
            assert(base_keyword(trim(s)) == Some(BaseFormat::Sub));
            lemma_keyword_parses(s);
        }
    }
    if trim(s) == "wv"@ {
        assert(parse_spec(s) == Parsed::Value(
            ExprView::Single { base: BaseFormat::WorstVideo, filters: Seq::empty() },
        )) by {
            reveal_strlit("wv");
            reveal_strlit("bv");
            assert(trim(s)[0] != "bv"@[0]);
            reveal_strlit("bestvideo");
            reveal_strlit("ba");
            assert(trim(s)[0] != "ba"@[0]);
            reveal_strlit("bestaudio");
            reveal_strlit("s");
            reveal_strlit("sub");
            reveal_strlit("worstvideo");
            reveal_strlit("wa");
            assert(trim(s)[1] != "wa"@[1]);
            reveal_strlit("worstaudio");
            reveal_strlit("all");
            reveal_strlit("allvid");
            reveal_strlit("allaud");
            reveal_strlit("allsub");
            reveal_strlit("allund");
            reveal_strlit("b");
            reveal_strlit("best");
            reveal_strlit("w");
            reveal_strlit("worst");
            assert(forall|j: int| 0 <= j < trim(s).len() ==> is_lower_letter(#[trigger] trim(s)[j]));
            assert(base_keyword(trim(s)) == Some(BaseFormat::WorstVideo));
            lemma_keyword_parses(s);
        }
    }
    if trim(s) == "worstvideo"@ {
        assert(parse_spec(s) == Parsed::Value(
            ExprView::Single { base: BaseFormat::WorstVideo, filters: Seq::empty() },
        )) by {
            reveal_strlit("worstvideo");
            reveal_strlit("bv");
            reveal_strlit("bestvideo");
            reveal_strlit("ba");
            reveal_strlit("bestaudio");
            reveal_strlit("s");
            reveal_strlit("sub");
            reveal_strlit("wv");
            reveal_strlit("wa");
            reveal_strlit("worstaudio");
            assert(trim(s)[5] != "worstaudio"@[5]);
            reveal_strlit("all");
            reveal_strlit("allvid");
            reveal_strlit("allaud");
            reveal_strlit("allsub");
            reveal_strlit("allund");
            reveal_strlit("b");
            reveal_strlit("best");
            reveal_strlit("w");
            reveal_strlit("worst");
            assert(forall|j: int| 0 <= j < trim(s).len() ==> is_lower_letter(#[trigger] trim(s)[j]));
            assert(base_keyword(trim(s)) == Some(BaseFormat::WorstVideo));
            lemma_keyword_parses(s);
        }
    }
    if trim(s) == "wa"@ {
        assert(parse_spec(s) == Parsed::Value(
            ExprView::Single { base: BaseFormat::WorstAudio, filters: Seq::empty() },
        )) by {
            reveal_strlit("wa");
            reveal_strlit("bv");
            assert(trim(s)[0] != "bv"@[0]);
            reveal_strlit("bestvideo");
            reveal_strlit("ba");
            assert(trim(s)[0] != "ba"@[0]);
            reveal_strlit("bestaudio");
            reveal_strlit("s");
            reveal_strlit("sub");
            reveal_strlit("wv");
            assert(trim(s)[1] != "wv"@[1]);
            reveal_strlit("worstvideo");
            reveal_strlit("worstaudio");
            reveal_strlit("all");
            reveal_strlit("allvid");
            reveal_strlit("allaud");
            reveal_strlit("allsub");
            reveal_strlit("allund");
            reveal_strlit("b");
            reveal_strlit("best");
            reveal_strlit("w");
            reveal_strlit("worst");
            assert(forall|j: int| 0 <= j < trim(s).len() ==> is_lower_letter(#[trigger] trim(s)[j]));
            assert(base_keyword(trim(s)) == Some(BaseFormat::WorstAudio));
            lemma_keyword_parses(s);
        }
    }
    if trim(s) == "worstaudio"@ {
        assert(parse_spec(s) == Parsed::Value(
            ExprView::Single { base: BaseFormat::WorstAudio, filters: Seq::empty() },
        )) by {
            reveal_strlit("worstaudio");
            reveal_strlit("bv");
            reveal_strlit("bestvideo");
            reveal_strlit("ba");
            reveal_strlit("bestaudio");
            reveal_strlit("s");
            reveal_strlit("sub");
            reveal_strlit("wv");
            reveal_strlit("worstvideo");
            assert(trim(s)[5] != "worstvideo"@[5]);
            reveal_strlit("wa");
            reveal_strlit("all");
            reveal_strlit("allvid");
            reveal_strlit("allaud");
            reveal_strlit("allsub");
            reveal_strlit("allund");
            reveal_strlit("b");
            reveal_strlit("best");
            reveal_strlit("w");
            reveal_strlit("worst");
            assert(forall|j: int| 0 <= j < trim(s).len() ==> is_lower_letter(#[trigger] trim(s)[j]));
            assert(base_keyword(trim(s)) == Some(BaseFormat::WorstAudio));
            lemma_keyword_parses(s);
        }
    }
    if trim(s) == "all"@ {
        assert(parse_spec(s) == Parsed::Value(
            ExprView::Single { base: BaseFormat::All, filters: Seq::empty() },
        )) by {
            reveal_strlit("all");
            reveal_strlit("bv");
            reveal_strlit("bestvideo");
            reveal_strlit("ba");
            reveal_strlit("bestaudio");
            reveal_strlit("s");
            reveal_strlit("sub");
            assert(trim(s)[0] != "sub"@[0]);
            reveal_strlit("wv");
            reveal_strlit("worstvideo");
            reveal_strlit("wa");
            reveal_strlit("worstaudio");
            reveal_strlit("allvid");
            reveal_strlit("allaud");
            reveal_strlit("allsub");
            reveal_strlit("allund");
            reveal_strlit("b");
            reveal_strlit("best");
            reveal_strlit("w");
            reveal_strlit("worst");
            assert(forall|j: int| 0 <= j < trim(s).len() ==> is_lower_letter(#[trigger] trim(s)[j]));
            assert(base_keyword(trim(s)) == Some(BaseFormat::All));
            lemma_keyword_parses(s);
        }
    }
    if trim(s) == "allvid"@ {
        assert(parse_spec(s) == Parsed::Value(
            ExprView::Single { base: BaseFormat::AllVid, filters: Seq::empty() },
        )) by {
            reveal_strlit("allvid");
            reveal_strlit("bv");
            reveal_strlit("bestvideo");
            reveal_strlit("ba");
            reveal_strlit("bestaudio");
            reveal_strlit("s");
            reveal_strlit("sub");
            reveal_strlit("wv");
            reveal_strlit("worstvideo");
            reveal_strlit("wa");
            reveal_strlit("worstaudio");
            reveal_strlit("all");
            reveal_strlit("allaud");
            assert(trim(s)[3] != "allaud"@[3]);
            reveal_strlit("allsub");
            assert(trim(s)[3] != "allsub"@[3]);
            reveal_strlit("allund");
            assert(trim(s)[3] != "allund"@[3]);
            reveal_strlit("b");
            reveal_strlit("best");
            reveal_strlit("w");
            reveal_strlit("worst");
            assert(forall|j: int| 0 <= j < trim(s).len() ==> is_lower_letter(#[trigger] trim(s)[j]));
            assert(base_keyword(trim(s)) == Some(BaseFormat::AllVid));
            lemma_keyword_parses(s);
        }
    }
    if trim(s) == "allaud"@ {
        assert(parse_spec(s) == Parsed::Value(
            ExprView::Single { base: BaseFormat::AllAud, filters: Seq::empty() },
        )) by {
            reveal_strlit("allaud");
            reveal_strlit("bv");
            reveal_strlit("bestvideo");
            reveal_strlit("ba");
            reveal_strlit("bestaudio");
            reveal_strlit("s");
            reveal_strlit("sub");
            reveal_strlit("wv");
            reveal_strlit("worstvideo");
            reveal_strlit("wa");
            reveal_strlit("worstaudio");
            reveal_strlit("all");
            reveal_strlit("allvid");
            assert(trim(s)[3] != "allvid"@[3]);
            reveal_strlit("allsub");
            assert(trim(s)[3] != "allsub"@[3]);
            reveal_strlit("allund");
            assert(trim(s)[3] != "allund"@[3]);
            reveal_strlit("b");
            reveal_strlit("best");
            reveal_strlit("w");
            reveal_strlit("worst");
            assert(forall|j: int| 0 <= j < trim(s).len() ==> is_lower_letter(#[trigger] trim(s)[j]));
            assert(base_keyword(trim(s)) == Some(BaseFormat::AllAud));
            lemma_keyword_parses(s);
        }
    }
    if trim(s) == "allsub"@ {
        assert(parse_spec(s) == Parsed::Value(
            ExprView::Single { base: BaseFormat::AllSub, filters: Seq::empty() },
        )) by {
            reveal_strlit("allsub");
            reveal_strlit("bv");
            reveal_strlit("bestvideo");
            reveal_strlit("ba");
            reveal_strlit("bestaudio");
            reveal_strlit("s");
            reveal_strlit("sub");
            reveal_strlit("wv");
            reveal_strlit("worstvideo");
            reveal_strlit("wa");
            reveal_strlit("worstaudio");
            reveal_strlit("all");
            reveal_strlit("allvid");
            assert(trim(s)[3] != "allvid"@[3]);
            reveal_strlit("allaud");
            assert(trim(s)[3] != "allaud"@[3]);
            reveal_strlit("allund");
            assert(trim(s)[3] != "allund"@[3]);
            reveal_strlit("b");
            reveal_strlit("best");
            reveal_strlit("w");
            reveal_strlit("worst");
            assert(forall|j: int| 0 <= j < trim(s).len() ==> is_lower_letter(#[trigger] trim(s)[j]));
            assert(base_keyword(trim(s)) == Some(BaseFormat::AllSub));
            lemma_keyword_parses(s);
        }
    }
    if trim(s) == "allund"@ {
        assert(parse_spec(s) == Parsed::Value(
            ExprView::Single { base: BaseFormat::AllUnd, filters: Seq::empty() },
        )) by {
            reveal_strlit("allund");
            reveal_strlit("bv");
            reveal_strlit("bestvideo");
            reveal_strlit("ba");
            reveal_strlit("bestaudio");
            reveal_strlit("s");
            reveal_strlit("sub");
            reveal_strlit("wv");
            reveal_strlit("worstvideo");
            reveal_strlit("wa");
            reveal_strlit("worstaudio");
            reveal_strlit("all");
            reveal_strlit("allvid");
            assert(trim(s)[3] != "allvid"@[3]);
            reveal_strlit("allaud");
            assert(trim(s)[3] != "allaud"@[3]);
            reveal_strlit("allsub");
            assert(trim(s)[3] != "allsub"@[3]);
            reveal_strlit("b");
            reveal_strlit("best");
            reveal_strlit("w");
            reveal_strlit("worst");
            assert(forall|j: int| 0 <= j < trim(s).len() ==> is_lower_letter(#[trigger] trim(s)[j]));
            assert(base_keyword(trim(s)) == Some(BaseFormat::AllUnd));
            lemma_keyword_parses(s);
        }
    }
}

} // verus!
