//! Choosing streams: the list offered for selection, the numbers typed at a plain
//! prompt, and keeping the chosen streams.
use crate::format::parser::{
    chars_of, parse_usize, parse_usize_exec, trim, trim_idempotent, trim_range,
};
use crate::playlist::types::MediaType;
use vstd::prelude::*;

verus! {

/// How the streams chosen by a format expression are confirmed.
#[derive(Clone, Copy, Debug, PartialEq, Eq, Structural)]
pub enum SelectType {
    /// An interactive multi-select prompt.
    Modern,
    /// No prompt: the chosen streams are used as they are.
    NoPrompt,
    /// A plain numbered list read from standard input.
    Raw,
}

impl Default for SelectType {
    fn default() -> (r: Self)
        ensures
            r == SelectType::NoPrompt,
    {
        SelectType::NoPrompt
    }
}

/// An entry of the list of streams offered for selection.
#[derive(Clone, Copy, Debug, PartialEq, Eq, Structural)]
pub enum ChoiceItem {
    /// The heading above the streams of one media type.
    Separator(MediaType),
    /// A stream, by its position among all streams, and whether it starts out chosen.
    Stream { index: usize, checked: bool },
}

/// The positions among `kinds[0..n]` that hold `t`, in order.
pub open spec fn positions(kinds: Seq<MediaType>, t: MediaType, n: int) -> Seq<usize>
    decreases n,
{
    if n <= 0 {
        seq![]
    } else if kinds[n - 1] == t {
        positions(kinds, t, n - 1).push((n - 1) as usize)
    } else {
        positions(kinds, t, n - 1)
    }
}

/// The list entry of the stream at position `i`.
pub open spec fn stream_item(i: usize, selected: Seq<usize>) -> ChoiceItem {
    ChoiceItem::Stream { index: i, checked: selected.contains(i) }
}

/// The entries for the streams of type `t`: a heading, then each such stream in order;
/// nothing where there is no stream of that type.
pub open spec fn group_items(kinds: Seq<MediaType>, t: MediaType, selected: Seq<usize>) -> Seq<
    ChoiceItem,
> {
    let g = positions(kinds, t, kinds.len() as int);
    if g.len() == 0 {
        seq![]
    } else {
        seq![ChoiceItem::Separator(t)] + g.map_values(|i: usize| stream_item(i, selected))
    }
}

/// The selection list: video, then audio, subtitle and undefined streams.
pub open spec fn choices_spec(kinds: Seq<MediaType>, selected: Seq<usize>) -> Seq<ChoiceItem> {
    group_items(kinds, MediaType::Video, selected) + group_items(kinds, MediaType::Audio, selected)
        + group_items(kinds, MediaType::Subtitles, selected) + group_items(
        kinds,
        MediaType::Undefined,
        selected,
    )
}

/// The stream an entry stands for, if it is not a heading.
pub open spec fn choice_target(c: ChoiceItem) -> Option<usize> {
    match c {
        ChoiceItem::Separator(_) => None,
        ChoiceItem::Stream { index, .. } => Some(index),
    }
}

fn contains_index(v: &[usize], x: usize) -> (b: bool)
    ensures
        b == v@.contains(x),
{
    let mut i: usize = 0;
    while i < v.len()
        invariant
            i <= v@.len(),
            forall|j: int| 0 <= j < i ==> v@[j] != x,
        decreases v.len() - i,
    {
        if v[i] == x {
            return true;
        }
        i = i + 1;
    }
    false
}

/// Appends the entries for the streams of type `t`.
fn push_group(
    kinds: &Vec<MediaType>,
    t: MediaType,
    selected: &[usize],
    items: &mut Vec<ChoiceItem>,
    targets: &mut Vec<Option<usize>>,
)
    requires
        old(targets)@ == old(items)@.map_values(|c: ChoiceItem| choice_target(c)),
    ensures
        final(items)@ == old(items)@ + group_items(kinds@, t, selected@),
        final(targets)@ == final(items)@.map_values(|c: ChoiceItem| choice_target(c)),
{
    let mut group: Vec<usize> = Vec::new();
    let mut i: usize = 0;
    while i < kinds.len()
        invariant
            i <= kinds@.len(),
            group@ == positions(kinds@, t, i as int),
        decreases kinds.len() - i,
    {
        if kinds[i] == t {
            group.push(i);
        }
        i = i + 1;
    }
    if group.len() == 0 {
        proof {
            assert(items@ + group_items(kinds@, t, selected@) =~= items@);
        }
        return ;
    }
    let ghost start = items@;
    let ghost start_targets = targets@;
    items.push(ChoiceItem::Separator(t));
    targets.push(None);
    let mut j: usize = 0;
    while j < group.len()
        invariant
            j <= group@.len(),
            group@ == positions(kinds@, t, kinds@.len() as int),
            items@ == start + seq![ChoiceItem::Separator(t)] + group@.take(j as int).map_values(
                |i: usize| stream_item(i, selected@),
            ),
            start_targets == start.map_values(|c: ChoiceItem| choice_target(c)),
            targets@ == items@.map_values(|c: ChoiceItem| choice_target(c)),
        decreases group.len() - j,
    {
        let index = group[j];
        let checked = contains_index(selected, index);
        let ghost before = items@;
        items.push(ChoiceItem::Stream { index, checked });
        targets.push(Some(index));
        proof {
            assert(group@.take(j + 1) =~= group@.take(j as int).push(index));
            assert(items@ =~= start + seq![ChoiceItem::Separator(t)] + group@.take(
                j + 1,
            ).map_values(|i: usize| stream_item(i, selected@)));
            assert(targets@ =~= items@.map_values(|c: ChoiceItem| choice_target(c)));
        }
        j = j + 1;
    }
    proof {
        assert(group@.take(group@.len() as int) =~= group@);
        assert(items@ =~= start + group_items(kinds@, t, selected@));
    }
}

/// The list offered for selection, with the stream each entry stands for (`None` for
/// headings): for each media type in turn (video, audio, subtitles, undefined) that has
/// streams, a heading and then those streams in their order, each checked when it is
/// among `selected`.
pub fn build_choices(kinds: &Vec<MediaType>, selected: &[usize]) -> (r: (
    Vec<ChoiceItem>,
    Vec<Option<usize>>,
))
    ensures
        r.0@ == choices_spec(kinds@, selected@),
        r.1@ == r.0@.map_values(|c: ChoiceItem| choice_target(c)),
{
    let mut items: Vec<ChoiceItem> = Vec::new();
    let mut targets: Vec<Option<usize>> = Vec::new();
    proof {
        assert(targets@ =~= items@.map_values(|c: ChoiceItem| choice_target(c)));
    }
    push_group(kinds, MediaType::Video, selected, &mut items, &mut targets);
    push_group(kinds, MediaType::Audio, selected, &mut items, &mut targets);
    push_group(kinds, MediaType::Subtitles, selected, &mut items, &mut targets);
    push_group(kinds, MediaType::Undefined, selected, &mut items, &mut targets);
    proof {
        assert(items@ =~= choices_spec(kinds@, selected@));
    }
    (items, targets)
}

/// The streams of the entries that start out checked, in list order.
pub open spec fn checked_streams(items: Seq<ChoiceItem>) -> Seq<usize>
    decreases items.len(),
{
    if items.len() == 0 {
        seq![]
    } else {
        match items.last() {
            ChoiceItem::Stream { index, checked: true } => checked_streams(items.drop_last()).push(
                index,
            ),
            _ => checked_streams(items.drop_last()),
        }
    }
}

proof fn lemma_checked_numbers_in_list(items: Seq<ChoiceItem>)
    requires
        items.len() <= usize::MAX,
    ensures
        stream_order(items).len() <= items.len(),
        forall|k: int|
            0 <= k < checked_numbers(items).len() ==> 1 <= #[trigger] checked_numbers(items)[k]
                <= stream_order(items).len(),
    decreases items.len(),
{
    if items.len() > 0 {
        let p = items.drop_last();
        lemma_checked_numbers_in_list(p);
        let cn = checked_numbers(items);
        let cp = checked_numbers(p);
        match items.last() {
            ChoiceItem::Separator(_) => {
                assert(cn == cp);
                assert(stream_order(items) == stream_order(p));
            },
            ChoiceItem::Stream { index, checked } => {
                assert(stream_order(items) == stream_order(p).push(index));
                if checked {
                    assert(cn == cp.push((stream_order(p).len() + 1) as usize));
                    assert forall|k: int| 0 <= k < cn.len() implies 1 <= #[trigger] cn[k]
                        <= stream_order(items).len() by {
                        if k < cp.len() {
                            assert(cn[k] == cp[k]);
                        }
                    }
                } else {
                    assert(cn == cp);
                }
            },
        }
    }
}

proof fn lemma_resolve_longer_order(ns: Seq<usize>, order: Seq<usize>, x: usize)
    requires
        forall|k: int| 0 <= k < ns.len() ==> 1 <= #[trigger] ns[k] <= order.len(),
    ensures
        resolve_numbers(ns, order.push(x)) == resolve_numbers(ns, order),
    decreases ns.len(),
{
    if ns.len() > 0 {
        let p = ns.drop_last();
        assert forall|k: int| 0 <= k < p.len() implies 1 <= #[trigger] p[k] <= order.len() by {
            assert(p[k] == ns[k]);
        }
        lemma_resolve_longer_order(p, order, x);
        assert(1 <= ns[ns.len() - 1] <= order.len());
    }
}

proof fn lemma_defaults_resolve(items: Seq<ChoiceItem>)
    requires
        items.len() <= usize::MAX,
    ensures
        resolve_numbers(checked_numbers(items), stream_order(items)) == checked_streams(items),
    decreases items.len(),
{
    if items.len() > 0 {
        let p = items.drop_last();
        lemma_defaults_resolve(p);
        lemma_checked_numbers_in_list(p);
        match items.last() {
            ChoiceItem::Separator(_) => {
                assert(checked_numbers(items) == checked_numbers(p));
                assert(stream_order(items) == stream_order(p));
                assert(checked_streams(items) == checked_streams(p));
            },
            ChoiceItem::Stream { index, checked } => {
                let order = stream_order(p).push(index);
                assert(stream_order(items) == order);
                lemma_resolve_longer_order(checked_numbers(p), stream_order(p), index);
                if checked {
                    let ns = checked_numbers(p).push((stream_order(p).len() + 1) as usize);
                    assert(checked_numbers(items) == ns);
                    assert(checked_streams(items) == checked_streams(p).push(index));
                    assert(ns.drop_last() =~= checked_numbers(p));
                    assert(order[stream_order(p).len() as int] == index);
                    assert(resolve_numbers(ns, order) == resolve_numbers(ns.drop_last(), order).push(
                        index,
                    ));
                } else {
                    assert(checked_numbers(items) == checked_numbers(p));
                    assert(checked_streams(items) == checked_streams(p));
                }
            },
        }
    }
}

/// A blank line at the plain prompt keeps the streams that start out checked.
pub proof fn blank_prompt_keeps_checked(input: Seq<char>, items: Seq<ChoiceItem>)
    requires
        items.len() <= usize::MAX,
        trim(input).len() == 0,
    ensures
        raw_selection_spec(input, items) == checked_streams(items),
{
    lemma_defaults_resolve(items);
}

/// The streams of the list in the order they are numbered, headings left out.
pub open spec fn stream_order(items: Seq<ChoiceItem>) -> Seq<usize>
    decreases items.len(),
{
    if items.len() == 0 {
        seq![]
    } else {
        match items.last() {
            ChoiceItem::Separator(_) => stream_order(items.drop_last()),
            ChoiceItem::Stream { index, .. } => stream_order(items.drop_last()).push(index),
        }
    }
}

/// The numbers (from 1, headings not counted) of the entries that start out checked.
pub open spec fn checked_numbers(items: Seq<ChoiceItem>) -> Seq<usize>
    decreases items.len(),
{
    if items.len() == 0 {
        seq![]
    } else {
        match items.last() {
            ChoiceItem::Stream { checked: true, .. } => checked_numbers(items.drop_last()).push(
                (stream_order(items.drop_last()).len() + 1) as usize,
            ),
            _ => checked_numbers(items.drop_last()),
        }
    }
}

/// The pieces of `t` between occurrences of `d`, as `str::split` gives them.
pub open spec fn pieces(t: Seq<char>, d: char) -> Seq<Seq<char>>
    decreases t.len(),
{
    if t.len() == 0 {
        seq![seq![]]
    } else {
        let rest = pieces(t.drop_last(), d);
        if t.last() == d {
            rest.push(seq![])
        } else {
            rest.update(rest.len() - 1, rest.last().push(t.last()))
        }
    }
}

/// The numbers among `ps`, each piece trimmed and read as `usize`; pieces that do not
/// read as one are passed over.
pub open spec fn numbers_of(ps: Seq<Seq<char>>) -> Seq<usize>
    decreases ps.len(),
{
    if ps.len() == 0 {
        seq![]
    } else {
        match parse_usize(trim(ps.last())) {
            Some(n) => numbers_of(ps.drop_last()).push(n as usize),
            None => numbers_of(ps.drop_last()),
        }
    }
}

/// The numbers typed at the prompt, comma-separated; `None` when nothing but white
/// space was typed.
pub open spec fn typed_numbers(input: Seq<char>) -> Option<Seq<usize>> {
    let t = trim(input);
    if t.len() == 0 {
        None
    } else {
        Some(numbers_of(pieces(t, ',')))
    }
}

/// The streams that list numbers (from 1) stand for; numbers outside the list are
/// passed over.
pub open spec fn resolve_numbers(ns: Seq<usize>, order: Seq<usize>) -> Seq<usize>
    decreases ns.len(),
{
    if ns.len() == 0 {
        seq![]
    } else {
        let n = ns.last();
        if 1 <= n <= order.len() {
            resolve_numbers(ns.drop_last(), order).push(order[n - 1])
        } else {
            resolve_numbers(ns.drop_last(), order)
        }
    }
}

/// What a plain prompt selects: the streams of the typed numbers, or of the checked
/// entries when nothing was typed.
pub open spec fn raw_selection_spec(input: Seq<char>, items: Seq<ChoiceItem>) -> Seq<usize> {
    let ns = match typed_numbers(input) {
        Some(ns) => ns,
        None => checked_numbers(items),
    };
    resolve_numbers(ns, stream_order(items))
}

/// The stream order and the checked entries' numbers of a selection list.
fn order_and_defaults(items: &Vec<ChoiceItem>) -> (r: (Vec<usize>, Vec<usize>))
    ensures
        r.0@ == stream_order(items@),
        r.1@ == checked_numbers(items@),
{
    let mut order: Vec<usize> = Vec::new();
    let mut defaults: Vec<usize> = Vec::new();
    let mut i: usize = 0;
    while i < items.len()
        invariant
            i <= items@.len(),
            order@ == stream_order(items@.take(i as int)),
            defaults@ == checked_numbers(items@.take(i as int)),
            order@.len() <= i,
        decreases items.len() - i,
    {
        proof {
            assert(items@.take(i + 1).drop_last() =~= items@.take(i as int));
        }
        match items[i] {
            ChoiceItem::Separator(_) => {},
            ChoiceItem::Stream { index, checked } => {
                if checked {
                    defaults.push(order.len() + 1);
                }
                order.push(index);
            },
        }
        i = i + 1;
    }
    proof {
        assert(items@.take(items@.len() as int) =~= items@);
    }
    (order, defaults)
}

/// The numbers typed at the prompt, or `None` when the input is blank.
fn typed_numbers_exec(input: &str) -> (r: Option<Vec<usize>>)
    ensures
        match (r, typed_numbers(input@)) {
            (Some(a), Some(b)) => a@ == b,
            (None, None) => true,
            _ => false,
        },
{
    let c = chars_of(input);
    let (lo, hi) = trim_range(&c, 0, c.len());
    proof {
        assert(c@.subrange(0, c@.len() as int) =~= c@);
    }
    let ghost t = c@.subrange(lo as int, hi as int);
    if lo == hi {
        return None;
    }
    let mut numbers: Vec<usize> = Vec::new();
    let mut start = lo;
    let mut i = lo;
    while i < hi
        invariant
            lo <= start <= i <= hi <= c@.len(),
            t == c@.subrange(lo as int, hi as int),
            pieces(t.take(i - lo), ',').last() == c@.subrange(start as int, i as int),
            numbers@ == numbers_of(pieces(t.take(i - lo), ',').drop_last()),
            pieces(t.take(i - lo), ',').len() >= 1,
        decreases hi - i,
    {
        let ghost p = t.take(i - lo);
        let ghost q = t.take(i - lo + 1);
        proof {
            assert(q.drop_last() =~= p);
            assert(q.last() == c@[i as int]);
        }
        if c[i] == ',' {
            let (a, b) = trim_range(&c, start, i);
            let n = parse_usize_exec(&c, a, b);
            proof {
                assert(pieces(q, ',') == pieces(p, ',').push(seq![]));
                assert(pieces(q, ',').drop_last() =~= pieces(p, ','));
                let ps = pieces(p, ',');
                assert(ps =~= ps.drop_last().push(ps.last()));
            }
            match n {
                Some(v) => {
                    numbers.push(v);
                },
                None => {},
            }
            start = i + 1;
            proof {
                assert(c@.subrange(start as int, i + 1) =~= seq![]);
            }
        } else {
            proof {
                let ps = pieces(p, ',');
                assert(pieces(q, ',') == ps.update(ps.len() - 1, ps.last().push(c@[i as int])));
                assert(pieces(q, ',').drop_last() =~= ps.drop_last());
                assert(c@.subrange(start as int, i + 1) =~= c@.subrange(start as int, i as int).push(
                    c@[i as int],
                ));
            }
        }
        i = i + 1;
    }
    let (a, b) = trim_range(&c, start, hi);
    let n = parse_usize_exec(&c, a, b);
    proof {
        assert(t.take(hi - lo) =~= t);
        let ps = pieces(t, ',');
        assert(ps =~= ps.drop_last().push(ps.last()));
        trim_idempotent(c@);
        assert(trim(input@) == t);
    }
    match n {
        Some(v) => {
            numbers.push(v);
        },
        None => {},
    }
    Some(numbers)
}

/// The streams that list numbers stand for.
fn resolve_numbers_exec(ns: &Vec<usize>, order: &Vec<usize>) -> (r: Vec<usize>)
    ensures
        r@ == resolve_numbers(ns@, order@),
{
    let mut out: Vec<usize> = Vec::new();
    let mut i: usize = 0;
    while i < ns.len()
        invariant
            i <= ns@.len(),
            out@ == resolve_numbers(ns@.take(i as int), order@),
        decreases ns.len() - i,
    {
        proof {
            assert(ns@.take(i + 1).drop_last() =~= ns@.take(i as int));
        }
        let n = ns[i];
        if 1 <= n && n <= order.len() {
            out.push(order[n - 1]);
        }
        i = i + 1;
    }
    proof {
        assert(ns@.take(ns@.len() as int) =~= ns@);
    }
    out
}

/// The streams chosen at a plain prompt: `input` is the line typed, as comma-separated
/// list numbers (from 1, headings not counted); a blank line keeps the checked entries.
/// Numbers that do not read as such, or lie outside the list, are passed over.
pub fn raw_selection(input: &str, items: &Vec<ChoiceItem>) -> (r: Vec<usize>)
    ensures
        r@ == raw_selection_spec(input@, items@),
{
    let (order, defaults) = order_and_defaults(items);
    match typed_numbers_exec(input) {
        Some(ns) => resolve_numbers_exec(&ns, &order),
        None => resolve_numbers_exec(&defaults, &order),
    }
}

/// The items whose positions are among `selected`, in their own order.
pub open spec fn kept<T>(items: Seq<T>, selected: Seq<usize>) -> Seq<T>
    decreases items.len(),
{
    if items.len() == 0 {
        seq![]
    } else if selected.contains((items.len() - 1) as usize) {
        kept(items.drop_last(), selected).push(items.last())
    } else {
        kept(items.drop_last(), selected)
    }
}

/// Keeps the streams whose positions are among `selected`, in their own order.
pub fn keep_selected<T>(items: Vec<T>, selected: &[usize]) -> (r: Vec<T>)
    ensures
        r@ == kept(items@, selected@),
{
    let ghost all = items@;
    let mut rest = items;
    let mut out: Vec<T> = Vec::new();
    while rest.len() > 0
        invariant
            kept(all, selected@) == kept(rest@, selected@) + out@,
        decreases rest.len(),
    {
        let i = rest.len() - 1;
        let ghost before = rest@;
        let keep = contains_index(selected, i);
        match rest.pop() {
            Some(x) => {
                if keep {
                    out.insert(0, x);
                    proof {
                        assert(kept(before, selected@) == kept(rest@, selected@).push(x));
                    }
                } else {
                    proof {
                        assert(kept(before, selected@) == kept(rest@, selected@));
                    }
                }
            },
            None => {},
        }
    }
    proof {
        assert(kept(rest@, selected@) =~= seq![]);
    }
    out
}

} // verus!
