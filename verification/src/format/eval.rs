//! Evaluation of format expressions against a list of streams.
//!
//! Whether a stream passes a filter is decided outside (it compares numbers and text of
//! the stream's metadata); evaluation takes those verdicts as a table with one row per
//! stream and one column per filter of the expression, numbered in the order of
//! `FormatExpr::filters`.
use crate::format::parser::{views, BaseFormat, ExprView, Filter, FilterView, FormatExpr};
use crate::playlist::types::MediaType;
use vstd::prelude::*;

verus! {

/// The filters of an expression, in order (left to right).
pub open spec fn flatten(e: ExprView) -> Seq<FilterView>
    decreases e, 0nat,
{
    match e {
        ExprView::Fallback(es) => flatten_from(es, 0),
        ExprView::Merge(es) => flatten_from(es, 0),
        ExprView::Single { filters, .. } => filters,
        ExprView::Index(_) => Seq::empty(),
    }
}

/// The filters of the expressions `es[k..]`, in order.
pub open spec fn flatten_from(es: Seq<ExprView>, k: int) -> Seq<FilterView>
    decreases es, es.len() - k,
{
    if k < 0 || k >= es.len() {
        Seq::empty()
    } else {
        flatten(es[k]) + flatten_from(es, k + 1)
    }
}

/// Whether streams of kind `k` are among those that `b` picks from.
pub open spec fn kind_ok(b: BaseFormat, k: MediaType) -> bool {
    match b {
        BaseFormat::All => true,
        BaseFormat::AllVid | BaseFormat::BestVideo | BaseFormat::WorstVideo => k == MediaType::Video,
        BaseFormat::AllAud | BaseFormat::BestAudio | BaseFormat::WorstAudio => k == MediaType::Audio,
        BaseFormat::AllSub | BaseFormat::Sub => k == MediaType::Subtitles,
        BaseFormat::AllUnd => k == MediaType::Undefined,
    }
}

/// Stream `i` passes the `n` filters numbered from `first`.
pub open spec fn passes(table: Seq<Seq<bool>>, i: int, first: int, n: int) -> bool {
    forall|j: int| 0 <= j < n ==> #[trigger] table[i][first + j]
}

/// The streams from `i` on that are of the right kind and pass the filters.
pub open spec fn candidates(
    b: BaseFormat,
    kinds: Seq<MediaType>,
    table: Seq<Seq<bool>>,
    first: int,
    n: int,
    i: int,
) -> Seq<int>
    decreases kinds.len() - i,
{
    if i < 0 || i >= kinds.len() {
        Seq::empty()
    } else {
        (if kind_ok(b, kinds[i]) && passes(table, i, first, n) {
            seq![i]
        } else {
            Seq::empty()
        }) + candidates(b, kinds, table, first, n, i + 1)
    }
}

/// What a single selector picks: the first candidate for `bv`, `ba` and `s`, the last
/// for `wv` and `wa`, all of them for the `all` keywords.
pub open spec fn single_eval(
    b: BaseFormat,
    kinds: Seq<MediaType>,
    table: Seq<Seq<bool>>,
    first: int,
    n: int,
) -> Seq<int> {
    let c = candidates(b, kinds, table, first, n, 0);
    match b {
        BaseFormat::BestVideo | BaseFormat::BestAudio | BaseFormat::Sub => if c.len() == 0 {
            c
        } else {
            seq![c[0]]
        },
        BaseFormat::WorstVideo | BaseFormat::WorstAudio => if c.len() == 0 {
            c
        } else {
            seq![c.last()]
        },
        _ => c,
    }
}

/// `acc` with the indices `xs` added in order, each at most once.
pub open spec fn union(acc: Seq<int>, xs: Seq<int>) -> Seq<int>
    decreases xs.len(),
{
    if xs.len() == 0 {
        acc
    } else {
        union(
            if acc.contains(xs[0]) {
                acc
            } else {
                acc.push(xs[0])
            },
            xs.drop_first(),
        )
    }
}

/// The streams an expression selects, its filters numbered from `first`: a fallback
/// takes the first alternative that selects something for each of its parts, a merge
/// the union of what its parts select.
pub open spec fn eval_spec(e: ExprView, kinds: Seq<MediaType>, table: Seq<Seq<bool>>, first: int) -> Seq<
    int,
>
    decreases e, 0nat,
{
    match e {
        ExprView::Fallback(es) => match strict_first(es, kinds, table, first, 0) {
            Some(r) => r,
            None => Seq::empty(),
        },
        ExprView::Merge(es) => merge_from(es, kinds, table, first, 0, Seq::empty()),
        ExprView::Single { base, filters } => single_eval(base, kinds, table, first, filters.len() as int),
        ExprView::Index(i) => if i < kinds.len() {
            seq![i as int]
        } else {
            Seq::empty()
        },
    }
}

/// The union of what the parts `es[k..]` select, added to `acc`.
pub open spec fn merge_from(
    es: Seq<ExprView>,
    kinds: Seq<MediaType>,
    table: Seq<Seq<bool>>,
    first: int,
    k: int,
    acc: Seq<int>,
) -> Seq<int>
    decreases es, es.len() - k,
{
    if k < 0 || k >= es.len() {
        acc
    } else {
        merge_from(
            es,
            kinds,
            table,
            first + flatten(es[k]).len(),
            k + 1,
            union(acc, eval_spec(es[k], kinds, table, first)),
        )
    }
}

/// What an expression selects when every part must select something, or `None`.
pub open spec fn strict_spec(
    e: ExprView,
    kinds: Seq<MediaType>,
    table: Seq<Seq<bool>>,
    first: int,
) -> Option<Seq<int>>
    decreases e, 0nat,
{
    match e {
        ExprView::Fallback(es) => strict_first(es, kinds, table, first, 0),
        ExprView::Merge(es) => strict_all(es, kinds, table, first, 0, Seq::empty()),
        ExprView::Single { base, filters } => {
            let r = single_eval(base, kinds, table, first, filters.len() as int);
            if r.len() == 0 {
                None
            } else {
                Some(r)
            }
        },
        ExprView::Index(i) => if i < kinds.len() {
            Some(seq![i as int])
        } else {
            None
        },
    }
}

/// The first of the alternatives `es[k..]` that selects strictly.
pub open spec fn strict_first(
    es: Seq<ExprView>,
    kinds: Seq<MediaType>,
    table: Seq<Seq<bool>>,
    first: int,
    k: int,
) -> Option<Seq<int>>
    decreases es, es.len() - k,
{
    if k < 0 || k >= es.len() {
        None
    } else {
        match strict_spec(es[k], kinds, table, first) {
            Some(r) => Some(r),
            None => strict_first(es, kinds, table, first + flatten(es[k]).len(), k + 1),
        }
    }
}

/// The union of what the parts `es[k..]` select strictly, added to `acc`; `None` if one
/// of them selects nothing.
pub open spec fn strict_all(
    es: Seq<ExprView>,
    kinds: Seq<MediaType>,
    table: Seq<Seq<bool>>,
    first: int,
    k: int,
    acc: Seq<int>,
) -> Option<Seq<int>>
    decreases es, es.len() - k,
{
    if k < 0 || k >= es.len() {
        Some(acc)
    } else {
        match strict_spec(es[k], kinds, table, first) {
            None => None,
            Some(r) => strict_all(es, kinds, table, first + flatten(es[k]).len(), k + 1, union(acc, r)),
        }
    }
}

/// Stream `j` is of the kind `b` picks from and passes the filters.
pub open spec fn selectable(
    b: BaseFormat,
    kinds: Seq<MediaType>,
    table: Seq<Seq<bool>>,
    first: int,
    n: int,
    j: int,
) -> bool {
    0 <= j < kinds.len() && kind_ok(b, kinds[j]) && passes(table, j, first, n)
}

/// The candidates from `i` on are the selectable streams from `i` on, in increasing
/// order.
proof fn lemma_candidates(
    b: BaseFormat,
    kinds: Seq<MediaType>,
    table: Seq<Seq<bool>>,
    first: int,
    n: int,
    i: int,
)
    requires
        0 <= i,
    ensures
        ({
            let c = candidates(b, kinds, table, first, n, i);
            &&& forall|k: int| 0 <= k < c.len() ==> i <= #[trigger] c[k] && selectable(b, kinds, table, first, n, c[k])
            &&& forall|k1: int, k2: int| 0 <= k1 < k2 < c.len() ==> c[k1] < c[k2]
            &&& forall|j: int| i <= j && #[trigger] selectable(b, kinds, table, first, n, j) ==> c.contains(j)
        }),
    decreases kinds.len() - i,
{
    if i < kinds.len() {
        lemma_candidates(b, kinds, table, first, n, i + 1);
        let c = candidates(b, kinds, table, first, n, i);
        let rest = candidates(b, kinds, table, first, n, i + 1);
        if kind_ok(b, kinds[i]) && passes(table, i, first, n) {
            assert(c == seq![i] + rest);
            assert forall|j: int| i <= j && #[trigger] selectable(b, kinds, table, first, n, j) implies c.contains(j) by {
                if j == i {
                    assert(c[0] == i);
                } else {
                    let k = choose|k: int| 0 <= k < rest.len() && rest[k] == j;
                    assert(c[k + 1] == j);
                }
            }
        } else {
            assert(c =~= rest);
            assert forall|j: int| i <= j && #[trigger] selectable(b, kinds, table, first, n, j) implies c.contains(j) by {
                assert(j != i);
            }
        }
    } else {
        assert forall|j: int| i <= j && #[trigger] selectable(b, kinds, table, first, n, j) implies false by {
        }
    }
}

/// A best or worst selector picks one stream where some stream of its kind passes the
/// filters, none otherwise: for `bv`, `ba` and `s` the first such stream, for `wv` and
/// `wa` the last.
pub proof fn best_and_worst_pick_the_ends(
    b: BaseFormat,
    kinds: Seq<MediaType>,
    table: Seq<Seq<bool>>,
    first: int,
    n: int,
)
    requires
        b is BestVideo || b is BestAudio || b is Sub || b is WorstVideo || b is WorstAudio,
    ensures
        ({
            let r = single_eval(b, kinds, table, first, n);
            &&& r.len() <= 1
            &&& r.len() == 0 <==> !exists|j: int| #[trigger] selectable(b, kinds, table, first, n, j)
            &&& r.len() == 1 ==> selectable(b, kinds, table, first, n, r[0])
            &&& r.len() == 1 && (b is BestVideo || b is BestAudio || b is Sub) ==> forall|j: int|
                0 <= j < r[0] ==> !#[trigger] selectable(b, kinds, table, first, n, j)
            &&& r.len() == 1 && (b is WorstVideo || b is WorstAudio) ==> forall|j: int|
                r[0] < j ==> !#[trigger] selectable(b, kinds, table, first, n, j)
        }),
{
    lemma_candidates(b, kinds, table, first, n, 0);
    let c = candidates(b, kinds, table, first, n, 0);
    let r = single_eval(b, kinds, table, first, n);
    if c.len() > 0 {
        assert(selectable(b, kinds, table, first, n, c[0]));
        assert forall|j: int| 0 <= j < c[0] implies !#[trigger] selectable(b, kinds, table, first, n, j) by {
            if selectable(b, kinds, table, first, n, j) {
                let k = choose|k: int| 0 <= k < c.len() && c[k] == j;
                if k > 0 {
                    assert(c[0] < c[k]);
                }
            }
        }
        let l = c.len() - 1;
        assert(c.last() == c[l]);
        assert(selectable(b, kinds, table, first, n, c[l]));
        assert forall|j: int| c[l] < j implies !#[trigger] selectable(b, kinds, table, first, n, j) by {
            if selectable(b, kinds, table, first, n, j) {
                let k = choose|k: int| 0 <= k < c.len() && c[k] == j;
                if k < l {
                    assert(c[k] < c[l]);
                }
            }
        }
    } else {
        assert forall|j: int| !#[trigger] selectable(b, kinds, table, first, n, j) by {
            if selectable(b, kinds, table, first, n, j) {
                assert(c.contains(j));
            }
        }
    }
}

/// Where strict evaluation selects something, lenient evaluation selects the same: a
/// single selector or an index fails strictly exactly where it selects nothing, and a
/// fallback gives the first alternative that succeeds strictly, or nothing.
pub proof fn strict_agrees_with_lenient(
    e: ExprView,
    kinds: Seq<MediaType>,
    table: Seq<Seq<bool>>,
    first: int,
)
    ensures
        strict_spec(e, kinds, table, first) matches Some(r) ==> r == eval_spec(
            e,
            kinds,
            table,
            first,
        ),
        (e is Single || e is Index) ==> (strict_spec(e, kinds, table, first) is None <==> eval_spec(
            e,
            kinds,
            table,
            first,
        ).len() == 0),
        e is Fallback ==> eval_spec(e, kinds, table, first) == match strict_spec(
            e,
            kinds,
            table,
            first,
        ) {
            Some(r) => r,
            None => Seq::<int>::empty(),
        },
    decreases e, 0nat,
{
    match e {
        ExprView::Merge(es) => lemma_strict_all_merges(es, kinds, table, first, 0, Seq::empty()),
        _ => {},
    }
}

/// Where every part of a merge selects something strictly, the strict union is the
/// lenient one.
proof fn lemma_strict_all_merges(
    es: Seq<ExprView>,
    kinds: Seq<MediaType>,
    table: Seq<Seq<bool>>,
    first: int,
    k: int,
    acc: Seq<int>,
)
    ensures
        strict_all(es, kinds, table, first, k, acc) matches Some(r) ==> r == merge_from(
            es,
            kinds,
            table,
            first,
            k,
            acc,
        ),
    decreases es, es.len() - k,
{
    if 0 <= k < es.len() {
        strict_agrees_with_lenient(es[k], kinds, table, first);
        lemma_strict_all_merges(
            es,
            kinds,
            table,
            first + flatten(es[k]).len(),
            k + 1,
            union(acc, eval_spec(es[k], kinds, table, first)),
        );
    }
}

/// Whether `s` names each stream at most once, and only streams among the first `n`.
pub open spec fn valid_selection(s: Seq<int>, n: int) -> bool {
    &&& s.no_duplicates()
    &&& forall|k: int| 0 <= k < s.len() ==> 0 <= #[trigger] s[k] < n
}

proof fn lemma_union_valid(acc: Seq<int>, xs: Seq<int>, n: int)
    requires
        valid_selection(acc, n),
        forall|k: int| 0 <= k < xs.len() ==> 0 <= #[trigger] xs[k] < n,
    ensures
        valid_selection(union(acc, xs), n),
    decreases xs.len(),
{
    if xs.len() > 0 {
        let next = if acc.contains(xs[0]) {
            acc
        } else {
            acc.push(xs[0])
        };
        if !acc.contains(xs[0]) {
            assert forall|a: int, b: int| 0 <= a < b < next.len() implies next[a] != next[b] by {
                if b == acc.len() {
                    assert(next[a] == acc[a]);
                }
            }
            assert forall|k: int| 0 <= k < next.len() implies 0 <= #[trigger] next[k] < n by {
                if k < acc.len() {
                    assert(next[k] == acc[k]);
                }
            }
        }
        let rest = xs.drop_first();
        assert forall|k: int| 0 <= k < rest.len() implies 0 <= #[trigger] rest[k] < n by {
            assert(rest[k] == xs[k + 1]);
        }
        lemma_union_valid(next, rest, n);
    }
}

proof fn lemma_candidates_valid(
    b: BaseFormat,
    kinds: Seq<MediaType>,
    table: Seq<Seq<bool>>,
    first: int,
    n: int,
    i: int,
)
    requires
        0 <= i,
    ensures
        forall|k: int|
            0 <= k < candidates(b, kinds, table, first, n, i).len() ==> i <= #[trigger] candidates(
                b,
                kinds,
                table,
                first,
                n,
                i,
            )[k] < kinds.len(),
        forall|x: int, y: int|
            0 <= x < y < candidates(b, kinds, table, first, n, i).len() ==> #[trigger] candidates(
                b,
                kinds,
                table,
                first,
                n,
                i,
            )[x] < #[trigger] candidates(b, kinds, table, first, n, i)[y],
    decreases kinds.len() - i,
{
    if i < kinds.len() {
        lemma_candidates_valid(b, kinds, table, first, n, i + 1);
        let head: Seq<int> = if kind_ok(b, kinds[i]) && passes(table, i, first, n) {
            seq![i]
        } else {
            Seq::empty()
        };
        let rest = candidates(b, kinds, table, first, n, i + 1);
        let c = candidates(b, kinds, table, first, n, i);
        assert(c == head + rest);
        assert forall|k: int| 0 <= k < c.len() implies i <= #[trigger] c[k] < kinds.len() by {
            if k >= head.len() {
                assert(c[k] == rest[k - head.len()]);
            }
        }
        assert forall|x: int, y: int| 0 <= x < y < c.len() implies #[trigger] c[x] < #[trigger] c[y] by {
            if x >= head.len() {
                assert(c[x] == rest[x - head.len()]);
            }
            assert(c[y] == rest[y - head.len()]);
        }
    }
}

proof fn lemma_single_valid(
    b: BaseFormat,
    kinds: Seq<MediaType>,
    table: Seq<Seq<bool>>,
    first: int,
    n: int,
)
    ensures
        valid_selection(single_eval(b, kinds, table, first, n), kinds.len() as int),
{
    lemma_candidates_valid(b, kinds, table, first, n, 0);
    let c = candidates(b, kinds, table, first, n, 0);
    assert forall|x: int, y: int| 0 <= x < y < c.len() implies c[x] != c[y] by {
        assert(c[x] < c[y]);
    }
    if c.len() > 0 {
        assert(c[0] < kinds.len());
        assert(c[c.len() - 1] < kinds.len());
    }
}

proof fn lemma_eval_valid(e: ExprView, kinds: Seq<MediaType>, table: Seq<Seq<bool>>, first: int)
    ensures
        valid_selection(eval_spec(e, kinds, table, first), kinds.len() as int),
        strict_spec(e, kinds, table, first) matches Some(r) ==> valid_selection(
            r,
            kinds.len() as int,
        ),
    decreases e, 0nat,
{
    let n = kinds.len() as int;
    match e {
        ExprView::Fallback(es) => {
            lemma_strict_first_valid(es, kinds, table, first, 0);
        },
        ExprView::Merge(es) => {
            lemma_merge_valid(es, kinds, table, first, 0, Seq::empty());
            lemma_strict_all_valid(es, kinds, table, first, 0, Seq::empty());
        },
        ExprView::Single { base, filters } => {
            lemma_single_valid(base, kinds, table, first, filters.len() as int);
        },
        ExprView::Index(i) => {},
    }
}

proof fn lemma_merge_valid(
    es: Seq<ExprView>,
    kinds: Seq<MediaType>,
    table: Seq<Seq<bool>>,
    first: int,
    k: int,
    acc: Seq<int>,
)
    requires
        valid_selection(acc, kinds.len() as int),
    ensures
        valid_selection(merge_from(es, kinds, table, first, k, acc), kinds.len() as int),
    decreases es, es.len() - k,
{
    if 0 <= k < es.len() {
        lemma_eval_valid(es[k], kinds, table, first);
        let r = eval_spec(es[k], kinds, table, first);
        lemma_union_valid(acc, r, kinds.len() as int);
        lemma_merge_valid(
            es,
            kinds,
            table,
            first + flatten(es[k]).len(),
            k + 1,
            union(acc, r),
        );
    }
}

proof fn lemma_strict_first_valid(
    es: Seq<ExprView>,
    kinds: Seq<MediaType>,
    table: Seq<Seq<bool>>,
    first: int,
    k: int,
)
    ensures
        strict_first(es, kinds, table, first, k) matches Some(r) ==> valid_selection(
            r,
            kinds.len() as int,
        ),
    decreases es, es.len() - k,
{
    if 0 <= k < es.len() {
        lemma_eval_valid(es[k], kinds, table, first);
        lemma_strict_first_valid(es, kinds, table, first + flatten(es[k]).len(), k + 1);
    }
}

proof fn lemma_strict_all_valid(
    es: Seq<ExprView>,
    kinds: Seq<MediaType>,
    table: Seq<Seq<bool>>,
    first: int,
    k: int,
    acc: Seq<int>,
)
    requires
        valid_selection(acc, kinds.len() as int),
    ensures
        strict_all(es, kinds, table, first, k, acc) matches Some(r) ==> valid_selection(
            r,
            kinds.len() as int,
        ),
    decreases es, es.len() - k,
{
    if 0 <= k < es.len() {
        lemma_eval_valid(es[k], kinds, table, first);
        match strict_spec(es[k], kinds, table, first) {
            Some(r) => {
                lemma_union_valid(acc, r, kinds.len() as int);
                lemma_strict_all_valid(
                    es,
                    kinds,
                    table,
                    first + flatten(es[k]).len(),
                    k + 1,
                    union(acc, r),
                );
            },
            None => {},
        }
    }
}

/// A format expression selects only streams that exist, and each at most once.
pub proof fn selection_is_valid(e: ExprView, kinds: Seq<MediaType>, table: Seq<Seq<bool>>)
    ensures
        valid_selection(eval_spec(e, kinds, table, 0), kinds.len() as int),
{
    lemma_eval_valid(e, kinds, table, 0);
}

/// Indices as integers.
pub open spec fn idx(v: Seq<usize>) -> Seq<int> {
    v.map_values(|x: usize| x as int)
}

/// The verdict table as sequences.
pub open spec fn table_view(t: Seq<Vec<bool>>) -> Seq<Seq<bool>> {
    t.map_values(|r: Vec<bool>| r@)
}

/// The views of filters.
pub open spec fn filter_views(v: Seq<Filter>) -> Seq<FilterView> {
    v.map_values(|f: Filter| f.view_filter())
}

/// The table has a row for each stream, each with a verdict for the filters numbered
/// below `n`.
pub open spec fn table_fits(kinds: Seq<MediaType>, table: Seq<Vec<bool>>, n: int) -> bool {
    &&& table.len() == kinds.len()
    &&& forall|i: int| 0 <= i < table.len() ==> n <= (#[trigger] table[i])@.len()
}

proof fn lemma_views(v: Seq<FormatExpr>)
    ensures
        views(v).len() == v.len(),
        forall|k: int| 0 <= k < v.len() ==> #[trigger] views(v)[k] == v[k].view_expr(),
    decreases v.len(),
{
    if v.len() > 0 {
        lemma_views(v.drop_last());
        assert forall|k: int| 0 <= k < v.len() implies #[trigger] views(v)[k] == v[k].view_expr() by {
            if k < v.len() - 1 {
                assert(views(v)[k] == views(v.drop_last())[k]);
                assert(v.drop_last()[k] == v[k]);
            }
        }
    }
}

proof fn lemma_flatten_from_len(es: Seq<ExprView>, k: int)
    requires
        0 <= k <= es.len(),
    ensures
        k < es.len() ==> flatten_from(es, k).len() == flatten(es[k]).len() + flatten_from(
            es,
            k + 1,
        ).len(),
        k == es.len() ==> flatten_from(es, k).len() == 0,
{
}

/// Whether `acc` holds `x`.
fn holds(acc: &Vec<usize>, x: usize) -> (b: bool)
    ensures
        b == idx(acc@).contains(x as int),
{
    let mut i: usize = 0;
    while i < acc.len()
        invariant
            i <= acc@.len(),
            forall|j: int| 0 <= j < i ==> acc@[j] != x,
        decreases acc.len() - i,
    {
        if acc[i] == x {
            proof {
                assert(idx(acc@)[i as int] == x as int);
            }
            return true;
        }
        i = i + 1;
    }
    proof {
        if idx(acc@).contains(x as int) {
            let j = choose|j: int| 0 <= j < idx(acc@).len() && idx(acc@)[j] == x as int;
            assert(acc@[j] == x);
        }
    }
    false
}

/// Adds the indices `xs` to `acc` in order, each at most once.
fn union_into(acc: &mut Vec<usize>, xs: &Vec<usize>)
    ensures
        idx(final(acc)@) == union(idx(old(acc)@), idx(xs@)),
{
    let mut j: usize = 0;
    proof {
        assert(idx(xs@).skip(0) =~= idx(xs@));
    }
    while j < xs.len()
        invariant
            j <= xs@.len(),
            union(idx(acc@), idx(xs@).skip(j as int)) == union(idx(old(acc)@), idx(xs@)),
        decreases xs.len() - j,
    {
        let x = xs[j];
        let ghost rest = idx(xs@).skip(j as int);
        proof {
            assert(rest[0] == x as int);
            assert(rest.drop_first() =~= idx(xs@).skip(j + 1));
        }
        if !holds(acc, x) {
            let ghost before = idx(acc@);
            acc.push(x);
            proof {
                assert(idx(acc@) =~= before.push(x as int));
            }
        }
        j = j + 1;
    }
    proof {
        assert(idx(xs@).skip(xs@.len() as int) =~= Seq::<int>::empty());
    }
}

/// Whether stream `i` passes the `n` filters numbered from `first`.
fn passes_exec(row: &Vec<bool>, first: usize, n: usize) -> (b: bool)
    requires
        first + n <= row@.len(),
    ensures
        b == (forall|j: int| 0 <= j < n ==> #[trigger] row@[first + j]),
{
    let len = row.len();
    let mut j: usize = 0;
    while j < n
        invariant
            first + n <= row@.len(),
            len == row@.len(),
            j <= n,
            forall|m: int| 0 <= m < j ==> #[trigger] row@[first + m],
        decreases n - j,
    {
        if !row[first + j] {
            return false;
        }
        j = j + 1;
    }
    true
}

fn kind_ok_exec(b: BaseFormat, k: MediaType) -> (r: bool)
    ensures
        r == kind_ok(b, k),
{
    match b {
        BaseFormat::All => true,
        BaseFormat::AllVid | BaseFormat::BestVideo | BaseFormat::WorstVideo => k == MediaType::Video,
        BaseFormat::AllAud | BaseFormat::BestAudio | BaseFormat::WorstAudio => k == MediaType::Audio,
        BaseFormat::AllSub | BaseFormat::Sub => k == MediaType::Subtitles,
        BaseFormat::AllUnd => k == MediaType::Undefined,
    }
}

/// What a single selector picks.
fn single_exec(
    b: BaseFormat,
    kinds: &Vec<MediaType>,
    table: &Vec<Vec<bool>>,
    first: usize,
    n: usize,
) -> (r: Vec<usize>)
    requires
        table_fits(kinds@, table@, first + n),
    ensures
        idx(r@) == single_eval(b, kinds@, table_view(table@), first as int, n as int),
{
    let ghost tv = table_view(table@);
    let mut c: Vec<usize> = Vec::new();
    let mut i: usize = 0;
    proof {
        assert(idx(c@) + candidates(b, kinds@, tv, first as int, n as int, 0) =~= candidates(
            b,
            kinds@,
            tv,
            first as int,
            n as int,
            0,
        ));
    }
    while i < kinds.len()
        invariant
            tv == table_view(table@),
            table_fits(kinds@, table@, first + n),
            i <= kinds@.len(),
            idx(c@) + candidates(b, kinds@, tv, first as int, n as int, i as int) == candidates(
                b,
                kinds@,
                tv,
                first as int,
                n as int,
                0,
            ),
        decreases kinds.len() - i,
    {
        let ghost before = idx(c@);
        proof {
            assert(tv[i as int] == table@[i as int]@);
        }
        let ok = kind_ok_exec(b, kinds[i]) && passes_exec(&table[i], first, n);
        proof {
            assert(ok == (kind_ok(b, kinds@[i as int]) && passes(tv, i as int, first as int, n as int)));
        }
        if ok {
            c.push(i);
            proof {
                assert(idx(c@) =~= before + seq![i as int]);
            }
        }
        let ghost here = if ok {
            seq![i as int]
        } else {
            Seq::<int>::empty()
        };
        proof {
            assert(idx(c@) =~= before + here);
            assert(before + here + candidates(b, kinds@, tv, first as int, n as int, i + 1) =~= before
                + (here + candidates(b, kinds@, tv, first as int, n as int, i + 1)));
        }
        i = i + 1;
    }
    proof {
        assert(idx(c@) + Seq::<int>::empty() =~= idx(c@));
    }
    match b {
        BaseFormat::BestVideo | BaseFormat::BestAudio | BaseFormat::Sub => {
            if c.len() == 0 {
                c
            } else {
                let mut one: Vec<usize> = Vec::new();
                one.push(c[0]);
                proof {
                    assert(idx(one@) =~= seq![idx(c@)[0]]);
                }
                one
            }
        },
        BaseFormat::WorstVideo | BaseFormat::WorstAudio => {
            if c.len() == 0 {
                c
            } else {
                let mut one: Vec<usize> = Vec::new();
                one.push(c[c.len() - 1]);
                proof {
                    assert(idx(one@) =~= seq![idx(c@).last()]);
                }
                one
            }
        },
        _ => c,
    }
}

impl FormatExpr {
    /// The number of filters of the expression.
    #[verifier::loop_isolation(false)]
    fn filter_count(&self) -> (n: usize)
        requires
            flatten(self.view_expr()).len() <= usize::MAX,
        ensures
            n == flatten(self.view_expr()).len(),
        decreases self,
    {
        match self {
            FormatExpr::Fallback(v) | FormatExpr::Merge(v) => {
                let ghost vs = views(v@);
                proof {
                    lemma_views(v@);
                }
                let mut total: usize = 0;
                let mut k: usize = 0;
                while k < v.len()
                    invariant
                        vs == views(v@),
                        vs.len() == v@.len(),
                        forall|j: int| 0 <= j < v@.len() ==> #[trigger] vs[j] == v@[j].view_expr(),
                        flatten_from(vs, 0).len() <= usize::MAX,
                        k <= v@.len(),
                        total + flatten_from(vs, k as int).len() == flatten_from(vs, 0).len(),
                    decreases v.len() - k,
                {
                    proof {
                        lemma_flatten_from_len(vs, k as int);
                        assert(vs[k as int] == v@[k as int].view_expr());
                    }
                    proof {
                        assert(decreases_to!(self => v@[k as int]));
                    }
                    let c = v[k].filter_count();
                    total = total + c;
                    k = k + 1;
                }
                total
            },
            FormatExpr::Single { filters, .. } => filters.len(),
            FormatExpr::Index(_) => 0,
        }
    }

    /// Appends the filters of the expression, in order.
    #[verifier::loop_isolation(false)]
    fn collect_filters(&self, out: &mut Vec<Filter>)
        ensures
            filter_views(final(out)@) == filter_views(old(out)@) + flatten(self.view_expr()),
        decreases self,
    {
        match self {
            FormatExpr::Fallback(v) | FormatExpr::Merge(v) => {
                let ghost vs = views(v@);
                proof {
                    lemma_views(v@);
                    assert(filter_views(out@) + flatten_from(vs, 0) =~= filter_views(old(out)@)
                        + flatten_from(vs, 0));
                }
                let mut k: usize = 0;
                while k < v.len()
                    invariant
                        vs == views(v@),
                        vs.len() == v@.len(),
                        forall|j: int| 0 <= j < v@.len() ==> #[trigger] vs[j] == v@[j].view_expr(),
                        k <= v@.len(),
                        filter_views(out@) + flatten_from(vs, k as int) == filter_views(old(out)@)
                            + flatten_from(vs, 0),
                    decreases v.len() - k,
                {
                    let ghost before = filter_views(out@);
                    proof {
                        assert(vs[k as int] == v@[k as int].view_expr());
                    }
                    proof {
                        assert(decreases_to!(self => v@[k as int]));
                    }
                    v[k].collect_filters(out);
                    proof {
                        assert(before + flatten(vs[k as int]) + flatten_from(vs, k + 1) =~= before
                            + flatten_from(vs, k as int));
                    }
                    k = k + 1;
                }
                proof {
                    assert(filter_views(out@) + Seq::<FilterView>::empty() =~= filter_views(out@));
                }
            },
            FormatExpr::Single { filters, .. } => {
                let mut i: usize = 0;
                let ghost start = filter_views(out@);
                while i < filters.len()
                    invariant
                        i <= filters@.len(),
                        start == filter_views(old(out)@),
                        filter_views(out@) == start + filter_views(filters@).take(i as int),
                    decreases filters.len() - i,
                {
                    let f = &filters[i];
                    let value = f.value.clone();
                    let ghost before = filter_views(out@);
                    out.push(Filter { field: f.field, op: f.op, value });
                    proof {
                        assert(filter_views(out@) =~= before.push(filters@[i as int].view_filter()));
                        assert(filter_views(filters@).take(i + 1) =~= filter_views(filters@).take(
                            i as int,
                        ).push(filters@[i as int].view_filter()));
                    }
                    i = i + 1;
                }
                proof {
                    assert(filter_views(filters@).take(filters@.len() as int) =~= filter_views(
                        filters@,
                    ));
                }
            },
            FormatExpr::Index(_) => {
                proof {
                    assert(filter_views(out@) + Seq::<FilterView>::empty() =~= filter_views(out@));
                }
            },
        }
    }

    /// The filters of the expression, in order (left to right): the columns of the
    /// verdict table that `eval_table` takes.
    pub fn filters(&self) -> (r: Vec<Filter>)
        ensures
            filter_views(r@) == flatten(self.view_expr()),
    {
        let mut out: Vec<Filter> = Vec::new();
        proof {
            assert(filter_views(out@) =~= Seq::<FilterView>::empty());
        }
        self.collect_filters(&mut out);
        proof {
            assert(Seq::<FilterView>::empty() + flatten(self.view_expr()) =~= flatten(
                self.view_expr(),
            ));
        }
        out
    }
}

impl FormatExpr {
    /// The streams the expression selects, its filters numbered from `first`.
    #[verifier::loop_isolation(false)]
    fn eval_at(&self, kinds: &Vec<MediaType>, table: &Vec<Vec<bool>>, first: usize) -> (r: Vec<
        usize,
    >)
        requires
            first + flatten(self.view_expr()).len() <= usize::MAX,
            table_fits(kinds@, table@, first + flatten(self.view_expr()).len()),
        ensures
            idx(r@) == eval_spec(self.view_expr(), kinds@, table_view(table@), first as int),
        decreases self,
    {
        let ghost tv = table_view(table@);
        match self {
            FormatExpr::Fallback(v) => {
                let ghost vs = views(v@);
                proof {
                    lemma_views(v@);
                }
                let mut f = first;
                let mut k: usize = 0;
                while k < v.len()
                    invariant
                        k <= v@.len(),
                        strict_first(vs, kinds@, tv, first as int, 0) == strict_first(
                            vs,
                            kinds@,
                            tv,
                            f as int,
                            k as int,
                        ),
                        f + flatten_from(vs, k as int).len() == first + flatten_from(vs, 0).len(),
                    decreases v.len() - k,
                {
                    proof {
                        lemma_flatten_from_len(vs, k as int);
                        assert(vs[k as int] == v@[k as int].view_expr());
                        assert(decreases_to!(self => v@[k as int]));
                    }
                    match v[k].strict_at(kinds, table, f) {
                        Some(r) => {
                            return r;
                        },
                        None => {},
                    }
                    let c = v[k].filter_count();
                    f = f + c;
                    k = k + 1;
                }
                Vec::new()
            },
            FormatExpr::Merge(v) => {
                let ghost vs = views(v@);
                proof {
                    lemma_views(v@);
                }
                let mut acc: Vec<usize> = Vec::new();
                proof {
                    assert(idx(acc@) =~= Seq::<int>::empty());
                }
                let mut f = first;
                let mut k: usize = 0;
                while k < v.len()
                    invariant
                        k <= v@.len(),
                        merge_from(vs, kinds@, tv, first as int, 0, Seq::empty()) == merge_from(
                            vs,
                            kinds@,
                            tv,
                            f as int,
                            k as int,
                            idx(acc@),
                        ),
                        f + flatten_from(vs, k as int).len() == first + flatten_from(vs, 0).len(),
                    decreases v.len() - k,
                {
                    proof {
                        lemma_flatten_from_len(vs, k as int);
                        assert(vs[k as int] == v@[k as int].view_expr());
                        assert(decreases_to!(self => v@[k as int]));
                    }
                    let r = v[k].eval_at(kinds, table, f);
                    union_into(&mut acc, &r);
                    let c = v[k].filter_count();
                    f = f + c;
                    k = k + 1;
                }
                acc
            },
            FormatExpr::Single { base, filters } => single_exec(*base, kinds, table, first, filters.len()),
            FormatExpr::Index(i) => {
                let mut r: Vec<usize> = Vec::new();
                if *i < kinds.len() {
                    r.push(*i);
                }
                proof {
                    assert(idx(r@) =~= eval_spec(self.view_expr(), kinds@, tv, first as int));
                }
                r
            },
        }
    }

    /// What the expression selects when every part must select something.
    #[verifier::loop_isolation(false)]
    fn strict_at(&self, kinds: &Vec<MediaType>, table: &Vec<Vec<bool>>, first: usize) -> (r: Option<
        Vec<usize>,
    >)
        requires
            first + flatten(self.view_expr()).len() <= usize::MAX,
            table_fits(kinds@, table@, first + flatten(self.view_expr()).len()),
        ensures
            match strict_spec(self.view_expr(), kinds@, table_view(table@), first as int) {
                Some(s) => r matches Some(v) && idx(v@) == s,
                None => r is None,
            },
        decreases self,
    {
        let ghost tv = table_view(table@);
        match self {
            FormatExpr::Fallback(v) => {
                let ghost vs = views(v@);
                proof {
                    lemma_views(v@);
                }
                let mut f = first;
                let mut k: usize = 0;
                while k < v.len()
                    invariant
                        k <= v@.len(),
                        strict_first(vs, kinds@, tv, first as int, 0) == strict_first(
                            vs,
                            kinds@,
                            tv,
                            f as int,
                            k as int,
                        ),
                        f + flatten_from(vs, k as int).len() == first + flatten_from(vs, 0).len(),
                    decreases v.len() - k,
                {
                    proof {
                        lemma_flatten_from_len(vs, k as int);
                        assert(vs[k as int] == v@[k as int].view_expr());
                        assert(decreases_to!(self => v@[k as int]));
                    }
                    match v[k].strict_at(kinds, table, f) {
                        Some(r) => {
                            return Some(r);
                        },
                        None => {},
                    }
                    let c = v[k].filter_count();
                    f = f + c;
                    k = k + 1;
                }
                None
            },
            FormatExpr::Merge(v) => {
                let ghost vs = views(v@);
                proof {
                    lemma_views(v@);
                }
                let mut acc: Vec<usize> = Vec::new();
                proof {
                    assert(idx(acc@) =~= Seq::<int>::empty());
                }
                let mut f = first;
                let mut k: usize = 0;
                while k < v.len()
                    invariant
                        k <= v@.len(),
                        strict_all(vs, kinds@, tv, first as int, 0, Seq::empty()) == strict_all(
                            vs,
                            kinds@,
                            tv,
                            f as int,
                            k as int,
                            idx(acc@),
                        ),
                        f + flatten_from(vs, k as int).len() == first + flatten_from(vs, 0).len(),
                    decreases v.len() - k,
                {
                    proof {
                        lemma_flatten_from_len(vs, k as int);
                        assert(vs[k as int] == v@[k as int].view_expr());
                        assert(decreases_to!(self => v@[k as int]));
                    }
                    match v[k].strict_at(kinds, table, f) {
                        Some(r) => {
                            union_into(&mut acc, &r);
                        },
                        None => {
                            return None;
                        },
                    }
                    let c = v[k].filter_count();
                    f = f + c;
                    k = k + 1;
                }
                Some(acc)
            },
            FormatExpr::Single { base, filters } => {
                let r = single_exec(*base, kinds, table, first, filters.len());
                if r.len() == 0 {
                    None
                } else {
                    Some(r)
                }
            },
            FormatExpr::Index(i) => {
                if *i < kinds.len() {
                    let mut r: Vec<usize> = Vec::new();
                    r.push(*i);
                    proof {
                        assert(idx(r@) =~= seq![*i as int]);
                    }
                    Some(r)
                } else {
                    None
                }
            },
        }
    }

    /// The streams (0-based indices, in order) that the expression selects, given the
    /// kind of each stream and, for each stream, whether it passes each of the filters
    /// of `filters()`.
    pub fn eval_table(&self, kinds: &Vec<MediaType>, table: &Vec<Vec<bool>>) -> (r: Vec<usize>)
        requires
            flatten(self.view_expr()).len() <= usize::MAX,
            table_fits(kinds@, table@, flatten(self.view_expr()).len() as int),
        ensures
            idx(r@) == eval_spec(self.view_expr(), kinds@, table_view(table@), 0),
    {
        self.eval_at(kinds, table, 0)
    }
}

} // verus!
