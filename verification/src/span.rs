//! Stretches of revisions, and sets of them.

use vstd::prelude::*;

verus! {

/// A closed range of offsets in which one constraint holds throughout.
pub type Span = (i64, i64);

/// Whether a span reaches over an offset.
pub open spec fn spans_over(span: Span, off: int) -> bool {
    span.0 <= off <= span.1
}

/// Whether an offset falls inside any of these spans.
pub open spec fn covers(spans: Seq<Span>, off: int) -> bool {
    exists|i: int| 0 <= i < spans.len() && #[trigger] spans_over(spans[i], off)
}

/// Whether the spans are not empty, in offset order and apart from each other.
pub open spec fn ordered(spans: Seq<Span>) -> bool {
    &&& forall|i: int| 0 <= i < spans.len() ==> (#[trigger] spans[i]).0 <= spans[i].1
    &&& forall|i: int, j: int|
        0 <= i < j < spans.len() ==> (#[trigger] spans[i]).1 < (#[trigger] spans[j]).0
}

/// Whether the spans are ordered and at least one offset lies between each two
/// of them, so that none could be merged with the next.
pub open spec fn merged(spans: Seq<Span>) -> bool {
    &&& forall|i: int| 0 <= i < spans.len() ==> (#[trigger] spans[i]).0 <= spans[i].1
    &&& forall|i: int, j: int|
        0 <= i < j < spans.len() ==> (#[trigger] spans[i]).1 + 1 < (#[trigger] spans[j]).0
}

/// Whether a span is not empty and leaves room for the offset after it.
pub open spec fn bounded(span: Span) -> bool {
    span.0 <= span.1 < i64::MAX
}

/// Put a span where its start belongs.
pub(crate) fn insert_by_start(spans: &mut Vec<Span>, span: Span)
    requires
        forall|i: int, j: int| 0 <= i < j < old(spans)@.len() ==> old(spans)@[i].0 <= old(spans)@[j].0,
    ensures
        forall|i: int, j: int|
            0 <= i < j < final(spans)@.len() ==> final(spans)@[i].0 <= final(spans)@[j].0,
        forall|off: int| #[trigger]
            covers(final(spans)@, off) <==> covers(old(spans)@, off) || spans_over(span, off),
        (forall|i: int| 0 <= i < old(spans)@.len() ==> bounded(#[trigger] old(spans)@[i]))
            && bounded(span) ==> forall|i: int|
            0 <= i < final(spans)@.len() ==> bounded(#[trigger] final(spans)@[i]),
{
    let mut at: usize = 0;
    while at < spans.len() && spans[at].0 <= span.0
        invariant
            at <= spans@.len(),
            spans@ == old(spans)@,
            forall|i: int| 0 <= i < at ==> spans@[i].0 <= span.0,
        decreases spans@.len() - at,
    {
        at = at + 1;
    }
    spans.insert(at, span);
    proof {
        let o = old(spans)@;
        let n = spans@;
        assert(forall|i: int| 0 <= i < at ==> n[i] == o[i]);
        assert(forall|i: int| at < i < n.len() ==> n[i] == o[i - 1]);
        assert(n[at as int] == span);
        assert forall|off: int| #[trigger] covers(n, off) <==> covers(o, off) || spans_over(
            span,
            off,
        ) by {
            if covers(n, off) {
                let i = choose|i: int| 0 <= i < n.len() && #[trigger] spans_over(n[i], off);
                if i < at {
                    assert(spans_over(o[i], off));
                } else if i > at {
                    assert(spans_over(o[i - 1], off));
                }
            }
            if covers(o, off) {
                let i = choose|i: int| 0 <= i < o.len() && #[trigger] spans_over(o[i], off);
                if i < at {
                    assert(spans_over(n[i], off));
                } else {
                    assert(spans_over(n[i + 1], off));
                }
            }
            if spans_over(span, off) {
                assert(spans_over(n[at as int], off));
            }
        }
    }
}

/// Merge spans in order of their starts wherever they overlap or touch.
pub(crate) fn merge(spans: &Vec<Span>) -> (out: Vec<Span>)
    requires
        forall|a: int, b: int| 0 <= a < b < spans@.len() ==> spans@[a].0 <= spans@[b].0,
        forall|k: int| 0 <= k < spans@.len() ==> bounded(#[trigger] spans@[k]),
    ensures
        merged(out@),
        forall|off: int| #[trigger] covers(out@, off) <==> covers(spans@, off),
{
    let mut out: Vec<Span> = Vec::new();
    let mut i: usize = 0;
    while i < spans.len()
        invariant
            i <= spans@.len(),
            forall|a: int, b: int| 0 <= a < b < spans@.len() ==> spans@[a].0 <= spans@[b].0,
            forall|k: int| 0 <= k < spans@.len() ==> bounded(#[trigger] spans@[k]),
            merged(out@),
            forall|k: int| 0 <= k < out@.len() ==> (#[trigger] out@[k]).1 < i64::MAX,
            out@.len() > 0 ==> forall|k: int|
                i <= k < spans@.len() ==> out@.last().0 <= (#[trigger] spans@[k]).0,
            forall|off: int| #[trigger]
                covers(out@, off) <==> covers(spans@.take(i as int), off),
        decreases spans@.len() - i,
    {
        let ghost before = out@;
        let (first, last) = spans[i];
        let n: usize = out.len();
        if n > 0 && first <= out[n - 1].1 + 1 {
            let prev: Span = out[n - 1];
            if prev.1 < last {
                out.set(n - 1, (prev.0, last));
            }
        } else {
            out.push((first, last));
        }
        proof {
            let taken = spans@.take(i as int);
            let now = spans@.take(i + 1);
            assert forall|off: int| #[trigger] covers(out@, off) <==> covers(now, off) by {
                if covers(out@, off) {
                    let k = choose|k: int|
                        0 <= k < out@.len() && #[trigger] spans_over(out@[k], off);
                    if k < before.len() && spans_over(before[k], off) {
                        assert(covers(before, off));
                        let m = choose|m: int|
                            0 <= m < taken.len() && #[trigger] spans_over(taken[m], off);
                        assert(spans_over(now[m], off));
                    } else {
                        assert(spans_over(now[i as int], off));
                    }
                }
                if covers(now, off) {
                    let m = choose|m: int| 0 <= m < now.len() && #[trigger] spans_over(now[m], off);
                    if m < i {
                        assert(spans_over(taken[m], off));
                        assert(covers(before, off));
                        let k = choose|k: int|
                            0 <= k < before.len() && #[trigger] spans_over(before[k], off);
                        assert(spans_over(out@[k], off));
                    } else {
                        assert(spans_over(out@[out@.len() - 1], off));
                    }
                }
            }
        }
        i = i + 1;
    }
    assert(spans@.take(spans@.len() as int) =~= spans@);
    out
}

/// Whether a span is what two spans have in common.
pub open spec fn is_overlap(span: Span, a: Span, b: Span) -> bool {
    &&& span.0 == if a.0 >= b.0 {
        a.0
    } else {
        b.0
    }
    &&& span.1 == if a.1 <= b.1 {
        a.1
    } else {
        b.1
    }
}

/// Whether a span is the overlap of one span of `a` and one of `b`.
pub open spec fn is_some_overlap(span: Span, a: Seq<Span>, b: Seq<Span>) -> bool {
    exists|i: int, j: int|
        0 <= i < a.len() && 0 <= j < b.len() && #[trigger] is_overlap(span, a[i], b[j])
}

/// Intersect two sets of spans, both in offset order: every overlap of a span
/// of one with a span of the other, in offset order.
pub fn intersect(a: &[Span], b: &[Span]) -> (out: Vec<Span>)
    requires
        ordered(a@),
        ordered(b@),
    ensures
        ordered(out@),
        merged(a@) && merged(b@) ==> merged(out@),
        forall|k: int| 0 <= k < out@.len() ==> is_some_overlap(#[trigger] out@[k], a@, b@),
        forall|off: int| #[trigger] covers(out@, off) <==> covers(a@, off) && covers(b@, off),
{
    let mut out: Vec<Span> = Vec::new();
    let mut i: usize = 0;
    let mut j: usize = 0;
    while i < a.len() && j < b.len()
        invariant
            i <= a@.len(),
            j <= b@.len(),
            ordered(a@),
            ordered(b@),
            ordered(out@),
            merged(a@) && merged(b@) ==> merged(out@),
            out@.len() > 0 ==> (i < a@.len() ==> out@.last().1 < a@[i as int].0) || (j < b@.len()
                ==> out@.last().1 < b@[j as int].0),
            out@.len() > 0 && merged(a@) && merged(b@) ==> (i < a@.len() ==> out@.last().1 + 1
                < a@[i as int].0) || (j < b@.len() ==> out@.last().1 + 1 < b@[j as int].0),
            forall|k: int| 0 <= k < out@.len() ==> is_some_overlap(#[trigger] out@[k], a@, b@),
            forall|off: int, p: int, q: int|
                0 <= p < a@.len() && 0 <= q < b@.len() && #[trigger] spans_over(a@[p], off)
                    && #[trigger] spans_over(b@[q], off) ==> covers(out@, off) || (i <= p && j
                    <= q),
        decreases a@.len() + b@.len() - i - j,
    {
        let ghost before = out@;
        let ghost (i0, j0) = (i as int, j as int);
        let first: i64 = if a[i].0 >= b[j].0 {
            a[i].0
        } else {
            b[j].0
        };
        let last: i64 = if a[i].1 <= b[j].1 {
            a[i].1
        } else {
            b[j].1
        };
        if first <= last {
            out.push((first, last));
            assert(is_overlap((first, last), a@[i0], b@[j0]));
        }
        proof {
            assert forall|off: int| covers(before, off) implies #[trigger] covers(out@, off) by {
                let k = choose|k: int|
                    0 <= k < before.len() && #[trigger] spans_over(before[k], off);
                assert(spans_over(out@[k], off));
            }
            assert forall|off: int| first <= off <= last implies #[trigger] covers(out@, off) by {
                assert(spans_over(out@[out@.len() - 1], off));
            }
        }
        if a[i].1 < b[j].1 {
            i = i + 1;
        } else {
            j = j + 1;
        }
        proof {
            assert forall|off: int, p: int, q: int|
                0 <= p < a@.len() && 0 <= q < b@.len() && #[trigger] spans_over(a@[p], off)
                    && #[trigger] spans_over(b@[q], off) implies covers(out@, off) || (i <= p && j
                <= q) by {
                if !covers(before, off) {
                    assert(i0 <= p && j0 <= q);
                    if a@[i0].1 < b@[j0].1 {
                        if p == i0 && q > j0 {
                            assert(b@[j0].1 < b@[q].0);
                        }
                    } else {
                        if q == j0 && p > i0 {
                            assert(a@[i0].1 < a@[p].0);
                        }
                    }
                } else {
                    assert(covers(out@, off));
                }
            }
        }
    }
    proof {
        assert forall|off: int| #[trigger] covers(out@, off) <==> covers(a@, off) && covers(
            b@,
            off,
        ) by {
            if covers(out@, off) {
                let k = choose|k: int| 0 <= k < out@.len() && #[trigger] spans_over(out@[k], off);
                let (p, q) = choose|p: int, q: int|
                    0 <= p < a@.len() && 0 <= q < b@.len() && #[trigger] is_overlap(
                        out@[k],
                        a@[p],
                        b@[q],
                    );
                assert(spans_over(a@[p], off));
                assert(spans_over(b@[q], off));
            }
            if covers(a@, off) && covers(b@, off) {
                let p = choose|p: int| 0 <= p < a@.len() && #[trigger] spans_over(a@[p], off);
                let q = choose|q: int| 0 <= q < b@.len() && #[trigger] spans_over(b@[q], off);
                assert(spans_over(a@[p], off) && spans_over(b@[q], off));
            }
        }
    }
    out
}

/// The number of offsets in these spans, each span counted on its own.
pub open spec fn total(spans: Seq<Span>) -> int
    decreases spans.len(),
{
    if spans.len() == 0 {
        0
    } else {
        total(spans.drop_last()) + (spans.last().1 - spans.last().0 + 1)
    }
}

/// Whether counting these spans stays within the numbers at every step.
pub open spec fn countable(spans: Seq<Span>) -> bool {
    &&& forall|k: int|
        0 <= k < spans.len() ==> i64::MIN <= (#[trigger] spans[k]).1 - spans[k].0 < i64::MAX
    &&& forall|n: int|
        0 <= n <= spans.len() ==> i64::MIN <= #[trigger] total(spans.take(n)) <= i64::MAX
}

/// Count the offsets in these spans.
pub fn count(spans: &[Span]) -> (r: i64)
    requires
        countable(spans@),
    ensures
        r == total(spans@),
{
    let mut sum: i64 = 0;
    let mut i: usize = 0;
    while i < spans.len()
        invariant
            i <= spans@.len(),
            countable(spans@),
            sum == total(spans@.take(i as int)),
        decreases spans@.len() - i,
    {
        proof {
            assert(spans@.take(i + 1).drop_last() =~= spans@.take(i as int));
            assert(spans@.take(i + 1).last() == spans@[i as int]);
            assert(i64::MIN <= total(spans@.take(i + 1)) <= i64::MAX);
        }
        sum = sum + (spans[i].1 - spans[i].0 + 1);
        i = i + 1;
    }
    assert(spans@.take(spans@.len() as int) =~= spans@);
    sum
}

/// Whether an offset falls inside any of these spans.
pub fn within(spans: &[Span], off: i64) -> (r: bool)
    ensures
        r == covers(spans@, off as int),
{
    let mut i: usize = 0;
    while i < spans.len()
        invariant
            i <= spans@.len(),
            forall|k: int| 0 <= k < i ==> !#[trigger] spans_over(spans@[k], off as int),
        decreases spans@.len() - i,
    {
        if spans[i].0 <= off && off <= spans[i].1 {
            assert(spans_over(spans@[i as int], off as int));
            return true;
        }
        i = i + 1;
    }
    false
}

/// A copy of these spans.
pub fn copy_spans(spans: &Vec<Span>) -> (r: Vec<Span>)
    ensures
        r@ == spans@,
{
    let mut out: Vec<Span> = Vec::new();
    let mut i: usize = 0;
    while i < spans.len()
        invariant
            i <= spans@.len(),
            out@ == spans@.take(i as int),
        decreases spans@.len() - i,
    {
        out.push(spans[i]);
        i = i + 1;
        assert(out@ =~= spans@.take(i as int));
    }
    assert(out@ =~= spans@);
    out
}

/// Merged spans are ordered.
pub proof fn merged_is_ordered(spans: Seq<Span>)
    requires
        merged(spans),
    ensures
        ordered(spans),
{
}

/// The offsets that these spans cover.
pub open spec fn offsets(spans: Seq<Span>) -> Set<int> {
    Set::new(|off: int| covers(spans, off))
}

/// The count of spans in offset order is the number of different offsets that
/// they cover.
pub proof fn count_is_number_of_offsets(spans: Seq<Span>)
    requires
        ordered(spans),
    ensures
        offsets(spans).finite(),
        offsets(spans).len() == total(spans),
    decreases spans.len(),
{
    if spans.len() == 0 {
        assert(offsets(spans) =~= Set::<int>::empty());
    } else {
        let rest = spans.drop_last();
        let last = spans.last();
        count_is_number_of_offsets(rest);
        let range = vstd::set_lib::set_int_range(last.0 as int, last.1 + 1);
        vstd::set_lib::lemma_int_range(last.0 as int, last.1 + 1);
        assert forall|off: int| #[trigger] covers(spans, off) <==> covers(rest, off) || spans_over(
            last,
            off,
        ) by {
            if covers(spans, off) {
                let i = choose|i: int| 0 <= i < spans.len() && #[trigger] spans_over(spans[i], off);
                if i < rest.len() {
                    assert(spans_over(rest[i], off));
                }
            }
            if covers(rest, off) {
                let i = choose|i: int| 0 <= i < rest.len() && #[trigger] spans_over(rest[i], off);
                assert(spans_over(spans[i], off));
            }
            if spans_over(last, off) {
                assert(spans_over(spans[spans.len() - 1], off));
            }
        }
        assert forall|off: int| !(offsets(rest).contains(off) && range.contains(off)) by {
            if covers(rest, off) && spans_over(last, off) {
                let i = choose|i: int| 0 <= i < rest.len() && #[trigger] spans_over(rest[i], off);
                assert(spans[i].1 < spans[spans.len() - 1].0);
            }
        }
        assert(offsets(rest).disjoint(range));
        vstd::set_lib::lemma_set_disjoint_lens(offsets(rest), range);
        assert(offsets(spans) =~= offsets(rest) + range);
    }
}

/// Spans in offset order below a bound can be counted, and their count is at
/// most the bound.
pub proof fn ordered_is_countable(spans: Seq<Span>, bound: int)
    requires
        ordered(spans),
        0 <= bound <= i64::MAX,
        forall|i: int| 0 <= i < spans.len() ==> 0 <= (#[trigger] spans[i]).0 && spans[i].1 < bound,
    ensures
        countable(spans),
        0 <= total(spans) <= bound,
{
    assert forall|n: int| 0 <= n <= spans.len() implies i64::MIN <= #[trigger] total(spans.take(n))
        <= i64::MAX by {
        prefix_total_bound(spans, bound, n);
    }
    prefix_total_bound(spans, bound, spans.len() as int);
    assert(spans.take(spans.len() as int) =~= spans);
}

proof fn prefix_total_bound(spans: Seq<Span>, bound: int, n: int)
    requires
        ordered(spans),
        0 <= n <= spans.len(),
        0 <= bound,
        forall|i: int| 0 <= i < spans.len() ==> 0 <= (#[trigger] spans[i]).0 && spans[i].1 < bound,
    ensures
        0 <= total(spans.take(n)) <= bound,
        n > 0 ==> total(spans.take(n)) <= spans[n - 1].1 + 1,
    decreases n,
{
    if n > 0 {
        prefix_total_bound(spans, bound, n - 1);
        assert(spans.take(n).drop_last() =~= spans.take(n - 1));
        assert(spans.take(n).last() == spans[n - 1]);
        if n > 1 {
            assert(spans[n - 2].1 < spans[n - 1].0);
        }
    }
}

/// Merged spans are determined by the offsets that they cover.
pub proof fn merged_spans_are_unique(a: Seq<Span>, b: Seq<Span>)
    requires
        merged(a),
        merged(b),
        forall|off: int| #[trigger] covers(a, off) <==> covers(b, off),
    ensures
        a == b,
{
    merged_prefix(a, b, a.len() as int);
    merged_prefix(b, a, b.len() as int);
    assert(a =~= b);
}

/// A span of merged `a` lies inside one span of merged `b` that covers as
/// much.
proof fn span_is_inside(a: Seq<Span>, b: Seq<Span>, i: int) -> (j: int)
    requires
        merged(a),
        merged(b),
        0 <= i < a.len(),
        forall|off: int| #[trigger] covers(a, off) ==> covers(b, off),
    ensures
        0 <= j < b.len(),
        b[j].0 <= a[i].0,
        a[i].1 <= b[j].1,
{
    assert(spans_over(a[i], a[i].0 as int));
    assert(covers(a, a[i].0 as int));
    let j = choose|j: int| 0 <= j < b.len() && #[trigger] spans_over(b[j], a[i].0 as int);
    if b[j].1 < a[i].1 {
        let o = b[j].1 + 1;
        assert(spans_over(a[i], o));
        assert(covers(a, o));
        let k = choose|k: int| 0 <= k < b.len() && #[trigger] spans_over(b[k], o);
        assert(false);
    }
    j
}

proof fn merged_prefix(a: Seq<Span>, b: Seq<Span>, n: int)
    requires
        merged(a),
        merged(b),
        0 <= n <= a.len(),
        forall|off: int| #[trigger] covers(a, off) <==> covers(b, off),
    ensures
        n <= b.len(),
        forall|i: int| 0 <= i < n ==> a[i] == b[i],
    decreases n,
{
    if n > 0 {
        merged_prefix(a, b, n - 1);
        let i = n - 1;
        let j = span_is_inside(a, b, i);
        let k = span_is_inside(b, a, j);
        assert(k == i);
        assert(a[i] == b[j]);
        if j < i {
            assert(a[j] == b[j]);
            assert(false);
        }
        if j > i {
            let m = span_is_inside(b, a, i);
            let l = span_is_inside(a, b, m);
            assert(l == i);
            if m < i {
                assert(a[m] == b[m]);
            }
            assert(false);
        }
    }
}

} // verus!
