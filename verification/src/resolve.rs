//! Which revisions satisfy a constraint, and which of them a pin can name.

use vstd::prelude::*;

use crate::constraint::{Constraint, ConstraintView};
use crate::error::{Error, Failure};
use crate::index::{Index, IndexView, Run, RunView};
use crate::span::{insert_by_start, merge, Span};

verus! {

/// Whether the revision at an offset shipped a version that the constraint
/// accepts.
pub open spec fn satisfied(index: IndexView, c: ConstraintView, off: int) -> bool {
    exists|i: int| #[trigger] satisfied_by(index.runs_of(c.attr), c, i, off)
}

/// Whether one run satisfies the constraint at an offset.
pub open spec fn satisfied_by(runs: Seq<RunView>, c: ConstraintView, i: int, off: int) -> bool {
    0 <= i < runs.len() && c.accepts(runs[i].version) && runs[i].contains(off)
}

/// Every stretch of revisions in which one constraint is satisfied, merged and
/// in offset order.
pub fn spans_for(index: &Index, constraint: &Constraint) -> (r: Result<Vec<Span>, Error>)
    ensures
        index@.valid(),
        match r {
            Ok(spans) => {
                &&& index@.runs_of(constraint.attr@).len() > 0
                &&& crate::span::merged(spans@)
                &&& forall|off: int| #[trigger]
                    crate::span::covers(spans@, off) <==> satisfied(index@, constraint@, off)
            },
            Err(e) => {
                &&& index@.runs_of(constraint.attr@).len() == 0
                &&& e@ == (Failure::NotIndexed { attr: constraint.attr@ })
            },
        },
{
    let runs: Vec<Run> = index.runs_of(constraint.attr.as_str());
    let ghost views = index@.runs_of(constraint.attr@);
    assert(views.len() == runs@.len());
    if runs.len() == 0 {
        return Err(Failure::NotIndexed { attr: constraint.attr.clone() });
    }
    let mut spans: Vec<Span> = Vec::new();
    let mut i: usize = 0;
    while i < runs.len()
        invariant
            i <= runs@.len(),
            crate::index::run_views(runs@) == views,
            views == index@.runs_of(constraint.attr@),
            crate::index::runs_fit(views, index@.covered),
            index@.valid(),
            forall|a: int, b: int| 0 <= a < b < spans@.len() ==> spans@[a].0 <= spans@[b].0,
            forall|k: int| 0 <= k < spans@.len() ==> crate::span::bounded(#[trigger] spans@[k]),
            forall|off: int| #[trigger]
                crate::span::covers(spans@, off) <==> exists|k: int|
                    k < i && #[trigger] satisfied_by(views, constraint@, k, off),
        decreases runs@.len() - i,
    {
        let ghost before = spans@;
        assert(views[i as int] == runs@[i as int]@);
        if constraint.admits(runs[i].version.as_str()) {
            let span: Span = (runs[i].first, runs[i].last);
            assert(crate::span::bounded(span));
            insert_by_start(&mut spans, span);
            assert forall|off: int| #[trigger] crate::span::covers(spans@, off) <==> exists|k: int|
                k < i + 1 && #[trigger] satisfied_by(views, constraint@, k, off) by {
                if crate::span::covers(spans@, off) {
                    if crate::span::covers(before, off) {
                        let k = choose|k: int|
                            k < i && #[trigger] satisfied_by(views, constraint@, k, off);
                        assert(satisfied_by(views, constraint@, k, off));
                    } else {
                        assert(satisfied_by(views, constraint@, i as int, off));
                    }
                }
                if exists|k: int| k < i + 1 && #[trigger] satisfied_by(views, constraint@, k, off) {
                    let k = choose|k: int|
                        k < i + 1 && #[trigger] satisfied_by(views, constraint@, k, off);
                    if k < i {
                        assert(crate::span::covers(before, off));
                    }
                }
            }
        } else {
            assert forall|off: int| #[trigger] crate::span::covers(spans@, off) <==> exists|k: int|
                k < i + 1 && #[trigger] satisfied_by(views, constraint@, k, off) by {
                if exists|k: int| k < i + 1 && #[trigger] satisfied_by(views, constraint@, k, off) {
                    let k = choose|k: int|
                        k < i + 1 && #[trigger] satisfied_by(views, constraint@, k, off);
                    assert(k < i);
                }
            }
        }
        i = i + 1;
    }
    let out: Vec<Span> = merge(&spans);
    assert forall|off: int| #[trigger] crate::span::covers(out@, off) <==> satisfied(
        index@,
        constraint@,
        off,
    ) by {
        if satisfied(index@, constraint@, off) {
            let k = choose|k: int| #[trigger] satisfied_by(views, constraint@, k, off);
            assert(k < i && satisfied_by(views, constraint@, k, off));
            assert(crate::span::covers(spans@, off));
        }
        if crate::span::covers(out@, off) {
            assert(crate::span::covers(spans@, off));
            let k = choose|k: int| k < i && #[trigger] satisfied_by(views, constraint@, k, off);
            assert(satisfied_by(index@.runs_of(constraint@.attr), constraint@, k, off));
        }
    }
    Ok(out)
}

/// Whether `off` is the newest fetchable offset of span `i`, with nothing
/// fetchable in the spans after it.
pub open spec fn newest_from_span(
    index: IndexView,
    spans: Seq<Span>,
    i: int,
    off: int,
) -> bool {
    &&& 0 <= i < spans.len()
    &&& index.newest_in(spans[i].0 as int, spans[i].1 as int, off)
    &&& forall|j: int|
        i < j < spans.len() ==> #[trigger] index.none_in(spans[j].0 as int, spans[j].1 as int)
}

/// Whether `off` is the newest fetchable offset of the last span that has one.
pub open spec fn newest_of_last_fetchable(index: IndexView, spans: Seq<Span>, off: int) -> bool {
    exists|i: int| #[trigger] newest_from_span(index, spans, i, off)
}

/// Whether `off` is the newest of all offsets in `spans` that can be fetched.
pub open spec fn newest_covered(index: IndexView, spans: Seq<Span>, off: int) -> bool {
    &&& crate::span::covers(spans, off)
    &&& index.materialisable(off)
    &&& forall|o: int| #[trigger]
        crate::span::covers(spans, o) && index.materialisable(o) ==> o <= off
}

/// The newest offset in `spans` that a pin can name: newest first, walking
/// back over any revision that cannot be fetched.
pub fn newest_pinnable(index: &Index, spans: &[Span]) -> (r: Result<i64, Error>)
    ensures
        index@.valid(),
        match r {
            Ok(off) => {
                &&& newest_of_last_fetchable(index@, spans@, off as int)
                &&& crate::span::covers(spans@, off as int)
                &&& index@.materialisable(off as int)
                &&& crate::span::ordered(spans@) ==> newest_covered(index@, spans@, off as int)
            },
            Err(e) => {
                &&& e@ is NotFetchable
                &&& forall|o: int| #[trigger]
                    crate::span::covers(spans@, o) ==> !index@.materialisable(o)
            },
        },
{
    let _ = index.covered_tip();
    let mut i: usize = spans.len();
    while i > 0
        invariant
            i <= spans@.len(),
            index@.valid(),
            forall|j: int|
                i <= j < spans@.len() ==> #[trigger] index@.none_in(
                    spans@[j].0 as int,
                    spans@[j].1 as int,
                ),
        decreases i,
    {
        i = i - 1;
        let (first, last) = spans[i];
        if let Some(off) = index.newest_materialisable_in(first, last) {
            proof {
                assert(newest_from_span(index@, spans@, i as int, off as int));
                assert(crate::span::spans_over(spans@[i as int], off as int));
                assert(crate::span::covers(spans@, off as int));
                assert(index@.materialisable(off as int));
                if crate::span::ordered(spans@) {
                    assert forall|o: int| #[trigger]
                        crate::span::covers(spans@, o) && index@.materialisable(o) implies o
                        <= off by {
                        let k = choose|k: int|
                            0 <= k < spans@.len() && #[trigger] crate::span::spans_over(
                                spans@[k],
                                o,
                            );
                        if k < i {
                            assert(spans@[k].1 < spans@[i as int].0);
                        } else if k > i {
                            assert(index@.none_in(spans@[k].0 as int, spans@[k].1 as int));
                        }
                    }
                    assert(newest_covered(index@, spans@, off as int));
                }
            }
            return Ok(off);
        }
    }
    proof {
        assert forall|o: int| #[trigger] crate::span::covers(
            spans@,
            o,
        ) implies !index@.materialisable(o) by {
            let k = choose|k: int|
                0 <= k < spans@.len() && #[trigger] crate::span::spans_over(spans@[k], o);
            assert(index@.none_in(spans@[k].0 as int, spans@[k].1 as int));
        }
    }
    Err(Failure::NotFetchable)
}

/// The first run at or after place `i` that reaches over an offset, or the
/// number of runs where none does.
pub open spec fn first_run(runs: Seq<RunView>, off: int, i: int) -> int
    decreases runs.len() - i,
{
    if 0 <= i < runs.len() && !runs[i].contains(off) {
        first_run(runs, off, i + 1)
    } else {
        i
    }
}

/// The version that the revision at an offset shipped of an attribute.
pub open spec fn shipped(index: IndexView, attr: Seq<char>, off: int) -> Option<Seq<char>> {
    let runs = index.runs_of(attr);
    let i = first_run(runs, off, 0);
    if i < runs.len() {
        Some(runs[i].version)
    } else {
        None
    }
}

/// The version that the revision at an offset shipped of an attribute.
pub fn version_at(index: &Index, attr: &str, off: i64) -> (r: Option<String>)
    ensures
        index@.valid(),
        crate::constraint::optional_text(r) == shipped(index@, attr@, off as int),
{
    let runs: Vec<Run> = index.runs_of(attr);
    let ghost views = index@.runs_of(attr@);
    let mut i: usize = 0;
    while i < runs.len()
        invariant
            i <= runs@.len(),
            crate::index::run_views(runs@) == views,
            views == index@.runs_of(attr@),
            index@.valid(),
            first_run(views, off as int, 0) == first_run(views, off as int, i as int),
        decreases runs@.len() - i,
    {
        assert(views[i as int] == runs@[i as int]@);
        if runs[i].first <= off && off <= runs[i].last {
            return Some(runs[i].version.clone());
        }
        i = i + 1;
    }
    assert(views.len() == runs@.len());
    None
}

/// A run that reaches over an offset is not before the first that does.
pub proof fn first_run_is_first(runs: Seq<RunView>, off: int, i: int, k: int)
    requires
        0 <= i <= k < runs.len(),
        runs[k].contains(off),
    ensures
        i <= first_run(runs, off, i) <= k,
        runs[first_run(runs, off, i)].contains(off),
    decreases k - i,
{
    if !runs[i].contains(off) {
        first_run_is_first(runs, off, i + 1, k);
    }
}

/// Whether no two runs reach over the same offset: each revision ships at most
/// one version.
pub open spec fn one_version_each(runs: Seq<RunView>) -> bool {
    forall|i: int, j: int, off: int|
        0 <= i < runs.len() && 0 <= j < runs.len() && #[trigger] runs[i].contains(off)
            && #[trigger] runs[j].contains(off) ==> i == j
}

/// A revision that satisfies a constraint ships some version of its attribute;
/// where each revision ships at most one, that version is one the constraint
/// accepts.
pub proof fn satisfying_revision_ships_accepted_version(
    index: IndexView,
    c: ConstraintView,
    off: int,
)
    requires
        satisfied(index, c, off),
    ensures
        shipped(index, c.attr, off) is Some,
        one_version_each(index.runs_of(c.attr)) ==> c.accepts(shipped(index, c.attr, off)->0),
{
    let runs = index.runs_of(c.attr);
    let k = choose|k: int| #[trigger] satisfied_by(runs, c, k, off);
    first_run_is_first(runs, off, 0, k);
}

/// A satisfying offset is one that the index covers.
pub proof fn satisfying_offset_is_covered(index: IndexView, c: ConstraintView, off: int)
    requires
        index.valid(),
        satisfied(index, c, off),
    ensures
        0 <= off < index.covered,
{
    let runs = index.runs_of(c.attr);
    let k = choose|k: int| #[trigger] satisfied_by(runs, c, k, off);
    assert(crate::index::runs_fit(runs, index.covered));
    assert(runs[k].first <= off <= runs[k].last);
}

/// What stands for a version where a revision shipped none.
pub open spec fn version_or_unknown(version: Option<Seq<char>>) -> Seq<char> {
    match version {
        Some(v) => v,
        None => "?"@,
    }
}

/// The versions that the constraints resolve to at one revision.
pub fn versions_at(index: &Index, constraints: &Vec<Constraint>, off: i64) -> (r: Vec<
    (String, String),
>)
    ensures
        index@.valid(),
        r@.len() == constraints@.len(),
        forall|i: int|
            0 <= i < r@.len() ==> {
                &&& (#[trigger] r@[i]).0@ == constraints@[i].attr@
                &&& r@[i].1@ == version_or_unknown(
                    shipped(index@, constraints@[i].attr@, off as int),
                )
            },
{
    let _ = index.covered_tip();
    let mut out: Vec<(String, String)> = Vec::new();
    let mut i: usize = 0;
    while i < constraints.len()
        invariant
            i <= constraints@.len(),
            index@.valid(),
            out@.len() == i,
            forall|k: int|
                0 <= k < i ==> {
                    &&& (#[trigger] out@[k]).0@ == constraints@[k].attr@
                    &&& out@[k].1@ == version_or_unknown(
                        shipped(index@, constraints@[k].attr@, off as int),
                    )
                },
        decreases constraints@.len() - i,
    {
        let version: String = match version_at(index, constraints[i].attr.as_str(), off) {
            Some(v) => v,
            None => "?".to_owned(),
        };
        out.push((constraints[i].attr.clone(), version));
        i = i + 1;
    }
    out
}

} // verus!
