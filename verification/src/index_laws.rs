//! What the answers say of the index itself: of its runs, and of which of its
//! revisions can be fetched.

use vstd::prelude::*;

use crate::constraint::ConstraintView;
use crate::error::Failure;
use crate::index::{Commit, IndexView, Run, RunView};
use crate::pin::PinView;
use crate::solve::{Conflict, Report, Solution};
use crate::span::Span;

verus! {

/// The runs of an attribute, none where it was never indexed.
pub open spec fn runs(index: IndexView, attr: Seq<char>) -> Seq<RunView> {
    if index.runs.contains_key(attr) {
        index.runs[attr]
    } else {
        Seq::empty()
    }
}

/// Whether the run at a place of an attribute reaches over an offset, both ends
/// included.
pub open spec fn ran(index: IndexView, attr: Seq<char>, i: int, off: int) -> bool {
    &&& 0 <= i < runs(index, attr).len()
    &&& runs(index, attr)[i].first <= off <= runs(index, attr)[i].last
}

/// Whether the run at a place reaches over an offset with a version that is
/// asked for.
pub open spec fn allows(index: IndexView, c: ConstraintView, i: int, off: int) -> bool {
    ran(index, c.attr, i, off) && crate::version_laws::asked_for(
        c.version,
        runs(index, c.attr)[i].version,
    )
}

/// Whether the revision at an offset has a version that is asked for.
pub open spec fn allowed(index: IndexView, c: ConstraintView, off: int) -> bool {
    exists|i: int| #[trigger] allows(index, c, i, off)
}

/// Whether the revision at an offset is there and can be fetched.
pub open spec fn can_fetch(index: IndexView, off: int) -> bool {
    0 <= off < index.commits.len() && index.commits[off].fetchable
}

/// Whether the revision at an offset is the newest that has a version asked for
/// and can be fetched.
pub open spec fn newest_allowed(index: IndexView, c: ConstraintView, off: int) -> bool {
    &&& allowed(index, c, off) && can_fetch(index, off)
    &&& forall|o: int| #[trigger] allowed(index, c, o) && can_fetch(index, o) ==> o <= off
}

/// Whether the run at a place is the first of an attribute that reaches over an
/// offset.
pub open spec fn first_ran(index: IndexView, attr: Seq<char>, i: int, off: int) -> bool {
    ran(index, attr, i, off) && forall|j: int| 0 <= j < i ==> !#[trigger] ran(index, attr, j, off)
}

/// A revision satisfies a constraint exactly where some run of the attribute
/// reaches over it with a version that begins with the prefix.
pub proof fn satisfying_means_having_a_version_asked_for(
    index: IndexView,
    c: ConstraintView,
    off: int,
)
    ensures
        crate::resolve::satisfied(index, c, off) <==> allowed(index, c, off),
{
    let rs = runs(index, c.attr);
    assert(rs == index.runs_of(c.attr));
    if crate::resolve::satisfied(index, c, off) {
        let i = choose|i: int| #[trigger] crate::resolve::satisfied_by(rs, c, i, off);
        crate::version_laws::constraints_accept_whole_components(c, rs[i].version);
        assert(allows(index, c, i, off));
    }
    if allowed(index, c, off) {
        let i = choose|i: int| #[trigger] allows(index, c, i, off);
        crate::version_laws::constraints_accept_whole_components(c, rs[i].version);
        assert(crate::resolve::satisfied_by(rs, c, i, off));
    }
}

/// A revision ships the version of the first run that reaches over it, and
/// nothing of an attribute that has no such run.
pub proof fn revisions_ship_what_ran(index: IndexView, attr: Seq<char>, off: int)
    ensures
        forall|i: int| #[trigger]
            first_ran(index, attr, i, off) ==> crate::resolve::shipped(index, attr, off) == Some(
                runs(index, attr)[i].version,
            ),
        crate::resolve::shipped(index, attr, off) is None <==> forall|i: int|
            !#[trigger] ran(index, attr, i, off),
        crate::resolve::shipped(index, attr, off) is Some <==> exists|i: int| #[trigger]
            first_ran(index, attr, i, off),
{
    let rs = runs(index, attr);
    assert(rs == index.runs_of(attr));
    let first = crate::resolve::first_run(rs, off, 0);
    assert forall|i: int| #[trigger] first_ran(index, attr, i, off) implies first == i by {
        crate::resolve::first_run_is_first(rs, off, 0, i);
        if first < i {
            assert(ran(index, attr, first, off));
        }
    }
    if exists|i: int| #[trigger] ran(index, attr, i, off) {
        let i = choose|i: int| #[trigger] ran(index, attr, i, off);
        crate::resolve::first_run_is_first(rs, off, 0, i);
        assert forall|j: int| 0 <= j < first implies !#[trigger] ran(index, attr, j, off) by {
            if ran(index, attr, j, off) {
                crate::resolve::first_run_is_first(rs, off, 0, j);
            }
        }
        assert(first_ran(index, attr, first, off));
    } else {
        no_run_is_first(index, attr, off, 0);
    }
}

proof fn no_run_is_first(index: IndexView, attr: Seq<char>, off: int, i: int)
    requires
        0 <= i <= runs(index, attr).len(),
        forall|j: int| !#[trigger] ran(index, attr, j, off),
    ensures
        crate::resolve::first_run(runs(index, attr), off, i) == runs(index, attr).len(),
    decreases runs(index, attr).len() - i,
{
    if i < runs(index, attr).len() {
        assert(!ran(index, attr, i, off));
        no_run_is_first(index, attr, off, i + 1);
    }
}

/// A constraint fails to resolve for one of three reasons: its attribute has no
/// run, or no run has a version asked for, or no revision with such a version
/// can be fetched. Otherwise it resolves.
pub proof fn failing_to_resolve_has_three_reasons(index: IndexView, c: ConstraintView)
    ensures
        crate::pin::resolve_failure(index, c) == if runs(index, c.attr).len() == 0 {
            Some(Failure::NotIndexed { attr: c.attr })
        } else if forall|off: int| !#[trigger] allowed(index, c, off) {
            Some(Failure::NeverExisted { wanted: c.described() })
        } else if forall|off: int| #[trigger] allowed(index, c, off) ==> !can_fetch(index, off) {
            Some(Failure::NotFetchable)
        } else {
            None
        },
{
    assert(runs(index, c.attr) == index.runs_of(c.attr));
    assert forall|off: int| #[trigger] crate::resolve::satisfied(index, c, off) <==> allowed(
        index,
        c,
        off,
    ) by {
        satisfying_means_having_a_version_asked_for(index, c, off);
    }
    if forall|off: int| !#[trigger] allowed(index, c, off) {
        assert forall|off: int| !#[trigger] crate::resolve::satisfied(index, c, off) by {
            assert(!allowed(index, c, off));
        }
    } else {
        let off = choose|off: int| #[trigger] allowed(index, c, off);
        assert(crate::resolve::satisfied(index, c, off));
    }
    if forall|off: int| #[trigger] allowed(index, c, off) ==> !can_fetch(index, off) {
        assert forall|off: int| !#[trigger] crate::pin::pinnable(index, c, off) by {
            if crate::resolve::satisfied(index, c, off) {
                assert(allowed(index, c, off));
            }
        }
    } else {
        let off = choose|off: int| #[trigger] allowed(index, c, off) && can_fetch(index, off);
        assert(crate::pin::pinnable(index, c, off));
    }
}

/// A constraint resolves to the newest revision that has a version asked for and
/// can be fetched, and to the version that ran there.
pub proof fn constraints_resolve_to_the_newest(index: IndexView, c: ConstraintView) -> (off: int)
    requires
        index.valid(),
        crate::pin::resolve_failure(index, c) is None,
    ensures
        newest_allowed(index, c, off),
        crate::pin::deciding(index, c) == off,
        exists|i: int| #[trigger] first_ran(index, c.attr, i, off),
        forall|i: int| #[trigger]
            first_ran(index, c.attr, i, off) ==> crate::pin::lone_pin(index, c).version == runs(
                index,
                c.attr,
            )[i].version,
        crate::pin::lone_pin(index, c).rev == index.commits[off].rev,
        crate::pin::lone_pin(index, c).label == index.commits[off].label,
        crate::pin::lone_pin(index, c).date == index.commits[off].date,
        crate::pin::lone_pin(index, c).constraint == c.version,
{
    let off = crate::pin::deciding(index, c);
    crate::pin::resolved_is_decided(index, c);
    assert forall|o: int| #[trigger] allowed(index, c, o) <==> crate::resolve::satisfied(
        index,
        c,
        o,
    ) by {
        satisfying_means_having_a_version_asked_for(index, c, o);
    }
    assert forall|o: int| #[trigger] allowed(index, c, o) && can_fetch(index, o) implies o <= off by {
        assert(crate::pin::pinnable(index, c, o));
    }
    assert(crate::pin::pinnable(index, c, off));
    satisfying_means_having_a_version_asked_for(index, c, off);
    revisions_ship_what_ran(index, c.attr, off);
    let i = choose|i: int| #[trigger] allows(index, c, i, off);
    assert(ran(index, c.attr, i, off));
    off
}

/// Whether the run at a place carries a version over an offset.
pub open spec fn carries(
    index: IndexView,
    attr: Seq<char>,
    version: Seq<char>,
    i: int,
    off: int,
) -> bool {
    ran(index, attr, i, off) && runs(index, attr)[i].version == version
}

/// Whether the revision at an offset is the newest of a run that can be fetched.
pub open spec fn newest_of_run(index: IndexView, attr: Seq<char>, i: int, off: int) -> bool {
    &&& ran(index, attr, i, off) && can_fetch(index, off)
    &&& forall|o: int| off < o <= runs(index, attr)[i].last ==> !#[trigger] can_fetch(index, o)
}

/// What a resolved constraint asks of a plan: it is served wherever a run carries
/// its version, and its candidates are the newest revision of each such run that
/// can be fetched.
pub proof fn targets_are_the_runs_of_the_version(index: IndexView, c: ConstraintView)
    requires
        index.valid(),
    ensures
        crate::pin::target_of(index, c).key == c.attr,
        forall|off: int| #[trigger]
            crate::greedy_laws::inside(crate::pin::target_of(index, c).spans, off) <==> exists|
                i: int,
            | #[trigger]
                carries(index, c.attr, crate::pin::lone_pin(index, c).version, i, off),
        forall|off: i64| #[trigger]
            crate::pin::target_of(index, c).candidates.contains(off) <==> exists|i: int|
                #[trigger] newest_of_run(index, c.attr, i, off as int) && runs(
                    index,
                    c.attr,
                )[i].version == crate::pin::lone_pin(index, c).version,
{
    let rs = runs(index, c.attr);
    let version = crate::pin::lone_pin(index, c).version;
    let t = crate::pin::target_of(index, c);
    assert(rs == index.runs_of(c.attr));
    assert(crate::index::runs_fit(rs, index.covered));
    assert forall|off: int| #[trigger] crate::greedy_laws::inside(t.spans, off) <==> exists|i: int|
        #[trigger] carries(index, c.attr, version, i, off) by {
        crate::greedy_laws::spans_cover_from_end_to_end(t.spans, off);
        crate::pin::carrying_covers(rs, version, index.covered, off);
        if exists|i: int| #[trigger] crate::pin::carried_by(rs, version, i, off) {
            let i = choose|i: int| #[trigger] crate::pin::carried_by(rs, version, i, off);
            assert(carries(index, c.attr, version, i, off));
        }
        if exists|i: int| #[trigger] carries(index, c.attr, version, i, off) {
            let i = choose|i: int| #[trigger] carries(index, c.attr, version, i, off);
            assert(crate::pin::carried_by(rs, version, i, off));
        }
    }
    assert forall|off: i64| #[trigger] t.candidates.contains(off) <==> exists|i: int|
        #[trigger] newest_of_run(index, c.attr, i, off as int) && rs[i].version == version by {
        crate::pin::fetchable_members(index, t.spans, off);
        if exists|k: int| #[trigger] crate::pin::newest_at(index, t.spans, k, off) {
            let k = choose|k: int| #[trigger] crate::pin::newest_at(index, t.spans, k, off);
            carrying_spans_are_runs(rs, version, index.covered, k);
            let i = choose|i: int| #[trigger] is_run_of(rs, version, t.spans[k], i);
            assert forall|o: int| off < o <= rs[i].last implies !#[trigger] can_fetch(index, o) by {
                assert(!index.materialisable(o));
            }
            assert(index.materialisable(off as int));
            assert(newest_of_run(index, c.attr, i, off as int));
        }
        if exists|i: int|
            #[trigger] newest_of_run(index, c.attr, i, off as int) && rs[i].version == version {
            let i = choose|i: int|
                #[trigger] newest_of_run(index, c.attr, i, off as int) && rs[i].version == version;
            runs_are_carrying_spans(rs, version, index.covered, i);
            let k = choose|k: int|
                0 <= k < t.spans.len() && #[trigger] is_run_of(rs, version, t.spans[k], i);
            assert forall|o: int| off < o <= t.spans[k].1 implies !#[trigger] index.materialisable(
                o,
            ) by {
                assert(!can_fetch(index, o));
            }
            assert(index.newest_in(t.spans[k].0 as int, t.spans[k].1 as int, off as int));
            assert(crate::pin::newest_at(index, t.spans, k, off));
        }
    }
}

/// Whether a span is the range of the run at a place, which has a version.
spec fn is_run_of(rs: Seq<RunView>, version: Seq<char>, span: (i64, i64), i: int) -> bool {
    &&& 0 <= i < rs.len()
    &&& rs[i].version == version
    &&& span.0 == rs[i].first
    &&& span.1 == rs[i].last
}

proof fn carrying_spans_are_runs(rs: Seq<RunView>, version: Seq<char>, covered: nat, k: int)
    requires
        crate::index::runs_fit(rs, covered),
        covered <= i64::MAX,
        0 <= k < crate::pin::carrying(rs, version).len(),
    ensures
        exists|i: int| #[trigger]
            is_run_of(rs, version, crate::pin::carrying(rs, version)[k], i),
    decreases rs.len(),
{
    let rest = rs.drop_last();
    let inner = crate::pin::carrying(rest, version);
    let spans = crate::pin::carrying(rs, version);
    if k < inner.len() {
        assert forall|i: int| 0 <= i < rest.len() implies 0 <= (#[trigger] rest[i]).first
            <= rest[i].last < covered by {
            assert(rest[i] == rs[i]);
        }
        carrying_spans_are_runs(rest, version, covered, k);
        assert(spans[k] == inner[k]);
        let i = choose|i: int| #[trigger] is_run_of(rest, version, inner[k], i);
        assert(is_run_of(rs, version, spans[k], i));
    } else {
        assert(rs[rs.len() - 1].first <= rs[rs.len() - 1].last < covered);
        assert(is_run_of(rs, version, spans[k], rs.len() - 1));
    }
}

proof fn runs_are_carrying_spans(rs: Seq<RunView>, version: Seq<char>, covered: nat, i: int)
    requires
        crate::index::runs_fit(rs, covered),
        covered <= i64::MAX,
        0 <= i < rs.len(),
        rs[i].version == version,
    ensures
        exists|k: int|
            0 <= k < crate::pin::carrying(rs, version).len() && #[trigger] is_run_of(
                rs,
                version,
                crate::pin::carrying(rs, version)[k],
                i,
            ),
    decreases rs.len(),
{
    let rest = rs.drop_last();
    let spans = crate::pin::carrying(rs, version);
    let inner = crate::pin::carrying(rest, version);
    if i < rest.len() {
        assert forall|j: int| 0 <= j < rest.len() implies 0 <= (#[trigger] rest[j]).first
            <= rest[j].last < covered by {
            assert(rest[j] == rs[j]);
        }
        runs_are_carrying_spans(rest, version, covered, i);
        let k = choose|k: int|
            0 <= k < inner.len() && #[trigger] is_run_of(rest, version, inner[k], i);
        assert(spans[k] == inner[k]);
        assert(is_run_of(rs, version, spans[k], i));
    } else {
        assert(rs[i].first <= rs[i].last < covered);
        assert(is_run_of(rs, version, spans[spans.len() - 1], i));
    }
}

/// Whether the commit at an offset begins with these characters, and that of no
/// newer revision does.
pub open spec fn newest_beginning(index: IndexView, start: Seq<char>, off: int) -> bool {
    &&& 0 <= off < index.commits.len()
    &&& begins(index.commits[off].rev, start)
    &&& forall|o: int|
        off < o < index.commits.len() ==> !begins((#[trigger] index.commits[o]).rev, start)
}

/// Whether a text begins with these characters.
pub open spec fn begins(s: Seq<char>, start: Seq<char>) -> bool {
    start.len() <= s.len() && forall|k: int| 0 <= k < start.len() ==> s[k] == #[trigger] start[k]
}

/// What a pin names in the index is the newest revision whose commit begins with
/// the pin's.
pub proof fn pins_name_the_newest_beginning(index: IndexView, start: Seq<char>, off: int)
    ensures
        index.found_by_prefix(start, off) <==> newest_beginning(index, start, off),
{
    assert forall|o: int| 0 <= o < index.commits.len() implies (#[trigger] index.has_prefix(
        o,
        start,
    ) <==> begins(index.commits[o].rev, start)) by {
        let s = index.commits[o].rev;
        if index.has_prefix(o, start) {
            assert forall|k: int| 0 <= k < start.len() implies s[k] == #[trigger] start[k] by {
                assert(start[k] == s.subrange(0, start.len() as int)[k]);
            }
        }
        if begins(s, start) {
            assert forall|k: int| 0 <= k < start.len() implies start[k] == s.subrange(
                0,
                start.len() as int,
            )[k] by {
                assert(s[k] == start[k]);
            }
            assert(start =~= s.subrange(0, start.len() as int));
        }
    }
    if index.found_by_prefix(start, off) {
        assert forall|o: int| off < o < index.commits.len() implies !begins(
            (#[trigger] index.commits[o]).rev,
            start,
        ) by {
            assert(!index.has_prefix(o, start));
        }
        assert(index.has_prefix(off, start));
    }
    if newest_beginning(index, start, off) {
        assert forall|o: int| off < o < index.commits.len() implies !#[trigger] index.has_prefix(
            o,
            start,
        ) by {
            assert(!begins(index.commits[o].rev, start));
        }
        assert(index.has_prefix(off, start));
    }
}

/// A revision is paid for exactly where a pin that holds still names it.
pub proof fn paid_for_means_named_by_a_pin(
    index: IndexView,
    untouched: Map<Seq<char>, PinView>,
    off: i64,
)
    ensures
        crate::pin::paid_for(index, untouched).contains(off) <==> exists|attr: Seq<char>|
            #[trigger] untouched.contains_key(attr) && newest_beginning(
                index,
                untouched[attr].rev,
                off as int,
            ),
{
    if crate::pin::paid_for(index, untouched).contains(off) {
        let attr = choose|attr: Seq<char>| #[trigger]
            untouched.contains_key(attr) && index.found_by_prefix(untouched[attr].rev, off as int);
        pins_name_the_newest_beginning(index, untouched[attr].rev, off as int);
        assert(untouched.contains_key(attr));
    }
    if exists|attr: Seq<char>|
        #[trigger] untouched.contains_key(attr) && newest_beginning(
            index,
            untouched[attr].rev,
            off as int,
        ) {
        let attr = choose|attr: Seq<char>|
            #[trigger] untouched.contains_key(attr) && newest_beginning(
                index,
                untouched[attr].rev,
                off as int,
            );
        pins_name_the_newest_beginning(index, untouched[attr].rev, off as int);
        assert(untouched.contains_key(attr));
    }
}

/// Pins planned together: one for each constraint, with the version that the
/// constraint resolves to alone, at the revision that the plan for what the
/// constraints ask gives it beside the revisions that are paid for.
pub proof fn planned_pins_follow_the_plan(
    index: IndexView,
    constraints: Seq<ConstraintView>,
    untouched: Map<Seq<char>, PinView>,
)
    requires
        crate::pin::attrs_distinct(constraints),
    ensures
        crate::pin::targets_of(index, constraints).len() == constraints.len(),
        forall|i: int|
            0 <= i < constraints.len() ==> #[trigger] crate::pin::targets_of(index, constraints)[i]
                == crate::pin::target_of(index, constraints[i]),
        forall|attr: Seq<char>| #[trigger]
            crate::pin::planned(index, constraints, untouched).contains_key(attr) <==> exists|
                i: int,
            | 0 <= i < constraints.len() && (#[trigger] constraints[i]).attr == attr,
        forall|i: int|
            0 <= i < constraints.len() ==> {
                let c = #[trigger] constraints[i];
                let pin = crate::pin::planned(index, constraints, untouched)[c.attr];
                let off = crate::plan::plan(
                    crate::pin::targets_of(index, constraints),
                    crate::pin::paid_for(index, untouched),
                )[c.attr] as int;
                &&& pin.rev == index.commits[off].rev
                &&& pin.label == index.commits[off].label
                &&& pin.date == index.commits[off].date
                &&& pin.version == crate::pin::lone_pin(index, c).version
                &&& pin.constraint == c.version
            },
{
    assert forall|i: int| 0 <= i < constraints.len() implies crate::pin::asks_for(
        constraints,
        (#[trigger] constraints[i]).attr,
    ) && crate::pin::asking(constraints, constraints[i].attr) == constraints[i] by {
        crate::pin::asking_finds(constraints, i);
    }
}

/// The pin of one constraint among those planned together.
pub proof fn planned_pin_follows_the_plan(
    index: IndexView,
    constraints: Seq<ConstraintView>,
    untouched: Map<Seq<char>, PinView>,
    i: int,
)
    requires
        crate::pin::attrs_distinct(constraints),
        0 <= i < constraints.len(),
    ensures
        crate::pin::planned(index, constraints, untouched).contains_key(constraints[i].attr),
        ({
            let c = constraints[i];
            let pin = crate::pin::planned(index, constraints, untouched)[c.attr];
            let off = crate::plan::plan(
                crate::pin::targets_of(index, constraints),
                crate::pin::paid_for(index, untouched),
            )[c.attr] as int;
            &&& pin.rev == index.commits[off].rev
            &&& pin.label == index.commits[off].label
            &&& pin.date == index.commits[off].date
            &&& pin.version == crate::pin::lone_pin(index, c).version
            &&& pin.constraint == c.version
        }),
{
    crate::pin::asking_finds(constraints, i);
}

/// Whether the revision at an offset has, for every constraint, a version that is
/// asked for.
pub open spec fn allowed_by_all(
    index: IndexView,
    constraints: Seq<ConstraintView>,
    off: int,
) -> bool {
    forall|i: int| 0 <= i < constraints.len() ==> allowed(index, #[trigger] constraints[i], off)
}

proof fn all_satisfied_means_allowed_by_all(
    index: IndexView,
    constraints: Seq<ConstraintView>,
    off: int,
)
    ensures
        crate::solve::satisfies_all(index, constraints, off) <==> allowed_by_all(
            index,
            constraints,
            off,
        ),
{
    assert forall|i: int| 0 <= i < constraints.len() implies (crate::resolve::satisfied(
        index,
        #[trigger] constraints[i],
        off,
    ) <==> allowed(index, constraints[i], off)) by {
        satisfying_means_having_a_version_asked_for(index, constraints[i], off);
    }
    if crate::solve::satisfies_all(index, constraints, off) {
        assert forall|i: int| 0 <= i < constraints.len() implies allowed(
            index,
            #[trigger] constraints[i],
            off,
        ) by {
            assert(crate::resolve::satisfied(index, constraints[i], off));
        }
    }
    if allowed_by_all(index, constraints, off) {
        assert forall|i: int| 0 <= i < constraints.len() implies crate::resolve::satisfied(
            index,
            #[trigger] constraints[i],
            off,
        ) by {
            assert(allowed(index, constraints[i], off));
        }
    }
}

/// A solution holds every revision that has, for each constraint, a version that
/// is asked for, and no other: as spans with gaps between them, by their number,
/// from the oldest to the newest, and with what the newest ships.
pub proof fn solutions_hold_every_revision_asked_for(
    index: IndexView,
    constraints: Seq<ConstraintView>,
    solution: Solution,
)
    requires
        solution.solves(index, constraints),
    ensures
        forall|off: int| #[trigger]
            crate::greedy_laws::inside(solution.spans@, off) <==> allowed_by_all(
                index,
                constraints,
                off,
            ),
        forall|k: int|
            0 <= k < solution.spans@.len() ==> (#[trigger] solution.spans@[k]).0
                <= solution.spans@[k].1,
        forall|j: int, k: int|
            0 <= j < k < solution.spans@.len() ==> (#[trigger] solution.spans@[j]).1 + 1 < (
            #[trigger] solution.spans@[k]).0,
        solution.revisions == Set::new(|off: int| allowed_by_all(index, constraints, off)).len(),
        allowed_by_all(index, constraints, solution.first.off as int),
        allowed_by_all(index, constraints, solution.last.off as int),
        forall|off: int| #[trigger]
            allowed_by_all(index, constraints, off) ==> solution.first.off <= off
                <= solution.last.off,
        solution.first.rev@ == index.commits[solution.first.off as int].rev,
        solution.first.label@ == index.commits[solution.first.off as int].label,
        solution.first.date@ == index.commits[solution.first.off as int].date,
        solution.last.rev@ == index.commits[solution.last.off as int].rev,
        solution.last.label@ == index.commits[solution.last.off as int].label,
        solution.last.date@ == index.commits[solution.last.off as int].date,
        solution.versions@.len() == constraints.len(),
        forall|i: int, k: int|
            0 <= i < constraints.len() && #[trigger] first_ran(
                index,
                constraints[i].attr,
                k,
                solution.last.off as int,
            ) ==> solution.versions@[i].0@ == constraints[i].attr && solution.versions@[i].1@
                == runs(index, constraints[i].attr)[k].version,
{
    let offs = crate::solve::common(index, constraints);
    assert forall|off: int| #[trigger] allowed_by_all(index, constraints, off) <==> offs.contains(
        off,
    ) by {
        all_satisfied_means_allowed_by_all(index, constraints, off);
    }
    assert(offs =~= Set::new(|off: int| allowed_by_all(index, constraints, off)));
    assert forall|off: int| #[trigger] crate::greedy_laws::inside(
        solution.spans@,
        off,
    ) <==> allowed_by_all(index, constraints, off) by {
        crate::greedy_laws::spans_cover_from_end_to_end(solution.spans@, off);
        all_satisfied_means_allowed_by_all(index, constraints, off);
        assert(crate::span::covers(solution.spans@, off) <==> crate::solve::satisfies_all(
            index,
            constraints,
            off,
        ));
    }
    assert(offs.contains(solution.first.off as int));
    assert(offs.contains(solution.last.off as int));
    assert(allowed_by_all(index, constraints, solution.first.off as int));
    assert(allowed_by_all(index, constraints, solution.last.off as int));
    assert forall|off: int| #[trigger] allowed_by_all(
        index,
        constraints,
        off,
    ) implies solution.first.off <= off <= solution.last.off by {
        assert(offs.contains(off));
    }
    assert forall|i: int, k: int|
        0 <= i < constraints.len() && #[trigger] first_ran(
            index,
            constraints[i].attr,
            k,
            solution.last.off as int,
        ) implies solution.versions@[i].0@ == constraints[i].attr && solution.versions@[i].1@
        == runs(index, constraints[i].attr)[k].version by {
        revisions_ship_what_ran(index, constraints[i].attr, solution.last.off as int);
        assert(solution.versions@[i].0@ == constraints[i].attr);
    }
}

/// A report holds what its constraint had on its own: how many revisions, the
/// oldest and the newest of them, and whether the newest is the last that the
/// index covers.
pub proof fn reports_tell_of_their_constraint(index: IndexView, c: ConstraintView, report: Report)
    requires
        index.valid(),
        report.reports(index, c),
    ensures
        report.attr@ == c.attr,
        crate::constraint::optional_text(report.version) == c.version,
        c.version is None ==> report.described@ == c.attr,
        c.version matches Some(v) ==> report.described@ == c.attr + " "@ + v + ".x"@,
        report.revisions == Set::new(|off: int| allowed(index, c, off)).len(),
        report.ends is None <==> forall|off: int| !#[trigger] allowed(index, c, off),
        report.ends matches Some((oldest, newest)) ==> {
            &&& allowed(index, c, oldest.off as int)
            &&& allowed(index, c, newest.off as int)
            &&& forall|off: int| #[trigger]
                allowed(index, c, off) ==> oldest.off <= off <= newest.off
            &&& oldest.date@ == index.commits[oldest.off as int].date
            &&& newest.date@ == index.commits[newest.off as int].date
        },
        report.current <==> allowed(index, c, index.covered - 1),
{
    let offs = crate::solve::satisfying(index, c);
    assert forall|off: int| #[trigger] allowed(index, c, off) <==> offs.contains(off) by {
        satisfying_means_having_a_version_asked_for(index, c, off);
    }
    assert(offs =~= Set::new(|off: int| allowed(index, c, off)));
    match report.ends {
        Some((oldest, newest)) => {
            assert(offs.contains(oldest.off as int) && offs.contains(newest.off as int));
            assert(allowed(index, c, newest.off as int) && allowed(index, c, oldest.off as int));
            assert forall|off: int| #[trigger] allowed(index, c, off) implies oldest.off <= off
                <= newest.off by {
                assert(offs.contains(off));
            }
            crate::resolve::satisfying_offset_is_covered(index, c, newest.off as int);
        },
        None => {
            assert(offs =~= Set::empty());
            assert forall|off: int| !#[trigger] allowed(index, c, off) by {
                assert(!offs.contains(off));
            }
        },
    }
}

/// A conflict comes exactly of there being no revision that all constraints
/// allow, and names the first two, by the earlier and then the later, that no
/// revision allows both.
pub proof fn conflicts_name_the_first_two_apart(
    index: IndexView,
    constraints: Seq<ConstraintView>,
    conflict: Conflict,
)
    requires
        conflict.explains(index, constraints),
    ensures
        forall|off: int| !#[trigger] allowed_by_all(index, constraints, off),
        conflict.reports@.len() == constraints.len(),
        conflict.disjoint matches Some((i, j)) ==> {
            &&& i < j < constraints.len()
            &&& apart(index, constraints[i as int], constraints[j as int])
        },
        forall|p: int, q: int|
            0 <= p < q < constraints.len() && apart(
                index,
                #[trigger] constraints[p],
                #[trigger] constraints[q],
            ) ==> (conflict.disjoint matches Some((i, j)) && (i < p || (i == p && j <= q))),
{
    assert forall|off: int| !#[trigger] allowed_by_all(index, constraints, off) by {
        all_satisfied_means_allowed_by_all(index, constraints, off);
        assert(!crate::solve::satisfies_all(index, constraints, off));
    }
    assert forall|p: int, q: int|
        0 <= p < q < constraints.len() && apart(
            index,
            #[trigger] constraints[p],
            #[trigger] constraints[q],
        ) implies (conflict.disjoint matches Some((i, j)) && (i < p || (i == p && j <= q))) by {
        apart_means_never_overlapping(index, constraints[p], constraints[q]);
        assert(crate::solve::disjoint_at(index, constraints, p, q));
    }
    if let Some((i, j)) = conflict.disjoint {
        assert(crate::solve::disjoint_at(index, constraints, i as int, j as int));
        apart_means_never_overlapping(index, constraints[i as int], constraints[j as int]);
    }
}

/// Whether no revision has versions asked for by both constraints.
pub open spec fn apart(index: IndexView, a: ConstraintView, b: ConstraintView) -> bool {
    forall|off: int| !(#[trigger] allowed(index, a, off) && allowed(index, b, off))
}

proof fn apart_means_never_overlapping(index: IndexView, a: ConstraintView, b: ConstraintView)
    ensures
        apart(index, a, b) <==> crate::solve::never_overlap(index, a, b),
{
    assert forall|off: int| #[trigger] allowed(index, a, off) <==> crate::resolve::satisfied(
        index,
        a,
        off,
    ) by {
        satisfying_means_having_a_version_asked_for(index, a, off);
    }
    assert forall|off: int| #[trigger] allowed(index, b, off) <==> crate::resolve::satisfied(
        index,
        b,
        off,
    ) by {
        satisfying_means_having_a_version_asked_for(index, b, off);
    }
    if apart(index, a, b) {
        assert forall|off: int|
            !(#[trigger] crate::resolve::satisfied(index, a, off) && crate::resolve::satisfied(
                index,
                b,
                off,
            )) by {
            satisfying_means_having_a_version_asked_for(index, a, off);
            satisfying_means_having_a_version_asked_for(index, b, off);
            assert(!(allowed(index, a, off) && allowed(index, b, off)));
        }
    }
    if crate::solve::never_overlap(index, a, b) {
        assert forall|off: int| !(#[trigger] allowed(index, a, off) && allowed(index, b, off)) by {
            assert(!(crate::resolve::satisfied(index, a, off) && crate::resolve::satisfied(
                index,
                b,
                off,
            )));
        }
    }
}

/// A revision can be fetched where it is there and has a hash.
pub proof fn fetching_needs_a_hash(index: IndexView, off: int, commit: Commit)
    ensures
        index.materialisable(off) <==> can_fetch(index, off),
        commit@.fetchable <==> commit.nar_hash is Some,
        commit@.rev == commit.rev@,
        commit@.label == commit.label@,
        commit@.date == commit.date@,
{
}

/// An index is valid exactly where every run lies, from its first offset to its
/// last, within what is covered, and that within the revisions there are.
pub proof fn valid_indexes_have_their_runs_within(index: IndexView)
    ensures
        index.valid() <==> {
            &&& index.commits.len() <= i64::MAX
            &&& index.covered <= index.commits.len()
            &&& forall|attr: Seq<char>, i: int|
                #![trigger index.runs[attr][i]]
                index.runs.contains_key(attr) && 0 <= i < index.runs[attr].len() ==> 0
                    <= index.runs[attr][i].first <= index.runs[attr][i].last < index.covered
        },
{
    if forall|attr: Seq<char>, i: int|
        #![trigger index.runs[attr][i]]
        index.runs.contains_key(attr) && 0 <= i < index.runs[attr].len() ==> 0
            <= index.runs[attr][i].first <= index.runs[attr][i].last < index.covered {
        assert forall|attr: Seq<char>| #[trigger]
            index.runs.contains_key(attr) implies crate::index::runs_fit(
            index.runs[attr],
            index.covered,
        ) by {}
    }
    if index.valid() {
        assert forall|attr: Seq<char>, i: int|
            #![trigger index.runs[attr][i]]
            index.runs.contains_key(attr) && 0 <= i < index.runs[attr].len() implies 0
            <= index.runs[attr][i].first <= index.runs[attr][i].last < index.covered by {
            assert(crate::index::runs_fit(index.runs[attr], index.covered));
        }
    }
}

/// An index holds the revisions and runs that it is made of.
pub proof fn indexes_hold_what_they_are_made_of(
    commits: Seq<Commit>,
    covered: nat,
    made_of: Map<Seq<char>, Vec<Run>>,
)
    ensures
        ({
            let index = crate::index::index_view(commits, covered, made_of);
            &&& index.covered == covered
            &&& index.commits.len() == commits.len()
            &&& forall|off: int|
                0 <= off < commits.len() ==> #[trigger] index.commits[off] == commits[off]@
            &&& forall|attr: Seq<char>| #[trigger]
                index.runs.contains_key(attr) <==> made_of.contains_key(attr)
            &&& forall|attr: Seq<char>| #[trigger]
                made_of.contains_key(attr) ==> index.runs[attr].len() == made_of[attr]@.len()
            &&& forall|attr: Seq<char>, i: int|
                #![trigger index.runs[attr][i]]
                made_of.contains_key(attr) && 0 <= i < made_of[attr]@.len() ==> {
                    &&& index.runs[attr][i].version == made_of[attr]@[i].version@
                    &&& index.runs[attr][i].first == made_of[attr]@[i].first
                    &&& index.runs[attr][i].last == made_of[attr]@[i].last
                }
        }),
{
}

/// The newest offset of spans that a pin can name is the newest inside them that
/// can be fetched.
pub proof fn newest_to_pin_is_the_newest_fetchable(index: IndexView, spans: Seq<Span>, off: int)
    ensures
        crate::resolve::newest_covered(index, spans, off) <==> {
            &&& crate::greedy_laws::inside(spans, off) && can_fetch(index, off)
            &&& forall|o: int| #[trigger]
                crate::greedy_laws::inside(spans, o) && can_fetch(index, o) ==> o <= off
        },
{
    assert forall|o: int| #[trigger] crate::greedy_laws::inside(spans, o) <==> crate::span::covers(
        spans,
        o,
    ) by {
        crate::greedy_laws::spans_cover_from_end_to_end(spans, o);
    }
    crate::greedy_laws::spans_cover_from_end_to_end(spans, off);
    if crate::resolve::newest_covered(index, spans, off) {
        assert forall|o: int| #[trigger] crate::greedy_laws::inside(spans, o) && can_fetch(
            index,
            o,
        ) implies o <= off by {
            assert(crate::span::covers(spans, o));
        }
    }
    if crate::greedy_laws::inside(spans, off) && can_fetch(index, off) && forall|o: int| #[trigger]
        crate::greedy_laws::inside(spans, o) && can_fetch(index, o) ==> o <= off {
        assert forall|o: int| #[trigger] crate::span::covers(spans, o) && index.materialisable(
            o,
        ) implies o <= off by {
            crate::greedy_laws::spans_cover_from_end_to_end(spans, o);
            assert(crate::greedy_laws::inside(spans, o));
        }
    }
}

/// Whether `off` is the newest offset of the span at a place that can be fetched.
pub open spec fn newest_in_span(index: IndexView, spans: Seq<Span>, i: int, off: int) -> bool {
    &&& 0 <= i < spans.len()
    &&& spans[i].0 <= off <= spans[i].1 && can_fetch(index, off)
    &&& forall|o: int| off < o <= spans[i].1 ==> !#[trigger] can_fetch(index, o)
}

/// Spans in any order are walked from the last to the first: the newest offset
/// that can be fetched of the last span that has one.
pub proof fn spans_are_walked_from_the_last(index: IndexView, spans: Seq<Span>, off: int)
    ensures
        crate::resolve::newest_of_last_fetchable(index, spans, off) <==> exists|i: int|
            #[trigger] newest_in_span(index, spans, i, off) && forall|j: int, o: int|
                #![trigger spans[j], can_fetch(index, o)]
                i < j < spans.len() && spans[j].0 <= o <= spans[j].1 ==> !can_fetch(index, o),
{
    if crate::resolve::newest_of_last_fetchable(index, spans, off) {
        let i = choose|i: int| #[trigger]
            crate::resolve::newest_from_span(index, spans, i, off);
        assert forall|o: int| off < o <= spans[i].1 implies !#[trigger] can_fetch(index, o) by {
            assert(!index.materialisable(o));
        }
        assert(newest_in_span(index, spans, i, off));
        assert forall|j: int, o: int|
            #![trigger spans[j], can_fetch(index, o)]
            i < j < spans.len() && spans[j].0 <= o <= spans[j].1 implies !can_fetch(index, o) by {
            assert(index.none_in(spans[j].0 as int, spans[j].1 as int));
            assert(!index.materialisable(o));
        }
    }
    if exists|i: int|
        #[trigger] newest_in_span(index, spans, i, off) && forall|j: int, o: int|
            #![trigger spans[j], can_fetch(index, o)]
            i < j < spans.len() && spans[j].0 <= o <= spans[j].1 ==> !can_fetch(index, o) {
        let i = choose|i: int|
            #[trigger] newest_in_span(index, spans, i, off) && forall|j: int, o: int|
                #![trigger spans[j], can_fetch(index, o)]
                i < j < spans.len() && spans[j].0 <= o <= spans[j].1 ==> !can_fetch(index, o);
        assert forall|o: int| off < o <= spans[i].1 implies !#[trigger] index.materialisable(o) by {
            assert(!can_fetch(index, o));
        }
        assert(index.newest_in(spans[i].0 as int, spans[i].1 as int, off));
        assert forall|j: int| i < j < spans.len() implies #[trigger] index.none_in(
            spans[j].0 as int,
            spans[j].1 as int,
        ) by {
            let span = spans[j];
            assert forall|o: int| span.0 <= o <= span.1 implies !#[trigger] index.materialisable(
                o,
            ) by {
                assert(!can_fetch(index, o));
            }
        }
        assert(crate::resolve::newest_from_span(index, spans, i, off));
    }
}

/// Each span adds as many offsets to a count as it reaches over.
pub proof fn counting_adds_span_by_span(spans: Seq<Span>, span: Span)
    ensures
        crate::span::total(Seq::empty()) == 0,
        crate::span::total(spans.push(span)) == crate::span::total(spans) + span.1 - span.0 + 1,
{
    assert(spans.push(span).drop_last() =~= spans);
}

} // verus!
