//! Pins: which version a constraint resolves to, and which revision serves it.

use vstd::prelude::*;

use crate::constraint::{copy_optional, Constraint, ConstraintView};
use crate::error::{Error, Failure};
use crate::index::{Index, IndexView, Revision, Run, RunView};
use crate::map::StringMap;
use crate::plan::{plan_serving, ServeTarget, TargetView};
use crate::resolve::{newest_pinnable, spans_for, version_at};
use crate::span::{copy_spans, Span};
use crate::text::same;

verus! {

/// One entry of a lock: the revision an attribute is taken from, and the
/// version it has there.
#[derive(Debug)]
pub struct Pin {
    pub rev: String,
    pub label: String,
    pub version: String,
    pub date: String,
    /// The version prefix that the pin was added with, if any. An update stays
    /// inside it: a pin added as `python3@3.8` is a decision to be on 3.8.
    pub constraint: Option<String>,
}

/// What a [`Pin`] holds.
pub struct PinView {
    pub rev: Seq<char>,
    pub label: Seq<char>,
    pub version: Seq<char>,
    pub date: Seq<char>,
    pub constraint: Option<Seq<char>>,
}

impl View for Pin {
    type V = PinView;

    open spec fn view(&self) -> PinView {
        PinView {
            rev: self.rev@,
            label: self.label@,
            version: self.version@,
            date: self.date@,
            constraint: crate::constraint::optional_text(self.constraint),
        }
    }
}

impl Clone for Pin {
    fn clone(&self) -> (r: Pin)
        ensures
            r == *self,
    {
        Pin {
            rev: self.rev.clone(),
            label: self.label.clone(),
            version: self.version.clone(),
            date: self.date.clone(),
            constraint: copy_optional(&self.constraint),
        }
    }
}

/// Whether the revision at an offset satisfies a constraint and can be
/// fetched.
pub open spec fn pinnable(index: IndexView, c: ConstraintView, off: int) -> bool {
    crate::resolve::satisfied(index, c, off) && index.materialisable(off)
}

/// Whether `off` is the newest revision that satisfies a constraint and can be
/// fetched: the one that decides the version.
pub open spec fn decides(index: IndexView, c: ConstraintView, off: int) -> bool {
    &&& pinnable(index, c, off)
    &&& forall|o: int| #[trigger] pinnable(index, c, o) ==> o <= off
}

/// The newest revision that satisfies a constraint and can be fetched.
pub open spec fn deciding(index: IndexView, c: ConstraintView) -> int {
    choose|off: int| decides(index, c, off)
}

/// Why a constraint cannot be resolved.
pub open spec fn resolve_failure(index: IndexView, c: ConstraintView) -> Option<
    Failure<Seq<char>>,
> {
    if index.runs_of(c.attr).len() == 0 {
        Some(Failure::NotIndexed { attr: c.attr })
    } else if forall|off: int| !#[trigger] crate::resolve::satisfied(index, c, off) {
        Some(Failure::NeverExisted { wanted: c.described() })
    } else if forall|off: int| !#[trigger] pinnable(index, c, off) {
        Some(Failure::NotFetchable)
    } else {
        None
    }
}

/// The version that a constraint resolves to.
pub open spec fn resolved_version(index: IndexView, c: ConstraintView) -> Seq<char> {
    crate::resolve::shipped(index, c.attr, deciding(index, c))->0
}

/// The pin of a constraint at a revision.
pub open spec fn pin_at(index: IndexView, c: ConstraintView, off: int) -> PinView {
    PinView {
        rev: index.commits[off].rev,
        label: index.commits[off].label,
        version: resolved_version(index, c),
        date: index.commits[off].date,
        constraint: c.version,
    }
}

/// The pin of a constraint on its own: at the revision that decides its
/// version.
pub open spec fn lone_pin(index: IndexView, c: ConstraintView) -> PinView {
    pin_at(index, c, deciding(index, c))
}

/// One revision at most decides the version.
pub proof fn deciding_is_unique(index: IndexView, c: ConstraintView, off: int)
    requires
        decides(index, c, off),
    ensures
        deciding(index, c) == off,
{
    let other = deciding(index, c);
    assert(decides(index, c, other));
    assert(pinnable(index, c, off) && pinnable(index, c, other));
}

/// Find the revision that decides the version of a constraint.
fn decide(index: &Index, constraint: &Constraint) -> (r: Result<i64, Error>)
    ensures
        index@.valid(),
        match r {
            Ok(off) => {
                &&& resolve_failure(index@, constraint@) is None
                &&& decides(index@, constraint@, off as int)
                &&& off == deciding(index@, constraint@)
                &&& 0 <= off < index@.covered
                &&& crate::resolve::shipped(index@, constraint.attr@, off as int) is Some
            },
            Err(e) => resolve_failure(index@, constraint@) == Some(e@),
        },
{
    let spans: Vec<Span> = match spans_for(index, constraint) {
        Ok(spans) => spans,
        Err(e) => {
            return Err(e);
        },
    };
    let ghost c = constraint@;
    if spans.len() == 0 {
        proof {
            assert forall|off: int| !#[trigger] crate::resolve::satisfied(index@, c, off) by {
                assert(!crate::span::covers(spans@, off));
            }
        }
        return Err(Failure::NeverExisted { wanted: constraint.describe() });
    }
    proof {
        let first = spans@[0].0 as int;
        assert(crate::span::spans_over(spans@[0], first));
        assert(crate::span::covers(spans@, first));
        assert(crate::resolve::satisfied(index@, c, first));
    }
    match newest_pinnable(index, spans.as_slice()) {
        Ok(off) => {
            proof {
                assert(pinnable(index@, c, off as int));
                assert forall|o: int| #[trigger] pinnable(index@, c, o) implies o <= off by {
                    assert(crate::span::covers(spans@, o));
                }
                assert(decides(index@, c, off as int));
                deciding_is_unique(index@, c, off as int);
                crate::resolve::satisfying_offset_is_covered(index@, c, off as int);
                crate::resolve::satisfying_revision_ships_accepted_version(
                    index@,
                    c,
                    off as int,
                );
            }
            Ok(off)
        },
        Err(e) => {
            proof {
                assert forall|off: int| !#[trigger] pinnable(index@, c, off) by {
                    if crate::resolve::satisfied(index@, c, off) {
                        assert(crate::span::covers(spans@, off));
                    }
                }
            }
            Err(e)
        },
    }
}

/// The version of an attribute at a revision that is known to ship one.
fn known_version(index: &Index, attr: &str, off: i64) -> (r: String)
    requires
        crate::resolve::shipped(index@, attr@, off as int) is Some,
    ensures
        Some(r@) == crate::resolve::shipped(index@, attr@, off as int),
{
    match version_at(index, attr, off) {
        Some(version) => version,
        None => {
            assert(false);
            String::new()
        },
    }
}

/// Resolve a constraint to the revision a pin should name: the newest indexed
/// revision that satisfies it and can be fetched.
///
/// This is the reference that the status of a lock is measured against. Adding
/// and updating resolve the same version, but choose the serving revision
/// through a plan, which may share one across pins.
pub fn pin_for(index: &Index, constraint: &Constraint) -> (r: Result<Pin, Error>)
    ensures
        index@.valid(),
        match r {
            Ok(pin) => {
                &&& resolve_failure(index@, constraint@) is None
                &&& pin@ == lone_pin(index@, constraint@)
            },
            Err(e) => resolve_failure(index@, constraint@) == Some(e@),
        },
{
    let off: i64 = match decide(index, constraint) {
        Ok(off) => off,
        Err(e) => {
            return Err(e);
        },
    };
    let revision: Revision = index.revision_at(off);
    let version: String = known_version(index, constraint.attr.as_str(), off);
    Ok(
        Pin {
            rev: revision.rev,
            label: revision.label,
            version,
            date: revision.date,
            constraint: copy_optional(&constraint.version),
        },
    )
}

/// The spans of the runs that carry a version.
pub open spec fn carrying(runs: Seq<RunView>, version: Seq<char>) -> Seq<Span>
    decreases runs.len(),
{
    if runs.len() == 0 {
        Seq::empty()
    } else {
        let rest = carrying(runs.drop_last(), version);
        if runs.last().version == version {
            rest.push((runs.last().first as i64, runs.last().last as i64))
        } else {
            rest
        }
    }
}

/// The newest fetchable offset of each span that has one.
pub open spec fn fetchable(index: IndexView, spans: Seq<Span>) -> Seq<i64>
    decreases spans.len(),
{
    if spans.len() == 0 {
        Seq::empty()
    } else {
        let rest = fetchable(index, spans.drop_last());
        let (first, last) = spans.last();
        if index.none_in(first as int, last as int) {
            rest
        } else {
            rest.push(choose|off: i64| index.newest_in(first as int, last as int, off as int))
        }
    }
}

/// What a constraint asks of a plan: its version is decided, and these are the
/// places that carry it.
pub open spec fn target_of(index: IndexView, c: ConstraintView) -> TargetView {
    let spans = carrying(index.runs_of(c.attr), resolved_version(index, c));
    TargetView { key: c.attr, spans, candidates: fetchable(index, spans) }
}

/// A pin whose version is decided but whose serving revision is not yet. Which
/// revision serves it is for the plan to say.
#[derive(Debug)]
pub struct Target {
    /// The constraint that is resolved.
    pub constraint: Constraint,
    /// The version it resolves to.
    pub version: String,
    /// Every span carrying that version.
    pub spans: Vec<Span>,
    /// The newest fetchable offset in each span that has one.
    pub candidates: Vec<i64>,
}

impl Target {
    /// The constraint that is resolved.
    pub open spec fn asked(self) -> ConstraintView {
        self.constraint@
    }

    /// What this asks of a plan.
    pub open spec fn to_serve(self) -> TargetView {
        TargetView {
            key: self.constraint.attr@,
            spans: self.spans@,
            candidates: self.candidates@,
        }
    }

    /// Whether this is the target of its constraint: it has the version that the
    /// constraint resolves to, and every place that carries it.
    pub open spec fn resolves(self, index: IndexView) -> bool {
        &&& resolve_failure(index, self.asked()) is None
        &&& self.version@ == resolved_version(index, self.asked())
        &&& self.to_serve() == target_of(index, self.asked())
    }
}

/// Resolve a constraint to its version, and collect where that version can be
/// had.
pub fn target_for(index: &Index, constraint: Constraint) -> (r: Result<Target, Error>)
    ensures
        index@.valid(),
        match r {
            Ok(target) => {
                &&& resolve_failure(index@, constraint@) is None
                &&& target.asked() == constraint@
                &&& target.resolves(index@)
            },
            Err(e) => resolve_failure(index@, constraint@) == Some(e@),
        },
{
    let ghost c = constraint@;
    let off: i64 = match decide(index, &constraint) {
        Ok(off) => off,
        Err(e) => {
            return Err(e);
        },
    };
    let version: String = known_version(index, constraint.attr.as_str(), off);
    let runs: Vec<Run> = index.runs_of(constraint.attr.as_str());
    let ghost views = index@.runs_of(constraint.attr@);
    let mut spans: Vec<Span> = Vec::new();
    let mut i: usize = 0;
    while i < runs.len()
        invariant
            i <= runs@.len(),
            crate::index::run_views(runs@) == views,
            spans@ == carrying(views.take(i as int), version@),
        decreases runs@.len() - i,
    {
        proof {
            assert(views.take(i + 1).drop_last() =~= views.take(i as int));
            assert(views.take(i + 1).last() == runs@[i as int]@);
        }
        if same(runs[i].version.as_str(), version.as_str()) {
            spans.push((runs[i].first, runs[i].last));
        }
        i = i + 1;
    }
    proof {
        assert(views.len() == runs@.len());
        assert(views.take(views.len() as int) =~= views);
    }
    let mut candidates: Vec<i64> = Vec::new();
    let mut k: usize = 0;
    while k < spans.len()
        invariant
            k <= spans@.len(),
            index@.valid(),
            candidates@ == fetchable(index@, spans@.take(k as int)),
        decreases spans@.len() - k,
    {
        proof {
            assert(spans@.take(k + 1).drop_last() =~= spans@.take(k as int));
            assert(spans@.take(k + 1).last() == spans@[k as int]);
        }
        let (first, last) = spans[k];
        match index.newest_materialisable_in(first, last) {
            Some(newest) => {
                proof {
                    newest_in_is_unique(index@, first as int, last as int, newest);
                    assert(index@.materialisable(newest as int));
                }
                candidates.push(newest);
            },
            None => {},
        }
        k = k + 1;
    }
    proof {
        assert(spans@.take(spans@.len() as int) =~= spans@);
    }
    Ok(Target { constraint, version, spans, candidates })
}

proof fn newest_in_is_unique(index: IndexView, first: int, last: int, off: i64)
    requires
        index.newest_in(first, last, off as int),
    ensures
        off == (choose|o: i64| index.newest_in(first, last, o as int)),
{
    let other = choose|o: i64| index.newest_in(first, last, o as int);
    assert(index.newest_in(first, last, other as int));
    if other < off {
        assert(index.materialisable(off as int));
    }
    if off < other {
        assert(index.materialisable(other as int));
    }
}

/// Whether the run at a place has a version and reaches over an offset.
pub open spec fn carried_by(runs: Seq<RunView>, version: Seq<char>, i: int, off: int) -> bool {
    0 <= i < runs.len() && runs[i].version == version && runs[i].contains(off)
}

/// Exactly the offsets of the runs with a version are covered by the spans
/// that carry it.
pub proof fn carrying_covers(runs: Seq<RunView>, version: Seq<char>, covered: nat, off: int)
    requires
        crate::index::runs_fit(runs, covered),
        covered <= i64::MAX,
    ensures
        crate::span::covers(carrying(runs, version), off) <==> exists|i: int| #[trigger]
            carried_by(runs, version, i, off),
    decreases runs.len(),
{
    let spans = carrying(runs, version);
    if runs.len() > 0 {
        let rest = runs.drop_last();
        let inner = carrying(rest, version);
        let last = runs.len() - 1;
        assert forall|i: int| 0 <= i < rest.len() implies 0 <= (#[trigger] rest[i]).first
            <= rest[i].last < covered by {
            assert(rest[i] == runs[i]);
        }
        carrying_covers(rest, version, covered, off);
        assert(0 <= runs[last].first <= runs[last].last < covered);
        if crate::span::covers(spans, off) {
            let k = choose|k: int|
                0 <= k < spans.len() && #[trigger] crate::span::spans_over(spans[k], off);
            if k < inner.len() {
                assert(crate::span::spans_over(inner[k], off));
                assert(crate::span::covers(inner, off));
                let i = choose|i: int| #[trigger] carried_by(rest, version, i, off);
                assert(carried_by(runs, version, i, off));
            } else {
                assert(carried_by(runs, version, last, off));
            }
        }
        if exists|i: int| #[trigger] carried_by(runs, version, i, off) {
            let i = choose|i: int| #[trigger] carried_by(runs, version, i, off);
            if i < last {
                assert(carried_by(rest, version, i, off));
                assert(crate::span::covers(inner, off));
                let k = choose|k: int|
                    0 <= k < inner.len() && #[trigger] crate::span::spans_over(inner[k], off);
                assert(crate::span::spans_over(spans[k], off));
            } else {
                assert(crate::span::spans_over(spans[spans.len() - 1], off));
            }
        }
    } else {
        assert(!crate::span::covers(spans, off));
    }
}

/// Whether `off` is the newest fetchable offset of the span at a place.
pub open spec fn newest_at(index: IndexView, spans: Seq<Span>, k: int, off: i64) -> bool {
    0 <= k < spans.len() && index.newest_in(spans[k].0 as int, spans[k].1 as int, off as int)
}

/// Exactly the newest fetchable offsets of the spans are the candidates.
pub proof fn fetchable_members(index: IndexView, spans: Seq<Span>, off: i64)
    ensures
        fetchable(index, spans).contains(off) <==> exists|k: int| #[trigger]
            newest_at(index, spans, k, off),
    decreases spans.len(),
{
    let out = fetchable(index, spans);
    if spans.len() > 0 {
        let rest = spans.drop_last();
        let inner = fetchable(index, rest);
        let n = spans.len() - 1;
        let (first, last) = spans.last();
        fetchable_members(index, rest, off);
        if !index.none_in(first as int, last as int) {
            let o = choose|o: int| first <= o <= last && #[trigger] index.materialisable(o);
            newest_in_exists(index, first as int, last as int, o);
            let newest = choose|o: i64| index.newest_in(first as int, last as int, o as int);
            assert(out == inner.push(newest));
            assert(newest_at(index, spans, n, newest));
        }
        if out.contains(off) {
            let k = choose|k: int| 0 <= k < out.len() && out[k] == off;
            if k < inner.len() {
                assert(inner[k] == off);
                assert(inner.contains(off));
                let m = choose|m: int| #[trigger] newest_at(index, rest, m, off);
                assert(newest_at(index, spans, m, off));
            }
        }
        if exists|k: int| #[trigger] newest_at(index, spans, k, off) {
            let k = choose|k: int| #[trigger] newest_at(index, spans, k, off);
            if k < n {
                assert(newest_at(index, rest, k, off));
                assert(inner.contains(off));
                let m = choose|m: int| 0 <= m < inner.len() && inner[m] == off;
                assert(out[m] == off);
            } else {
                assert(index.materialisable(off as int));
                newest_in_is_unique(index, first as int, last as int, off);
                assert(out[out.len() - 1] == off);
            }
        }
    } else {
        assert(!out.contains(off));
    }
}

/// A span that has a fetchable offset has a newest one.
pub proof fn newest_in_exists(index: IndexView, first: int, last: int, o: int)
    requires
        first <= o <= last,
        i64::MIN <= first,
        last <= i64::MAX,
        index.materialisable(o),
    ensures
        exists|off: i64| #[trigger] index.newest_in(first, last, off as int),
    decreases last - o,
{
    if exists|p: int| o < p <= last && #[trigger] index.materialisable(p) {
        let p = choose|p: int| o < p <= last && #[trigger] index.materialisable(p);
        newest_in_exists(index, first, last, p);
    } else {
        assert(index.newest_in(first, last, (o as i64) as int));
    }
}

/// A resolved constraint has candidates, and each of them is a fetchable
/// revision that carries the decided version.
pub proof fn target_is_servable(index: IndexView, c: ConstraintView)
    requires
        index.valid(),
        resolve_failure(index, c) is None,
    ensures
        target_of(index, c).servable(),
        crate::plan_laws::proper(target_of(index, c)),
        forall|off: i64| #[trigger]
            target_of(index, c).candidates.contains(off) ==> index.materialisable(off as int),
{
    let t = target_of(index, c);
    let runs = index.runs_of(c.attr);
    let version = resolved_version(index, c);
    resolved_is_decided(index, c);
    let off = deciding(index, c);
    crate::resolve::satisfying_revision_ships_accepted_version(index, c, off);
    let i = crate::resolve::first_run(runs, off, 0);
    let k = choose|k: int| #[trigger] crate::resolve::satisfied_by(runs, c, k, off);
    crate::resolve::first_run_is_first(runs, off, 0, k);
    assert(crate::index::runs_fit(runs, index.covered));
    assert(carried_by(runs, version, i, off));
    carrying_covers(runs, version, index.covered, off);
    let m = choose|m: int|
        0 <= m < t.spans.len() && #[trigger] crate::span::spans_over(t.spans[m], off);
    newest_in_exists(index, t.spans[m].0 as int, t.spans[m].1 as int, off);
    let newest = choose|o: i64| #[trigger]
        index.newest_in(t.spans[m].0 as int, t.spans[m].1 as int, o as int);
    assert(newest_at(index, t.spans, m, newest));
    fetchable_members(index, t.spans, newest);
    assert forall|o: i64| #[trigger] t.candidates.contains(o) implies t.served_at(o)
        && index.materialisable(o as int) by {
        fetchable_members(index, t.spans, o);
        let n = choose|n: int| #[trigger] newest_at(index, t.spans, n, o);
        assert(crate::span::spans_over(t.spans[n], o as int));
    }
    let n = choose|n: int| 0 <= n < t.candidates.len() && t.candidates[n] == newest;
    assert(t.candidates.contains(newest));
    assert(t.served_at(t.candidates[n]));
}

/// Where nothing keeps a constraint from being resolved, a revision decides
/// its version.
pub proof fn resolved_is_decided(index: IndexView, c: ConstraintView)
    requires
        index.valid(),
        resolve_failure(index, c) is None,
    ensures
        decides(index, c, deciding(index, c)),
        0 <= deciding(index, c) < index.covered,
{
    let o = choose|o: int| #[trigger] pinnable(index, c, o);
    assert(pinnable(index, c, o));
    decision_exists(index, c, o);
    crate::resolve::satisfying_offset_is_covered(index, c, deciding(index, c));
}

proof fn decision_exists(index: IndexView, c: ConstraintView, o: int)
    requires
        index.valid(),
        pinnable(index, c, o),
    ensures
        exists|off: int| decides(index, c, off),
    decreases index.covered - o,
{
    crate::resolve::satisfying_offset_is_covered(index, c, o);
    if exists|p: int| o < p && #[trigger] pinnable(index, c, p) {
        let p = choose|p: int| o < p && #[trigger] pinnable(index, c, p);
        crate::resolve::satisfying_offset_is_covered(index, c, p);
        decision_exists(index, c, p);
    } else {
        assert(decides(index, c, o));
    }
}

/// The revisions of the pins that hold still, as far as the index knows them.
pub open spec fn paid_for(index: IndexView, untouched: Map<Seq<char>, PinView>) -> Set<i64> {
    Set::new(|off: i64| is_paid_for(index, untouched, off))
}

/// Whether a pin that holds still names the revision at an offset.
pub open spec fn is_paid_for(
    index: IndexView,
    untouched: Map<Seq<char>, PinView>,
    off: i64,
) -> bool {
    exists|key: Seq<char>| #[trigger]
        untouched.contains_key(key) && index.found_by_prefix(untouched[key].rev, off as int)
}

/// What the constraints ask of a plan.
pub open spec fn targets_of(index: IndexView, constraints: Seq<ConstraintView>) -> Seq<TargetView> {
    constraints.map_values(|c: ConstraintView| target_of(index, c))
}

/// Whether one of the constraints is about an attribute.
pub open spec fn asks_for(constraints: Seq<ConstraintView>, attr: Seq<char>) -> bool {
    exists|i: int| 0 <= i < constraints.len() && (#[trigger] constraints[i]).attr == attr
}

/// The constraint about an attribute.
pub open spec fn asking(constraints: Seq<ConstraintView>, attr: Seq<char>) -> ConstraintView {
    constraints[choose|i: int| 0 <= i < constraints.len() && (#[trigger] constraints[i]).attr
        == attr]
}

/// Whether no two constraints are about the same attribute.
pub open spec fn attrs_distinct(constraints: Seq<ConstraintView>) -> bool {
    forall|i: int, j: int|
        0 <= i < j < constraints.len() ==> (#[trigger] constraints[i]).attr != (
        #[trigger] constraints[j]).attr
}

/// The serving revision of every constraint.
pub open spec fn serving(
    index: IndexView,
    constraints: Seq<ConstraintView>,
    untouched: Map<Seq<char>, PinView>,
) -> Map<Seq<char>, i64> {
    crate::plan::plan(targets_of(index, constraints), paid_for(index, untouched))
}

/// The pins of these constraints, resolved together beside the pins that hold
/// still: each at its own version, at the revision that the plan gives it.
pub open spec fn planned(
    index: IndexView,
    constraints: Seq<ConstraintView>,
    untouched: Map<Seq<char>, PinView>,
) -> Map<Seq<char>, PinView> {
    Map::new(
        |attr: Seq<char>| asks_for(constraints, attr),
        |attr: Seq<char>|
            pin_at(
                index,
                asking(constraints, attr),
                serving(index, constraints, untouched)[attr] as int,
            ),
    )
}

/// What the pins of a map hold.
pub open spec fn pin_views(pins: Map<Seq<char>, Pin>) -> Map<Seq<char>, PinView> {
    pins.map_values(|p: Pin| p@)
}

/// What a sequence of targets asks.
pub open spec fn asked_by(targets: Seq<Target>) -> Seq<ConstraintView> {
    targets.map_values(|t: Target| t.asked())
}

/// The offsets of the pins that hold still. A revision the index does not know
/// cannot be shared with, and is passed over.
fn fixed_offsets(index: &Index, untouched: &StringMap<Pin>) -> (r: Vec<i64>)
    ensures
        index@.valid(),
        r@.to_set() == paid_for(index@, pin_views(untouched@)),
{
    let _ = index.covered_tip();
    let entries: &Vec<(String, Pin)> = untouched.entries();
    let ghost views = pin_views(untouched@);
    let mut out: Vec<i64> = Vec::new();
    let mut i: usize = 0;
    while i < entries.len()
        invariant
            i <= entries@.len(),
            index@.valid(),
            views == pin_views(untouched@),
            crate::map::lists(entries@, untouched@),
            forall|off: i64| #[trigger]
                out@.contains(off) <==> exists|k: int|
                    0 <= k < i && index@.found_by_prefix(
                        (#[trigger] entries@[k]).1.rev@,
                        off as int,
                    ),
        decreases entries@.len() - i,
    {
        let ghost before = out@;
        let rev: &str = entries[i].1.rev.as_str();
        match index.revision_by_prefix(rev) {
            Some(revision) => {
                out.push(revision.off);
                assert forall|off: i64| #[trigger] out@.contains(off) <==> exists|k: int|
                    0 <= k < i + 1 && index@.found_by_prefix(
                        (#[trigger] entries@[k]).1.rev@,
                        off as int,
                    ) by {
                    if out@.contains(off) {
                        let m = choose|m: int| 0 <= m < out@.len() && out@[m] == off;
                        if m < before.len() {
                            assert(before[m] == off);
                            assert(before.contains(off));
                        } else {
                            assert(index@.found_by_prefix(
                                entries@[i as int].1.rev@,
                                off as int,
                            ));
                        }
                    }
                    if exists|k: int|
                        0 <= k < i + 1 && index@.found_by_prefix(
                            (#[trigger] entries@[k]).1.rev@,
                            off as int,
                        ) {
                        let k = choose|k: int|
                            0 <= k < i + 1 && index@.found_by_prefix(
                                (#[trigger] entries@[k]).1.rev@,
                                off as int,
                            );
                        if k < i {
                            assert(before.contains(off));
                            let m = choose|m: int| 0 <= m < before.len() && before[m] == off;
                            assert(out@[m] == off);
                        } else {
                            found_is_unique(index@, rev@, off as int, revision.off as int);
                            assert(out@[before.len() as int] == off);
                        }
                    }
                }
            },
            None => {
                assert forall|off: i64| #[trigger] out@.contains(off) <==> exists|k: int|
                    0 <= k < i + 1 && index@.found_by_prefix(
                        (#[trigger] entries@[k]).1.rev@,
                        off as int,
                    ) by {
                    if exists|k: int|
                        0 <= k < i + 1 && index@.found_by_prefix(
                            (#[trigger] entries@[k]).1.rev@,
                            off as int,
                        ) {
                        let k = choose|k: int|
                            0 <= k < i + 1 && index@.found_by_prefix(
                                (#[trigger] entries@[k]).1.rev@,
                                off as int,
                            );
                        if k == i {
                            assert(index@.has_prefix(off as int, rev@));
                        }
                    }
                }
            },
        }
        i = i + 1;
    }
    proof {
        let paid = paid_for(index@, views);
        assert forall|off: i64| out@.to_set().contains(off) <==> paid.contains(off) by {
            if out@.contains(off) {
                let k = choose|k: int|
                    0 <= k < i && index@.found_by_prefix(
                        (#[trigger] entries@[k]).1.rev@,
                        off as int,
                    );
                let key = entries@[k].0@;
                assert(untouched@.contains_key(key));
                assert(views.contains_key(key));
                assert(views[key].rev == entries@[k].1.rev@);
            }
            if paid.contains(off) {
                let key = choose|key: Seq<char>| #[trigger]
                    views.contains_key(key) && index@.found_by_prefix(
                        views[key].rev,
                        off as int,
                    );
                assert(untouched@.contains_key(key));
                let k = choose|k: int|
                    0 <= k < entries@.len() && #[trigger] entries@[k].0@ == key;
                assert(entries@[k].1 == untouched@[key]);
                assert(views[key].rev == entries@[k].1.rev@);
                assert(out@.contains(off));
            }
        }
        assert(out@.to_set() =~= paid);
    }
    out
}

proof fn found_is_unique(index: IndexView, prefix: Seq<char>, a: int, b: int)
    requires
        index.found_by_prefix(prefix, a),
        index.found_by_prefix(prefix, b),
    ensures
        a == b,
{
    if a < b {
        assert(index.has_prefix(b, prefix));
    }
    if b < a {
        assert(index.has_prefix(a, prefix));
    }
}

/// The targets of constraints about different attributes have different keys.
pub proof fn targets_are_distinct(index: IndexView, constraints: Seq<ConstraintView>)
    requires
        attrs_distinct(constraints),
    ensures
        crate::plan_laws::distinct(targets_of(index, constraints)),
{
    let ts = targets_of(index, constraints);
    assert forall|i: int, j: int| 0 <= i < j < ts.len() implies (#[trigger] ts[i]).key != (
    #[trigger] ts[j]).key by {
        assert(constraints[i].attr != constraints[j].attr);
    }
}

/// Whether every constraint can be resolved.
pub open spec fn all_resolve(index: IndexView, constraints: Seq<ConstraintView>) -> bool {
    forall|i: int|
        0 <= i < constraints.len() ==> resolve_failure(index, #[trigger] constraints[i]) is None
}

/// Constraints that can be resolved can be planned for.
pub proof fn targets_are_servable(
    index: IndexView,
    constraints: Seq<ConstraintView>,
    fixed: Set<i64>,
)
    requires
        index.valid(),
        all_resolve(index, constraints),
    ensures
        crate::plan::all_servable(
            crate::plan::left_over(targets_of(index, constraints), fixed),
        ),
        forall|i: int|
            0 <= i < constraints.len() ==> crate::plan_laws::proper(
                #[trigger] targets_of(index, constraints)[i],
            ),
{
    let ts = targets_of(index, constraints);
    let left = crate::plan::left_over(ts, fixed);
    crate::plan_laws::left_over_members(ts, fixed);
    assert forall|i: int| 0 <= i < left.len() implies (#[trigger] left[i]).servable() by {
        assert(left.contains(left[i]));
        let k = choose|k: int| 0 <= k < ts.len() && ts[k] == left[i];
        assert(resolve_failure(index, constraints[k]) is None);
        target_is_servable(index, constraints[k]);
    }
    assert forall|i: int| 0 <= i < constraints.len() implies crate::plan_laws::proper(
        #[trigger] ts[i],
    ) by {
        assert(resolve_failure(index, constraints[i]) is None);
        target_is_servable(index, constraints[i]);
    }
}

/// The plan gives every constraint a revision of the index.
pub proof fn serving_is_in_index(
    index: IndexView,
    constraints: Seq<ConstraintView>,
    untouched: Map<Seq<char>, PinView>,
    i: int,
)
    requires
        index.valid(),
        attrs_distinct(constraints),
        all_resolve(index, constraints),
        0 <= i < constraints.len(),
    ensures
        serving(index, constraints, untouched).contains_key(constraints[i].attr),
        target_of(index, constraints[i]).served_at(
            serving(index, constraints, untouched)[constraints[i].attr],
        ),
        0 <= serving(index, constraints, untouched)[constraints[i].attr] < index.commits.len(),
{
    let ts = targets_of(index, constraints);
    let fixed = paid_for(index, untouched);
    let left = crate::plan::left_over(ts, fixed);
    let out = serving(index, constraints, untouched);
    targets_are_distinct(index, constraints);
    targets_are_servable(index, constraints, fixed);
    crate::plan_laws::plan_serves_every_target(ts, fixed);
    assert(ts[i] == target_of(index, constraints[i]));
    let off = out[ts[i].key];
    if ts[i].served_free(fixed) {
        crate::plan_laws::newest_free_serves(ts[i], fixed);
    } else {
        crate::plan_laws::left_over_members(ts, fixed);
        let k = choose|k: int| 0 <= k < left.len() && (#[trigger] left[k]).candidates.contains(off);
        assert(left.contains(left[k]));
        let m = choose|m: int| 0 <= m < ts.len() && ts[m] == left[k];
        assert(resolve_failure(index, constraints[m]) is None);
        target_is_servable(index, constraints[m]);
        assert(target_of(index, constraints[m]).candidates.contains(off));
    }
}

/// Of constraints about different attributes each is found by its own.
pub proof fn asking_finds(constraints: Seq<ConstraintView>, i: int)
    requires
        attrs_distinct(constraints),
        0 <= i < constraints.len(),
    ensures
        asks_for(constraints, constraints[i].attr),
        asking(constraints, constraints[i].attr) == constraints[i],
{
    let attr = constraints[i].attr;
    assert(constraints[i].attr == attr);
    let k = choose|k: int| 0 <= k < constraints.len() && (#[trigger] constraints[k]).attr == attr;
    if k < i {
        assert(constraints[k].attr != constraints[i].attr);
    }
    if i < k {
        assert(constraints[i].attr != constraints[k].attr);
    }
}

/// Serving revisions for several targets at once, sharing wherever the
/// versions' lifetimes allow, also with `untouched`, the pins that hold still:
/// their revisions are already paid for. Those pins are only read.
pub fn plan_pins(index: &Index, targets: &Vec<Target>, untouched: &StringMap<Pin>) -> (r: StringMap<
    Pin,
>)
    requires
        forall|i: int| 0 <= i < targets@.len() ==> (#[trigger] targets@[i]).resolves(index@),
        attrs_distinct(asked_by(targets@)),
    ensures
        pin_views(r@) == planned(index@, asked_by(targets@), pin_views(untouched@)),
{
    let fixed: Vec<i64> = fixed_offsets(index, untouched);
    let ghost cs = asked_by(targets@);
    let ghost still = pin_views(untouched@);
    let ghost ts = targets_of(index@, cs);
    let mut serve: Vec<ServeTarget> = Vec::new();
    let mut i: usize = 0;
    while i < targets.len()
        invariant
            i <= targets@.len(),
            cs == asked_by(targets@),
            ts == targets_of(index@, cs),
            forall|k: int| 0 <= k < targets@.len() ==> (#[trigger] targets@[k]).resolves(index@),
            crate::plan::target_views(serve@) == ts.take(i as int),
        decreases targets@.len() - i,
    {
        let t: &Target = &targets[i];
        assert(t.resolves(index@));
        let ghost before = serve@;
        let made: ServeTarget = ServeTarget {
            key: t.constraint.attr.clone(),
            spans: copy_spans(&t.spans),
            candidates: copy_offsets(&t.candidates),
        };
        assert(made@ == ts[i as int]);
        serve.push(made);
        assert(crate::plan::target_views(serve@) =~= crate::plan::target_views(before).push(made@));
        assert(ts.take(i + 1) =~= ts.take(i as int).push(ts[i as int]));
        i = i + 1;
    }
    proof {
        assert(ts.take(ts.len() as int) =~= ts);
        assert forall|k: int| 0 <= k < cs.len() implies resolve_failure(
            index@,
            #[trigger] cs[k],
        ) is None by {
            assert(targets@[k].resolves(index@));
        }
        targets_are_servable(index@, cs, fixed@.to_set());
    }
    let plan: StringMap<i64> = plan_serving(serve.as_slice(), fixed.as_slice());
    let mut pins: StringMap<Pin> = StringMap::new();
    let ghost goal = planned(index@, cs, still);
    let mut j: usize = 0;
    while j < targets.len()
        invariant
            j <= targets@.len(),
            index@.valid(),
            cs == asked_by(targets@),
            attrs_distinct(cs),
            all_resolve(index@, cs),
            plan@ == serving(index@, cs, still),
            goal == planned(index@, cs, still),
            forall|k: int| 0 <= k < targets@.len() ==> (#[trigger] targets@[k]).resolves(index@),
            forall|attr: Seq<char>| #[trigger]
                pins@.contains_key(attr) <==> asks_for(cs.take(j as int), attr),
            forall|attr: Seq<char>| #[trigger]
                pins@.contains_key(attr) ==> pins@[attr]@ == goal[attr],
        decreases targets@.len() - j,
    {
        let t: &Target = &targets[j];
        proof {
            assert(t.resolves(index@));
            assert(cs[j as int] == t.asked());
            serving_is_in_index(index@, cs, still, j as int);
            asking_finds(cs, j as int);
        }
        match plan.get(t.constraint.attr.as_str()) {
            Some(off) => {
                let revision: Revision = index.revision_at(*off);
                let pin: Pin = Pin {
                    rev: revision.rev,
                    label: revision.label,
                    version: t.version.clone(),
                    date: revision.date,
                    constraint: copy_optional(&t.constraint.version),
                };
                let ghost attr = t.constraint.attr@;
                assert(goal.contains_key(attr));
                assert(pin@ == goal[attr]);
                pins.insert(t.constraint.attr.clone(), pin);
            },
            None => {
                assert(false);
            },
        }
        assert forall|attr: Seq<char>| #[trigger] pins@.contains_key(attr) <==> asks_for(
            cs.take(j + 1),
            attr,
        ) by {
            let before = cs.take(j as int);
            let now = cs.take(j + 1);
            if asks_for(before, attr) {
                let k = choose|k: int| 0 <= k < before.len() && (#[trigger] before[k]).attr == attr;
                assert(now[k].attr == attr);
            }
            if asks_for(now, attr) {
                let k = choose|k: int| 0 <= k < now.len() && (#[trigger] now[k]).attr == attr;
                if k < j {
                    assert(before[k].attr == attr);
                }
            }
            if attr == cs[j as int].attr {
                assert(now[j as int].attr == attr);
            }
        }
        j = j + 1;
    }
    proof {
        assert(cs.take(cs.len() as int) =~= cs);
        assert(pin_views(pins@) =~= goal);
    }
    pins
}

fn copy_offsets(offsets: &Vec<i64>) -> (r: Vec<i64>)
    ensures
        r@ == offsets@,
{
    let mut out: Vec<i64> = Vec::new();
    let mut i: usize = 0;
    while i < offsets.len()
        invariant
            i <= offsets@.len(),
            out@ == offsets@.take(i as int),
        decreases offsets@.len() - i,
    {
        out.push(offsets[i]);
        i = i + 1;
        assert(out@ =~= offsets@.take(i as int));
    }
    assert(out@ =~= offsets@);
    out
}

} // verus!
