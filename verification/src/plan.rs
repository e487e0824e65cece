//! As few revisions as a set of decided versions allows.
//!
//! Each target keeps its version; targets whose lifetimes overlap share a
//! revision instead of naming one each. Revisions already paid for come first,
//! and the rest is greedy set cover.

use vstd::prelude::*;

use crate::map::StringMap;
use crate::span::{within, Span};

verus! {

/// One pin awaiting a serving revision: its version is already decided, and
/// these are the places that version was seen.
#[derive(Debug)]
pub struct ServeTarget {
    /// The attribute, which is what the plan keys its answer by.
    pub key: String,
    /// Every span carrying the decided version.
    pub spans: Vec<Span>,
    /// The newest fetchable offset in each span. Beside the revisions already
    /// paid for, a plan picks no other offsets.
    pub candidates: Vec<i64>,
}

/// What a [`ServeTarget`] holds.
pub struct TargetView {
    pub key: Seq<char>,
    pub spans: Seq<Span>,
    pub candidates: Seq<i64>,
}

impl View for ServeTarget {
    type V = TargetView;

    open spec fn view(&self) -> TargetView {
        TargetView { key: self.key@, spans: self.spans@, candidates: self.candidates@ }
    }
}

/// What a sequence of targets holds, target by target.
pub open spec fn target_views(targets: Seq<ServeTarget>) -> Seq<TargetView> {
    targets.map_values(|t: ServeTarget| t@)
}

impl TargetView {
    /// Whether the revision at an offset carries the target's version.
    pub open spec fn served_at(self, off: i64) -> bool {
        crate::span::covers(self.spans, off as int)
    }

    /// Whether a revision already paid for carries the target's version.
    pub open spec fn served_free(self, fixed: Set<i64>) -> bool {
        exists|off: i64| fixed.contains(off) && #[trigger] self.served_at(off)
    }

    /// Whether `off` is the newest revision already paid for that carries the
    /// target's version.
    pub open spec fn is_newest_free(self, fixed: Set<i64>, off: i64) -> bool {
        &&& fixed.contains(off)
        &&& self.served_at(off)
        &&& forall|o: i64| fixed.contains(o) && #[trigger] self.served_at(o) ==> o <= off
    }

    /// The newest revision already paid for that carries the target's version.
    pub open spec fn newest_free(self, fixed: Set<i64>) -> i64 {
        choose|off: i64| self.is_newest_free(fixed, off)
    }

    /// Whether the target can be served by one of its own candidates.
    pub open spec fn servable(self) -> bool {
        exists|k: int| 0 <= k < self.candidates.len() && self.served_at(#[trigger] self.candidates[k])
    }
}

/// Give every target that a revision already paid for can serve the newest
/// such revision.
pub open spec fn free_plan(targets: Seq<TargetView>, fixed: Set<i64>) -> Map<Seq<char>, i64>
    decreases targets.len(),
{
    if targets.len() == 0 {
        Map::empty()
    } else {
        let rest = free_plan(targets.drop_last(), fixed);
        if targets.last().served_free(fixed) {
            rest.insert(targets.last().key, targets.last().newest_free(fixed))
        } else {
            rest
        }
    }
}

/// The targets that no revision already paid for can serve.
pub open spec fn left_over(targets: Seq<TargetView>, fixed: Set<i64>) -> Seq<TargetView>
    decreases targets.len(),
{
    if targets.len() == 0 {
        Seq::empty()
    } else {
        let rest = left_over(targets.drop_last(), fixed);
        if targets.last().served_free(fixed) {
            rest
        } else {
            rest.push(targets.last())
        }
    }
}

/// How many targets the revision at an offset serves.
pub open spec fn score(targets: Seq<TargetView>, off: i64) -> nat
    decreases targets.len(),
{
    if targets.len() == 0 {
        0
    } else if targets.last().served_at(off) {
        score(targets.drop_last(), off) + 1
    } else {
        score(targets.drop_last(), off)
    }
}

/// Whether an offset is a candidate of one of the targets.
pub open spec fn is_candidate(targets: Seq<TargetView>, off: i64) -> bool {
    exists|i: int| 0 <= i < targets.len() && (#[trigger] targets[i]).candidates.contains(off)
}

/// Whether `a` is no better than `b`: it serves fewer targets, or as many from
/// no newer a revision.
pub open spec fn no_better(targets: Seq<TargetView>, a: i64, b: i64) -> bool {
    score(targets, a) < score(targets, b) || (score(targets, a) == score(targets, b) && a <= b)
}

/// Whether `off` is the candidate that serves the most targets, the newest
/// among equals.
pub open spec fn is_best(targets: Seq<TargetView>, off: i64) -> bool {
    &&& is_candidate(targets, off)
    &&& forall|o: i64| #[trigger] is_candidate(targets, o) ==> no_better(targets, o, off)
}

/// The candidate that serves the most targets, the newest among equals.
pub open spec fn best(targets: Seq<TargetView>) -> i64 {
    choose|off: i64| is_best(targets, off)
}

/// The targets that the revision at an offset does not serve.
pub open spec fn unserved(targets: Seq<TargetView>, off: i64) -> Seq<TargetView>
    decreases targets.len(),
{
    if targets.len() == 0 {
        Seq::empty()
    } else {
        let rest = unserved(targets.drop_last(), off);
        if targets.last().served_at(off) {
            rest
        } else {
            rest.push(targets.last())
        }
    }
}

/// Give an offset to every target that it serves.
pub open spec fn assign(
    targets: Seq<TargetView>,
    off: i64,
    assigned: Map<Seq<char>, i64>,
) -> Map<Seq<char>, i64>
    decreases targets.len(),
{
    if targets.len() == 0 {
        assigned
    } else {
        let rest = assign(targets.drop_last(), off, assigned);
        if targets.last().served_at(off) {
            rest.insert(targets.last().key, off)
        } else {
            rest
        }
    }
}

/// Greedy set cover: take the best candidate, give it to all that it serves,
/// and go on with the others.
pub open spec fn cover(targets: Seq<TargetView>, assigned: Map<Seq<char>, i64>) -> Map<
    Seq<char>,
    i64,
>
    decreases targets.len(),
{
    let off = best(targets);
    let rest = unserved(targets, off);
    if rest.len() < targets.len() {
        cover(rest, assign(targets, off, assigned))
    } else {
        assigned
    }
}

/// The serving revision of every target.
pub open spec fn plan(targets: Seq<TargetView>, fixed: Set<i64>) -> Map<Seq<char>, i64> {
    cover(left_over(targets, fixed), free_plan(targets, fixed))
}

/// The targets at these places.
spec fn at_places(targets: Seq<ServeTarget>, places: Seq<usize>) -> Seq<TargetView> {
    places.map_values(|i: usize| targets[i as int]@)
}

spec fn places_fit(targets: Seq<ServeTarget>, places: Seq<usize>) -> bool {
    forall|k: int| 0 <= k < places.len() ==> (#[trigger] places[k]) < targets.len()
}

/// The newest of the revisions already paid for that can serve a target.
fn newest_fixed(target: &ServeTarget, fixed: &[i64]) -> (r: Option<i64>)
    ensures
        r is Some <==> target@.served_free(fixed@.to_set()),
        r matches Some(off) ==> off == target@.newest_free(fixed@.to_set()),
{
    let ghost set = fixed@.to_set();
    let mut found: Option<i64> = None;
    let mut i: usize = 0;
    while i < fixed.len()
        invariant
            i <= fixed@.len(),
            set == fixed@.to_set(),
            found is None ==> forall|k: int|
                0 <= k < i ==> !target@.served_at(#[trigger] fixed@[k]),
            found matches Some(off) ==> set.contains(off) && target@.served_at(off) && forall|
                k: int,
            |
                0 <= k < i && target@.served_at(#[trigger] fixed@[k]) ==> fixed@[k] <= off,
        decreases fixed@.len() - i,
    {
        let off: i64 = fixed[i];
        if within(target.spans.as_slice(), off) {
            assert(fixed@.contains(fixed@[i as int]));
            match found {
                None => {
                    found = Some(off);
                },
                Some(newest) => {
                    if newest < off {
                        found = Some(off);
                    }
                },
            }
        }
        i = i + 1;
    }
    proof {
        match found {
            Some(off) => {
                assert forall|o: i64| set.contains(o) && #[trigger] target@.served_at(
                    o,
                ) implies o <= off by {
                    let k = choose|k: int| 0 <= k < fixed@.len() && fixed@[k] == o;
                    assert(target@.served_at(fixed@[k]));
                }
                assert(target@.is_newest_free(set, off));
                assert(target@.served_free(set));
            },
            None => {
                if target@.served_free(set) {
                    let o = choose|o: i64| set.contains(o) && #[trigger] target@.served_at(o);
                    let k = choose|k: int| 0 <= k < fixed@.len() && fixed@[k] == o;
                    assert(target@.served_at(fixed@[k]));
                }
            },
        }
    }
    found
}

/// How many of the targets at these places an offset serves.
fn score_of(targets: &[ServeTarget], places: &Vec<usize>, off: i64) -> (r: usize)
    requires
        places_fit(targets@, places@),
    ensures
        r == score(at_places(targets@, places@), off),
{
    let ghost views = at_places(targets@, places@);
    let mut n: usize = 0;
    let mut i: usize = 0;
    while i < places.len()
        invariant
            i <= places@.len(),
            n <= i,
            places_fit(targets@, places@),
            views == at_places(targets@, places@),
            n == score(views.take(i as int), off),
        decreases places@.len() - i,
    {
        proof {
            assert(views.take(i + 1).drop_last() =~= views.take(i as int));
            assert(views.take(i + 1).last() == targets@[places@[i as int] as int]@);
        }
        if within(targets[places[i]].spans.as_slice(), off) {
            n = n + 1;
        }
        i = i + 1;
    }
    assert(views.take(views.len() as int) =~= views);
    n
}

/// The candidate that serves the most of the targets at these places, the
/// newest among equals.
fn best_of(targets: &[ServeTarget], places: &Vec<usize>) -> (r: i64)
    requires
        places_fit(targets@, places@),
        exists|c: i64| is_candidate(at_places(targets@, places@), c),
    ensures
        is_best(at_places(targets@, places@), r),
        r == best(at_places(targets@, places@)),
{
    let ghost views = at_places(targets@, places@);
    let mut start: usize = 0;
    proof {
        let c = choose|c: i64| is_candidate(views, c);
        let k = choose|k: int| 0 <= k < views.len() && (#[trigger] views[k]).candidates.contains(c);
        assert(views[k].candidates.len() > 0);
    }
    while targets[places[start]].candidates.len() == 0
        invariant
            places_fit(targets@, places@),
            views == at_places(targets@, places@),
            exists|k: int|
                start <= k < views.len() && (#[trigger] views[k]).candidates.len() > 0,
        decreases places@.len() - start,
    {
        assert(views[start as int] == targets@[places@[start as int] as int]@);
        assert(start < places.len());
        start = start + 1;
    }
    let mut off: i64 = targets[places[start]].candidates[0];
    let mut served: usize = score_of(targets, places, off);
    assert(views[start as int].candidates[0] == off);
    assert(views[start as int].candidates.contains(off));
    assert(is_candidate(views, off));
    let mut i: usize = 0;
    while i < places.len()
        invariant
            i <= places@.len(),
            places_fit(targets@, places@),
            views == at_places(targets@, places@),
            served == score(views, off),
            is_candidate(views, off),
            forall|k: int, o: i64|
                0 <= k < i && #[trigger] views[k].candidates.contains(o) ==> no_better(
                    views,
                    o,
                    off,
                ),
        decreases places@.len() - i,
    {
        let target: &ServeTarget = &targets[places[i]];
        assert(views[i as int] == target@);
        let mut j: usize = 0;
        while j < target.candidates.len()
            invariant
                i < places@.len(),
                j <= target.candidates@.len(),
                places_fit(targets@, places@),
                views == at_places(targets@, places@),
                views[i as int] == target@,
                served == score(views, off),
                is_candidate(views, off),
                forall|k: int, o: i64|
                    0 <= k < i && #[trigger] views[k].candidates.contains(o) ==> no_better(
                        views,
                        o,
                        off,
                    ),
                forall|m: int|
                    0 <= m < j ==> no_better(views, #[trigger] target.candidates@[m], off),
            decreases target.candidates@.len() - j,
        {
            let other: i64 = target.candidates[j];
            let n: usize = score_of(targets, places, other);
            if served < n || (served == n && off < other) {
                proof {
                    assert(views[i as int].candidates.contains(other));
                }
                off = other;
                served = n;
            }
            j = j + 1;
        }
        assert forall|k: int, o: i64|
            0 <= k < i + 1 && #[trigger] views[k].candidates.contains(o) implies no_better(
            views,
            o,
            off,
        ) by {
            if k == i {
                let m = choose|m: int|
                    0 <= m < target.candidates@.len() && target.candidates@[m] == o;
                assert(no_better(views, target.candidates@[m], off));
            }
        }
        i = i + 1;
    }
    proof {
        assert forall|o: i64| #[trigger] is_candidate(views, o) implies no_better(
            views,
            o,
            off,
        ) by {
            let k = choose|k: int|
                0 <= k < views.len() && (#[trigger] views[k]).candidates.contains(o);
            assert(views[k].candidates.contains(o));
        }
        assert(is_best(views, off));
        best_is_unique(views, off, best(views));
    }
    off
}

/// There is one best candidate at most.
pub proof fn best_is_unique(targets: Seq<TargetView>, a: i64, b: i64)
    requires
        is_best(targets, a),
        is_best(targets, b),
    ensures
        a == b,
{
    assert(no_better(targets, a, b));
    assert(no_better(targets, b, a));
}

/// An offset serves what it does not leave unserved.
pub proof fn unserved_complements_score(targets: Seq<TargetView>, off: i64)
    ensures
        unserved(targets, off).len() + score(targets, off) == targets.len(),
    decreases targets.len(),
{
    if targets.len() > 0 {
        unserved_complements_score(targets.drop_last(), off);
    }
}

/// An offset that serves one of the targets has a score.
pub proof fn score_counts_one(targets: Seq<TargetView>, off: i64, i: int)
    requires
        0 <= i < targets.len(),
        targets[i].served_at(off),
    ensures
        score(targets, off) >= 1,
    decreases targets.len(),
{
    if i < targets.len() - 1 {
        assert(targets.drop_last()[i] == targets[i]);
        score_counts_one(targets.drop_last(), off, i);
    }
}

/// Whether every target can be served by one of its own candidates.
pub open spec fn all_servable(targets: Seq<TargetView>) -> bool {
    forall|i: int| 0 <= i < targets.len() ==> (#[trigger] targets[i]).servable()
}

/// Whether taking the best candidate again and again serves every target.
#[verifier::opaque]
pub open spec fn plannable(targets: Seq<TargetView>) -> bool
    decreases targets.len(),
{
    if targets.len() == 0 {
        true
    } else {
        let rest = unserved(targets, best(targets));
        &&& exists|c: i64| is_candidate(targets, c)
        &&& rest.len() < targets.len() && plannable(rest)
    }
}

/// The best candidate of targets that can be planned for serves one of them,
/// and the others can be planned for.
pub proof fn plannable_steps(targets: Seq<TargetView>)
    requires
        plannable(targets),
        targets.len() > 0,
    ensures
        exists|c: i64| is_candidate(targets, c),
        unserved(targets, best(targets)).len() < targets.len(),
        plannable(unserved(targets, best(targets))),
{
    reveal(plannable);
}

/// A best candidate of servable targets serves at least one of them.
pub proof fn best_serves_one(targets: Seq<TargetView>, off: i64)
    requires
        targets.len() > 0,
        all_servable(targets),
        is_best(targets, off),
    ensures
        score(targets, off) >= 1,
        unserved(targets, off).len() < targets.len(),
{
    assert(targets[0].servable());
    let k = choose|k: int|
        0 <= k < targets[0].candidates.len() && targets[0].served_at(
            #[trigger] targets[0].candidates[k],
        );
    let o = targets[0].candidates[k];
    assert(targets[0].candidates.contains(o));
    assert(is_candidate(targets, o));
    assert(no_better(targets, o, off));
    score_counts_one(targets, o, 0);
    unserved_complements_score(targets, off);
}

/// Choose a serving revision for every target, using as few distinct revisions
/// as the spans allow.
///
/// `fixed` are revisions already paid for. Any target that one of them can
/// serve takes the newest such and costs nothing. The rest is greedy set
/// cover: repeatedly take the offset serving the most remaining targets, the
/// newest offset among equals.
///
/// That comes to an end where every target that is left has a candidate of its
/// own inside its spans, and also wherever the candidates of the others make up
/// for it.
pub fn plan_serving(targets: &[ServeTarget], fixed: &[i64]) -> (r: StringMap<i64>)
    requires
        ({
            let left = left_over(target_views(targets@), fixed@.to_set());
            all_servable(left) || plannable(left)
        }),
    ensures
        r@ == plan(target_views(targets@), fixed@.to_set()),
{
    let ghost views = target_views(targets@);
    let ghost set = fixed@.to_set();
    let mut assigned: StringMap<i64> = StringMap::new();
    let mut remaining: Vec<usize> = Vec::new();
    let mut i: usize = 0;
    proof {
        assert(at_places(targets@, remaining@) =~= Seq::<TargetView>::empty());
    }
    while i < targets.len()
        invariant
            i <= targets@.len(),
            views == target_views(targets@),
            set == fixed@.to_set(),
            places_fit(targets@, remaining@),
            assigned@ == free_plan(views.take(i as int), set),
            at_places(targets@, remaining@) == left_over(views.take(i as int), set),
        decreases targets@.len() - i,
    {
        proof {
            assert(views.take(i + 1).drop_last() =~= views.take(i as int));
            assert(views.take(i + 1).last() == targets@[i as int]@);
        }
        match newest_fixed(&targets[i], fixed) {
            Some(off) => {
                assigned.insert(targets[i].key.clone(), off);
            },
            None => {
                let ghost before = remaining@;
                remaining.push(i);
                assert(at_places(targets@, remaining@) =~= at_places(targets@, before).push(
                    targets@[i as int]@,
                ));
            },
        }
        i = i + 1;
    }
    proof {
        assert(views.take(views.len() as int) =~= views);
        if all_servable(left_over(views, set)) {
            crate::plan_laws::servable_is_plannable(left_over(views, set));
        }
    }
    while remaining.len() > 0
        invariant
            places_fit(targets@, remaining@),
            plannable(at_places(targets@, remaining@)),
            cover(at_places(targets@, remaining@), assigned@) == plan(views, set),
        decreases remaining@.len(),
    {
        let ghost now = at_places(targets@, remaining@);
        let ghost start = assigned@;
        proof {
            plannable_steps(now);
        }
        let off: i64 = best_of(targets, &remaining);
        let mut next: Vec<usize> = Vec::new();
        let mut j: usize = 0;
        proof {
            assert(at_places(targets@, next@) =~= Seq::<TargetView>::empty());
        }
        while j < remaining.len()
            invariant
                j <= remaining@.len(),
                places_fit(targets@, remaining@),
                places_fit(targets@, next@),
                now == at_places(targets@, remaining@),
                assigned@ == assign(now.take(j as int), off, start),
                at_places(targets@, next@) == unserved(now.take(j as int), off),
            decreases remaining@.len() - j,
        {
            let place: usize = remaining[j];
            proof {
                assert(now.take(j + 1).drop_last() =~= now.take(j as int));
                assert(now.take(j + 1).last() == targets@[place as int]@);
            }
            if within(targets[place].spans.as_slice(), off) {
                assigned.insert(targets[place].key.clone(), off);
            } else {
                let ghost before = next@;
                next.push(place);
                assert(at_places(targets@, next@) =~= at_places(targets@, before).push(
                    targets@[place as int]@,
                ));
            }
            j = j + 1;
        }
        proof {
            assert(now.take(now.len() as int) =~= now);
            assert(cover(now, start) == cover(unserved(now, off), assign(now, off, start)));
        }
        remaining = next;
    }
    proof {
        assert(at_places(targets@, remaining@).len() == 0);
    }
    assigned
}

} // verus!
