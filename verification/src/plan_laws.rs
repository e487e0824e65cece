//! What holds of every plan.

use vstd::prelude::*;

use crate::plan::TargetView;

verus! {

/// Whether no two targets have the same key.
pub open spec fn distinct(targets: Seq<TargetView>) -> bool {
    forall|i: int, j: int|
        0 <= i < j < targets.len() ==> (#[trigger] targets[i]).key != (#[trigger] targets[j]).key
}

/// Whether one of the targets has this key.
pub open spec fn names(targets: Seq<TargetView>, key: Seq<char>) -> bool {
    exists|i: int| 0 <= i < targets.len() && (#[trigger] targets[i]).key == key
}

/// Whether a target with this key is served by the revision at an offset.
pub open spec fn serves_key(targets: Seq<TargetView>, off: i64, key: Seq<char>) -> bool {
    exists|i: int|
        0 <= i < targets.len() && (#[trigger] targets[i]).key == key && targets[i].served_at(off)
}

/// Whether every candidate of a target lies inside the target's own spans.
pub open spec fn proper(target: TargetView) -> bool {
    forall|c: i64| #[trigger] target.candidates.contains(c) ==> target.served_at(c)
}

/// Whether `off` is the newest candidate of a target.
pub open spec fn is_newest_candidate(target: TargetView, off: i64) -> bool {
    &&& target.candidates.contains(off)
    &&& forall|c: i64| #[trigger] target.candidates.contains(c) ==> c <= off
}

/// Whether no candidate of any of the targets serves both target `i` and
/// another.
pub open spec fn cannot_share(targets: Seq<TargetView>, i: int) -> bool {
    forall|c: i64, j: int|
        #![trigger crate::plan::is_candidate(targets, c), targets[j]]
        crate::plan::is_candidate(targets, c) && 0 <= j < targets.len() && j != i
            && targets[i].served_at(c) ==> !targets[j].served_at(c)
}

proof fn push_members(s: Seq<TargetView>, x: TargetView, t: TargetView)
    ensures
        s.push(x).contains(t) <==> s.contains(t) || t == x,
{
    if s.contains(t) {
        let k = choose|k: int| 0 <= k < s.len() && s[k] == t;
        assert(s.push(x)[k] == t);
    }
    assert(s.push(x)[s.len() as int] == x);
    if s.push(x).contains(t) && t != x {
        let k = choose|k: int| 0 <= k < s.push(x).len() && s.push(x)[k] == t;
        assert(s[k] == t);
    }
}

/// A sequence with one more target, where that target is kept.
spec fn with_last(inner: Seq<TargetView>, last: TargetView, keep: bool) -> Seq<TargetView> {
    if keep {
        inner.push(last)
    } else {
        inner
    }
}

proof fn keep_or_drop_last(targets: Seq<TargetView>, inner: Seq<TargetView>, keep: bool)
    requires
        targets.len() > 0,
        forall|t: TargetView| #[trigger]
            inner.contains(t) ==> targets.drop_last().contains(t),
        distinct(targets.drop_last()) ==> distinct(inner),
    ensures
        forall|t: TargetView| #[trigger]
            with_last(inner, targets.last(), keep).contains(t) <==> inner.contains(t) || (keep && t
                == targets.last()),
        forall|t: TargetView| #[trigger]
            targets.contains(t) <==> targets.drop_last().contains(t) || t == targets.last(),
        distinct(targets) ==> distinct(with_last(inner, targets.last(), keep)),
{
    let rest = targets.drop_last();
    let last = targets.last();
    let out = with_last(inner, last, keep);
    assert(targets =~= rest.push(last));
    assert forall|t: TargetView| #[trigger] out.contains(t) <==> inner.contains(t) || (keep && t
        == last) by {
        push_members(inner, last, t);
    }
    assert forall|t: TargetView| #[trigger] targets.contains(t) <==> rest.contains(t) || t
        == last by {
        push_members(rest, last, t);
    }
    if distinct(targets) {
        assert forall|i: int, j: int| 0 <= i < j < rest.len() implies (#[trigger] rest[i]).key != (
        #[trigger] rest[j]).key by {
            assert(targets[i].key != targets[j].key);
        }
        assert forall|i: int, j: int| 0 <= i < j < out.len() implies (#[trigger] out[i]).key != (
        #[trigger] out[j]).key by {
            if j == inner.len() {
                assert(inner.contains(inner[i]));
                let k = choose|k: int| 0 <= k < rest.len() && rest[k] == inner[i];
                assert(targets[k].key != targets[targets.len() - 1].key);
            } else {
                assert(inner[i].key != inner[j].key);
            }
        }
    }
}

/// Exactly the targets that an offset does not serve are left unserved.
pub proof fn unserved_members(targets: Seq<TargetView>, off: i64)
    ensures
        forall|t: TargetView| #[trigger]
            crate::plan::unserved(targets, off).contains(t) <==> targets.contains(t)
                && !t.served_at(off),
        distinct(targets) ==> distinct(crate::plan::unserved(targets, off)),
    decreases targets.len(),
{
    if targets.len() > 0 {
        let rest = targets.drop_last();
        let inner = crate::plan::unserved(rest, off);
        let keep = !targets.last().served_at(off);
        unserved_members(rest, off);
        keep_or_drop_last(targets, inner, keep);
        assert(crate::plan::unserved(targets, off) == with_last(inner, targets.last(), keep));
        assert forall|t: TargetView| #[trigger] crate::plan::unserved(targets, off).contains(
            t,
        ) <==> targets.contains(t) && !t.served_at(off) by {
            assert(inner.contains(t) <==> rest.contains(t) && !t.served_at(off));
        }
    }
}

/// Exactly the targets that nothing already paid for serves are left over.
pub proof fn left_over_members(targets: Seq<TargetView>, fixed: Set<i64>)
    ensures
        forall|t: TargetView| #[trigger]
            crate::plan::left_over(targets, fixed).contains(t) <==> targets.contains(t)
                && !t.served_free(fixed),
        distinct(targets) ==> distinct(crate::plan::left_over(targets, fixed)),
    decreases targets.len(),
{
    if targets.len() > 0 {
        let rest = targets.drop_last();
        let inner = crate::plan::left_over(rest, fixed);
        let keep = !targets.last().served_free(fixed);
        left_over_members(rest, fixed);
        keep_or_drop_last(targets, inner, keep);
        assert(crate::plan::left_over(targets, fixed) == with_last(inner, targets.last(), keep));
        assert forall|t: TargetView| #[trigger] crate::plan::left_over(targets, fixed).contains(
            t,
        ) <==> targets.contains(t) && !t.served_free(fixed) by {
            assert(inner.contains(t) <==> rest.contains(t) && !t.served_free(fixed));
        }
    }
}

/// Assigning an offset changes exactly the keys of the targets it serves.
pub proof fn assign_effect(
    targets: Seq<TargetView>,
    off: i64,
    assigned: Map<Seq<char>, i64>,
    key: Seq<char>,
)
    ensures
        serves_key(targets, off, key) ==> crate::plan::assign(
            targets,
            off,
            assigned,
        ).contains_key(key) && crate::plan::assign(targets, off, assigned)[key] == off,
        !serves_key(targets, off, key) ==> {
            &&& crate::plan::assign(targets, off, assigned).contains_key(key)
                == assigned.contains_key(key)
            &&& crate::plan::assign(targets, off, assigned)[key] == assigned[key]
        },
    decreases targets.len(),
{
    if targets.len() > 0 {
        let rest = targets.drop_last();
        let last = targets.last();
        assign_effect(rest, off, assigned, key);
        if serves_key(rest, off, key) {
            let i = choose|i: int|
                0 <= i < rest.len() && (#[trigger] rest[i]).key == key && rest[i].served_at(off);
            assert(targets[i].key == key && targets[i].served_at(off));
        }
        if serves_key(targets, off, key) && !serves_key(rest, off, key) {
            let i = choose|i: int|
                0 <= i < targets.len() && (#[trigger] targets[i]).key == key
                    && targets[i].served_at(off);
            if i < rest.len() {
                assert(rest[i].key == key && rest[i].served_at(off));
            }
        }
        if last.key == key && last.served_at(off) {
            assert(targets[targets.len() - 1].key == key);
        }
    }
}

/// The free part of a plan gives a target the newest revision already paid for
/// that serves it, and nothing to the others.
pub proof fn free_effect(targets: Seq<TargetView>, fixed: Set<i64>)
    requires
        distinct(targets),
    ensures
        forall|i: int|
            0 <= i < targets.len() ==> {
                &&& (#[trigger] targets[i]).served_free(fixed) ==> crate::plan::free_plan(
                    targets,
                    fixed,
                ).contains_key(targets[i].key) && crate::plan::free_plan(
                    targets,
                    fixed,
                )[targets[i].key] == targets[i].newest_free(fixed)
                &&& !targets[i].served_free(fixed) ==> !crate::plan::free_plan(
                    targets,
                    fixed,
                ).contains_key(targets[i].key)
            },
        forall|key: Seq<char>| #[trigger]
            crate::plan::free_plan(targets, fixed).contains_key(key) ==> names(targets, key),
    decreases targets.len(),
{
    if targets.len() > 0 {
        let rest = targets.drop_last();
        let last = targets.last();
        assert forall|i: int, j: int| 0 <= i < j < rest.len() implies (#[trigger] rest[i]).key != (
        #[trigger] rest[j]).key by {
            assert(targets[i].key != targets[j].key);
        }
        free_effect(rest, fixed);
        let inner = crate::plan::free_plan(rest, fixed);
        let out = crate::plan::free_plan(targets, fixed);
        assert(!inner.contains_key(last.key)) by {
            if inner.contains_key(last.key) {
                let k = choose|k: int| 0 <= k < rest.len() && (#[trigger] rest[k]).key == last.key;
                assert(targets[k].key != targets[targets.len() - 1].key);
            }
        }
        assert forall|i: int| 0 <= i < targets.len() implies {
            &&& (#[trigger] targets[i]).served_free(fixed) ==> out.contains_key(targets[i].key)
                && out[targets[i].key] == targets[i].newest_free(fixed)
            &&& !targets[i].served_free(fixed) ==> !out.contains_key(targets[i].key)
        } by {
            if i < rest.len() {
                assert(rest[i] == targets[i]);
                assert(targets[i].key != targets[targets.len() - 1].key);
            }
        }
        assert forall|key: Seq<char>| #[trigger] out.contains_key(key) implies names(
            targets,
            key,
        ) by {
            if inner.contains_key(key) {
                let k = choose|k: int| 0 <= k < rest.len() && (#[trigger] rest[k]).key == key;
                assert(targets[k].key == key);
            } else {
                assert(targets[targets.len() - 1].key == key);
            }
        }
    }
}

/// The candidates of all targets, one after the other.
spec fn all_candidates(targets: Seq<TargetView>) -> Seq<i64>
    decreases targets.len(),
{
    if targets.len() == 0 {
        Seq::empty()
    } else {
        all_candidates(targets.drop_last()) + targets.last().candidates
    }
}

proof fn all_candidates_members(targets: Seq<TargetView>)
    ensures
        forall|c: i64| #[trigger]
            all_candidates(targets).contains(c) <==> crate::plan::is_candidate(targets, c),
    decreases targets.len(),
{
    if targets.len() > 0 {
        let rest = targets.drop_last();
        let last = targets.last();
        all_candidates_members(rest);
        let inner = all_candidates(rest);
        let out = all_candidates(targets);
        assert forall|c: i64| #[trigger] out.contains(c) <==> crate::plan::is_candidate(
            targets,
            c,
        ) by {
            if out.contains(c) {
                let k = choose|k: int| 0 <= k < out.len() && out[k] == c;
                if k < inner.len() {
                    assert(inner[k] == c);
                    assert(inner.contains(c));
                    let i = choose|i: int|
                        0 <= i < rest.len() && (#[trigger] rest[i]).candidates.contains(c);
                    assert(targets[i].candidates.contains(c));
                } else {
                    assert(last.candidates[k - inner.len()] == c);
                    assert(targets[targets.len() - 1].candidates.contains(c));
                }
            }
            if crate::plan::is_candidate(targets, c) {
                let i = choose|i: int|
                    0 <= i < targets.len() && (#[trigger] targets[i]).candidates.contains(c);
                if i < rest.len() {
                    assert(rest[i].candidates.contains(c));
                    assert(inner.contains(c));
                    let k = choose|k: int| 0 <= k < inner.len() && inner[k] == c;
                    assert(out[k] == c);
                } else {
                    let k = choose|k: int|
                        0 <= k < last.candidates.len() && last.candidates[k] == c;
                    assert(out[inner.len() + k] == c);
                }
            }
        }
    } else {
        assert(forall|c: i64| !all_candidates(targets).contains(c));
    }
}

proof fn best_among(targets: Seq<TargetView>, list: Seq<i64>) -> (off: i64)
    requires
        list.len() > 0,
    ensures
        list.contains(off),
        forall|c: i64| #[trigger] list.contains(c) ==> crate::plan::no_better(targets, c, off),
    decreases list.len(),
{
    let last = list.last();
    let rest = list.drop_last();
    assert(list[list.len() - 1] == last);
    if rest.len() == 0 {
        last
    } else {
        let inner = best_among(targets, rest);
        let k = choose|k: int| 0 <= k < rest.len() && rest[k] == inner;
        assert(list[k] == inner);
        let off = if crate::plan::no_better(targets, inner, last) {
            last
        } else {
            inner
        };
        assert forall|c: i64| #[trigger] list.contains(c) implies crate::plan::no_better(
            targets,
            c,
            off,
        ) by {
            let m = choose|m: int| 0 <= m < list.len() && list[m] == c;
            if m < rest.len() {
                assert(rest[m] == c);
                assert(rest.contains(c));
            }
        }
        off
    }
}

/// Where there is a candidate there is a best one.
pub proof fn best_exists(targets: Seq<TargetView>, c: i64)
    requires
        crate::plan::is_candidate(targets, c),
    ensures
        crate::plan::is_best(targets, crate::plan::best(targets)),
{
    all_candidates_members(targets);
    let list = all_candidates(targets);
    assert(list.contains(c));
    let off = best_among(targets, list);
    assert forall|o: i64| #[trigger] crate::plan::is_candidate(
        targets,
        o,
    ) implies crate::plan::no_better(targets, o, off) by {
        assert(list.contains(o));
    }
    assert(crate::plan::is_best(targets, off));
}

/// Servable targets, if there are any, have a best candidate.
pub proof fn servable_has_best(targets: Seq<TargetView>)
    requires
        targets.len() > 0,
        crate::plan::all_servable(targets),
    ensures
        crate::plan::is_best(targets, crate::plan::best(targets)),
{
    assert(targets[0].servable());
    let k = choose|k: int|
        0 <= k < targets[0].candidates.len() && targets[0].served_at(
            #[trigger] targets[0].candidates[k],
        );
    let c = targets[0].candidates[k];
    assert(targets[0].candidates.contains(c));
    best_exists(targets, c);
}

proof fn servable_rest(targets: Seq<TargetView>, off: i64)
    requires
        crate::plan::all_servable(targets),
    ensures
        crate::plan::all_servable(crate::plan::unserved(targets, off)),
{
    unserved_members(targets, off);
    let rest = crate::plan::unserved(targets, off);
    assert forall|i: int| 0 <= i < rest.len() implies (#[trigger] rest[i]).servable() by {
        assert(rest.contains(rest[i]));
        let k = choose|k: int| 0 <= k < targets.len() && targets[k] == rest[i];
        assert(targets[k].servable());
    }
}

/// Targets that each have a candidate of their own can be planned for.
pub proof fn servable_is_plannable(targets: Seq<TargetView>)
    requires
        crate::plan::all_servable(targets),
    ensures
        crate::plan::plannable(targets),
    decreases targets.len(),
{
    reveal(crate::plan::plannable);
    if targets.len() > 0 {
        let off = crate::plan::best(targets);
        servable_has_best(targets);
        assert(crate::plan::is_candidate(targets, off));
        crate::plan::best_serves_one(targets, off);
        servable_rest(targets, off);
        servable_is_plannable(crate::plan::unserved(targets, off));
    }
}

proof fn candidate_of_rest(targets: Seq<TargetView>, off: i64, c: i64)
    requires
        crate::plan::is_candidate(crate::plan::unserved(targets, off), c),
    ensures
        crate::plan::is_candidate(targets, c),
{
    unserved_members(targets, off);
    let rest = crate::plan::unserved(targets, off);
    let i = choose|i: int| 0 <= i < rest.len() && (#[trigger] rest[i]).candidates.contains(c);
    assert(rest.contains(rest[i]));
    let k = choose|k: int| 0 <= k < targets.len() && targets[k] == rest[i];
    assert(targets[k].candidates.contains(c));
}

/// Covering gives every target a candidate that serves it, and leaves what was
/// assigned to other keys as it was.
pub proof fn cover_effect(targets: Seq<TargetView>, assigned: Map<Seq<char>, i64>)
    requires
        distinct(targets),
        crate::plan::all_servable(targets),
    ensures
        forall|i: int|
            0 <= i < targets.len() ==> {
                &&& crate::plan::cover(targets, assigned).contains_key((#[trigger] targets[i]).key)
                &&& targets[i].served_at(crate::plan::cover(targets, assigned)[targets[i].key])
                &&& crate::plan::is_candidate(
                    targets,
                    crate::plan::cover(targets, assigned)[targets[i].key],
                )
            },
        forall|key: Seq<char>|
            !names(targets, key) ==> #[trigger] crate::plan::cover(
                targets,
                assigned,
            ).contains_key(key) == assigned.contains_key(key),
        forall|key: Seq<char>|
            !names(targets, key) ==> #[trigger] crate::plan::cover(targets, assigned)[key]
                == assigned[key],
    decreases targets.len(),
{
    if targets.len() > 0 {
        servable_has_best(targets);
        let off = crate::plan::best(targets);
        crate::plan::best_serves_one(targets, off);
        let rest = crate::plan::unserved(targets, off);
        let next = crate::plan::assign(targets, off, assigned);
        unserved_members(targets, off);
        servable_rest(targets, off);
        cover_effect(rest, next);
        let out = crate::plan::cover(targets, assigned);
        assert(out == crate::plan::cover(rest, next));
        assert forall|i: int| 0 <= i < targets.len() implies {
            &&& out.contains_key((#[trigger] targets[i]).key)
            &&& targets[i].served_at(out[targets[i].key])
            &&& crate::plan::is_candidate(targets, out[targets[i].key])
        } by {
            let t = targets[i];
            assert(targets.contains(t));
            if t.served_at(off) {
                if names(rest, t.key) {
                    let k = choose|k: int| 0 <= k < rest.len() && (#[trigger] rest[k]).key == t.key;
                    assert(rest.contains(rest[k]));
                    let m = choose|m: int| 0 <= m < targets.len() && targets[m] == rest[k];
                    assert(m == i);
                }
                assert(serves_key(targets, off, t.key));
                assign_effect(targets, off, assigned, t.key);
            } else {
                assert(rest.contains(t));
                let k = choose|k: int| 0 <= k < rest.len() && rest[k] == t;
                assert(out.contains_key(rest[k].key));
                candidate_of_rest(targets, off, out[t.key]);
            }
        }
        assert forall|key: Seq<char>| !names(targets, key) implies #[trigger] out.contains_key(key)
            == assigned.contains_key(key) by {
            other_key_is_kept(targets, off, assigned, key);
        }
        assert forall|key: Seq<char>| !names(targets, key) implies #[trigger] out[key]
            == assigned[key] by {
            other_key_is_kept(targets, off, assigned, key);
        }
    }
}

/// A round leaves the keys of other targets alone.
pub proof fn other_key_is_kept(
    targets: Seq<TargetView>,
    off: i64,
    assigned: Map<Seq<char>, i64>,
    key: Seq<char>,
)
    requires
        !names(targets, key),
    ensures
        !names(crate::plan::unserved(targets, off), key),
        crate::plan::assign(targets, off, assigned).contains_key(key) == assigned.contains_key(key),
        crate::plan::assign(targets, off, assigned)[key] == assigned[key],
{
    unserved_members(targets, off);
    let rest = crate::plan::unserved(targets, off);
    if names(rest, key) {
        let k = choose|k: int| 0 <= k < rest.len() && (#[trigger] rest[k]).key == key;
        assert(rest.contains(rest[k]));
        let m = choose|m: int| 0 <= m < targets.len() && targets[m] == rest[k];
        assert(targets[m].key == key);
    }
    assign_effect(targets, off, assigned, key);
    if serves_key(targets, off, key) {
        let m = choose|m: int|
            0 <= m < targets.len() && (#[trigger] targets[m]).key == key && targets[m].served_at(
                off,
            );
        assert(names(targets, key));
    }
}

/// Every target gets a revision that carries its version: the newest revision
/// already paid for, where one carries it, and otherwise a candidate of one of
/// the targets that have to pay. The plan holds nothing else.
pub proof fn plan_serves_every_target(targets: Seq<TargetView>, fixed: Set<i64>)
    requires
        distinct(targets),
        crate::plan::all_servable(crate::plan::left_over(targets, fixed)),
    ensures
        forall|i: int|
            0 <= i < targets.len() ==> {
                &&& crate::plan::plan(targets, fixed).contains_key((#[trigger] targets[i]).key)
                &&& targets[i].served_free(fixed) ==> crate::plan::plan(
                    targets,
                    fixed,
                )[targets[i].key] == targets[i].newest_free(fixed)
                &&& !targets[i].served_free(fixed) ==> targets[i].served_at(
                    crate::plan::plan(targets, fixed)[targets[i].key],
                ) && crate::plan::is_candidate(
                    crate::plan::left_over(targets, fixed),
                    crate::plan::plan(targets, fixed)[targets[i].key],
                )
            },
        forall|key: Seq<char>| #[trigger]
            crate::plan::plan(targets, fixed).contains_key(key) ==> names(targets, key),
{
    let left = crate::plan::left_over(targets, fixed);
    let free = crate::plan::free_plan(targets, fixed);
    let out = crate::plan::plan(targets, fixed);
    left_over_members(targets, fixed);
    free_effect(targets, fixed);
    cover_effect(left, free);
    assert forall|i: int| 0 <= i < targets.len() implies {
        &&& out.contains_key((#[trigger] targets[i]).key)
        &&& targets[i].served_free(fixed) ==> out[targets[i].key] == targets[i].newest_free(fixed)
        &&& !targets[i].served_free(fixed) ==> targets[i].served_at(out[targets[i].key])
            && crate::plan::is_candidate(left, out[targets[i].key])
    } by {
        let t = targets[i];
        assert(targets.contains(t));
        if t.served_free(fixed) {
            if names(left, t.key) {
                let k = choose|k: int| 0 <= k < left.len() && (#[trigger] left[k]).key == t.key;
                assert(left.contains(left[k]));
                let m = choose|m: int| 0 <= m < targets.len() && targets[m] == left[k];
                assert(m == i);
            }
        } else {
            assert(left.contains(t));
            let k = choose|k: int| 0 <= k < left.len() && left[k] == t;
            assert(out.contains_key(left[k].key));
        }
    }
    assert forall|key: Seq<char>| #[trigger] out.contains_key(key) implies names(targets, key) by {
        if names(left, key) {
            let k = choose|k: int| 0 <= k < left.len() && (#[trigger] left[k]).key == key;
            assert(left.contains(left[k]));
            let m = choose|m: int| 0 <= m < targets.len() && targets[m] == left[k];
            assert(targets[m].key == key);
        }
    }
}

/// The newest revision already paid for that serves a target does serve it,
/// and no newer one does.
pub proof fn newest_free_serves(target: TargetView, fixed: Set<i64>)
    requires
        target.served_free(fixed),
    ensures
        target.is_newest_free(fixed, target.newest_free(fixed)),
{
    let o = choose|o: i64| fixed.contains(o) && #[trigger] target.served_at(o);
    newest_free_exists(target, fixed, o);
}

proof fn newest_free_exists(target: TargetView, fixed: Set<i64>, o: i64)
    requires
        fixed.contains(o),
        target.served_at(o),
    ensures
        exists|off: i64| target.is_newest_free(fixed, off),
    decreases i64::MAX - o,
{
    if exists|p: i64| fixed.contains(p) && #[trigger] target.served_at(p) && p > o {
        let p = choose|p: i64| fixed.contains(p) && #[trigger] target.served_at(p) && p > o;
        newest_free_exists(target, fixed, p);
    } else {
        assert(target.is_newest_free(fixed, o));
    }
}

/// A target that nothing already paid for serves, and that shares no candidate
/// with the others that have to pay, gets its own newest candidate: being
/// planned with others changes nothing for it.
pub proof fn lone_target_gets_its_newest(targets: Seq<TargetView>, fixed: Set<i64>, i: int)
    requires
        distinct(targets),
        0 <= i < targets.len(),
        !targets[i].served_free(fixed),
        crate::plan::all_servable(crate::plan::left_over(targets, fixed)),
        forall|k: int| 0 <= k < targets.len() ==> proper(#[trigger] targets[k]),
        forall|k: int|
            0 <= k < crate::plan::left_over(targets, fixed).len() && (
            #[trigger] crate::plan::left_over(targets, fixed)[k]) == targets[i] ==> cannot_share(
                crate::plan::left_over(targets, fixed),
                k,
            ),
    ensures
        is_newest_candidate(targets[i], crate::plan::plan(targets, fixed)[targets[i].key]),
{
    let left = crate::plan::left_over(targets, fixed);
    left_over_members(targets, fixed);
    assert(targets.contains(targets[i]));
    assert(left.contains(targets[i]));
    let k = choose|k: int| 0 <= k < left.len() && left[k] == targets[i];
    assert forall|m: int| 0 <= m < left.len() implies proper(#[trigger] left[m]) by {
        assert(left.contains(left[m]));
        let n = choose|n: int| 0 <= n < targets.len() && targets[n] == left[m];
        assert(proper(targets[n]));
    }
    lone_in_cover(left, crate::plan::free_plan(targets, fixed), k);
}

proof fn score_when_alone(targets: Seq<TargetView>, off: i64, i: int)
    requires
        0 <= i < targets.len(),
        targets[i].served_at(off),
        forall|j: int|
            0 <= j < targets.len() && j != i ==> !(#[trigger] targets[j]).served_at(off),
    ensures
        crate::plan::score(targets, off) == 1,
    decreases targets.len(),
{
    let rest = targets.drop_last();
    if i < targets.len() - 1 {
        assert(!targets[targets.len() - 1].served_at(off));
        assert(rest[i] == targets[i]);
        assert forall|j: int| 0 <= j < rest.len() && j != i implies !(
        #[trigger] rest[j]).served_at(off) by {
            assert(!targets[j].served_at(off));
        }
        score_when_alone(rest, off, i);
    } else {
        assert forall|j: int| 0 <= j < rest.len() implies !(#[trigger] rest[j]).served_at(off) by {
            assert(!targets[j].served_at(off));
        }
        score_of_none(rest, off);
    }
}

proof fn score_of_none(targets: Seq<TargetView>, off: i64)
    requires
        forall|j: int| 0 <= j < targets.len() ==> !(#[trigger] targets[j]).served_at(off),
    ensures
        crate::plan::score(targets, off) == 0,
    decreases targets.len(),
{
    if targets.len() > 0 {
        let rest = targets.drop_last();
        assert forall|j: int| 0 <= j < rest.len() implies !(#[trigger] rest[j]).served_at(off) by {
            assert(!targets[j].served_at(off));
        }
        assert(!targets[targets.len() - 1].served_at(off));
        score_of_none(rest, off);
    }
}

proof fn lone_in_cover(targets: Seq<TargetView>, assigned: Map<Seq<char>, i64>, i: int)
    requires
        distinct(targets),
        0 <= i < targets.len(),
        crate::plan::all_servable(targets),
        forall|k: int| 0 <= k < targets.len() ==> proper(#[trigger] targets[k]),
        cannot_share(targets, i),
    ensures
        is_newest_candidate(targets[i], crate::plan::cover(targets, assigned)[targets[i].key]),
    decreases targets.len(),
{
    let t = targets[i];
    servable_has_best(targets);
    let off = crate::plan::best(targets);
    crate::plan::best_serves_one(targets, off);
    let rest = crate::plan::unserved(targets, off);
    let next = crate::plan::assign(targets, off, assigned);
    unserved_members(targets, off);
    servable_rest(targets, off);
    assert(targets.contains(t));
    if t.served_at(off) {
        // The best candidate serves this target, hence no other, hence it is
        // this target's own and none scores higher.
        assert forall|j: int| 0 <= j < targets.len() && j != i implies !(
        #[trigger] targets[j]).served_at(off) by {
            assert(crate::plan::is_candidate(targets, off));
        }
        score_when_alone(targets, off, i);
        let m = choose|m: int|
            0 <= m < targets.len() && (#[trigger] targets[m]).candidates.contains(off);
        assert(proper(targets[m]));
        assert(targets[m].served_at(off));
        assert(m == i);
        assert forall|c: i64| #[trigger] t.candidates.contains(c) implies c <= off by {
            assert(proper(targets[i]));
            assert(targets[i].candidates.contains(c));
            assert(crate::plan::is_candidate(targets, c));
            assert(crate::plan::no_better(targets, c, off));
            crate::plan::score_counts_one(targets, c, i);
        }
        if names(rest, t.key) {
            let k = choose|k: int| 0 <= k < rest.len() && (#[trigger] rest[k]).key == t.key;
            assert(rest.contains(rest[k]));
            let n = choose|n: int| 0 <= n < targets.len() && targets[n] == rest[k];
            assert(n == i);
        }
        cover_effect(rest, next);
        assert(serves_key(targets, off, t.key));
        assign_effect(targets, off, assigned, t.key);
        assert(crate::plan::cover(rest, next)[t.key] == next[t.key]);
    } else {
        assert(rest.contains(t));
        let k = choose|k: int| 0 <= k < rest.len() && rest[k] == t;
        assert forall|m: int| 0 <= m < rest.len() implies proper(#[trigger] rest[m]) by {
            assert(rest.contains(rest[m]));
            let n = choose|n: int| 0 <= n < targets.len() && targets[n] == rest[m];
            assert(proper(targets[n]));
        }
        assert forall|c: i64, j: int|
            #![trigger crate::plan::is_candidate(rest, c), rest[j]]
            crate::plan::is_candidate(rest, c) && 0 <= j < rest.len() && j != k
                && rest[k].served_at(c) implies !rest[j].served_at(c) by {
            candidate_of_rest(targets, off, c);
            assert(rest.contains(rest[j]));
            let n = choose|n: int| 0 <= n < targets.len() && targets[n] == rest[j];
            if n == i {
                if j < k {
                    assert(rest[j].key != rest[k].key);
                } else {
                    assert(rest[k].key != rest[j].key);
                }
            }
            assert(!targets[n].served_at(c));
        }
        lone_in_cover(rest, next, k);
    }
}

/// Where some candidate serves every target that has to pay, all of them get
/// one and the same revision, and it is the newest candidate that serves them
/// all.
pub proof fn one_revision_where_possible(targets: Seq<TargetView>, fixed: Set<i64>, c: i64)
    requires
        distinct(targets),
        crate::plan::is_candidate(crate::plan::left_over(targets, fixed), c),
        forall|i: int|
            0 <= i < crate::plan::left_over(targets, fixed).len() ==> (
            #[trigger] crate::plan::left_over(targets, fixed)[i]).served_at(c),
    ensures
        forall|i: int|
            0 <= i < targets.len() && !(#[trigger] targets[i]).served_free(fixed)
                ==> crate::plan::plan(targets, fixed)[targets[i].key] == crate::plan::best(
                crate::plan::left_over(targets, fixed),
            ),
        forall|i: int|
            0 <= i < crate::plan::left_over(targets, fixed).len() ==> (
            #[trigger] crate::plan::left_over(targets, fixed)[i]).served_at(
                crate::plan::best(crate::plan::left_over(targets, fixed)),
            ),
        crate::plan::best(crate::plan::left_over(targets, fixed)) >= c,
{
    let left = crate::plan::left_over(targets, fixed);
    let free = crate::plan::free_plan(targets, fixed);
    left_over_members(targets, fixed);
    best_exists(left, c);
    let off = crate::plan::best(left);
    assert(crate::plan::no_better(left, c, off));
    score_of_all(left, c);
    crate::plan::unserved_complements_score(left, off);
    assert(crate::plan::unserved(left, off).len() == 0);
    let rest = crate::plan::unserved(left, off);
    unserved_members(left, off);
    assert forall|i: int| 0 <= i < left.len() implies (#[trigger] left[i]).served_at(off) by {
        assert(left.contains(left[i]));
        if !left[i].served_at(off) {
            assert(rest.contains(left[i]));
        }
    }
    let next = crate::plan::assign(left, off, free);
    let out = crate::plan::plan(targets, fixed);
    let i = choose|i: int| 0 <= i < left.len() && (#[trigger] left[i]).candidates.contains(c);
    assert(left.len() > 0);
    assert(out == crate::plan::cover(rest, next));
    assert(crate::plan::unserved(rest, crate::plan::best(rest)).len() == 0) by {
        crate::plan::unserved_complements_score(rest, crate::plan::best(rest));
    }
    assert(out == next);
    assert forall|i: int| 0 <= i < targets.len() && !(#[trigger] targets[i]).served_free(
        fixed,
    ) implies out[targets[i].key] == off by {
        assert(targets.contains(targets[i]));
        assert(left.contains(targets[i]));
        let k = choose|k: int| 0 <= k < left.len() && left[k] == targets[i];
        assert(serves_key(left, off, targets[i].key));
        assign_effect(left, off, free, targets[i].key);
    }
}

proof fn score_of_all(targets: Seq<TargetView>, off: i64)
    requires
        forall|j: int| 0 <= j < targets.len() ==> (#[trigger] targets[j]).served_at(off),
    ensures
        crate::plan::score(targets, off) == targets.len(),
    decreases targets.len(),
{
    if targets.len() > 0 {
        let rest = targets.drop_last();
        assert forall|j: int| 0 <= j < rest.len() implies (#[trigger] rest[j]).served_at(off) by {
            assert(targets[j].served_at(off));
        }
        assert(targets[targets.len() - 1].served_at(off));
        score_of_all(rest, off);
    }
}

/// Whether two sets agree on every offset that serves one of the targets.
pub open spec fn agree_where_serving(
    targets: Seq<TargetView>,
    a: Set<i64>,
    b: Set<i64>,
) -> bool {
    forall|i: int, off: i64|
        0 <= i < targets.len() && #[trigger] targets[i].served_at(off) ==> (a.contains(off)
            <==> b.contains(off))
}

/// Of the revisions already paid for only those count that serve a target: one
/// outside every span changes nothing, also beside others that do serve.
pub proof fn only_serving_fixed_count(targets: Seq<TargetView>, a: Set<i64>, b: Set<i64>)
    requires
        agree_where_serving(targets, a, b),
    ensures
        crate::plan::plan(targets, a) == crate::plan::plan(targets, b),
{
    same_free_and_left(targets, a, b);
}

proof fn same_free_and_left(targets: Seq<TargetView>, a: Set<i64>, b: Set<i64>)
    requires
        agree_where_serving(targets, a, b),
    ensures
        crate::plan::free_plan(targets, a) == crate::plan::free_plan(targets, b),
        crate::plan::left_over(targets, a) == crate::plan::left_over(targets, b),
    decreases targets.len(),
{
    if targets.len() > 0 {
        let rest = targets.drop_last();
        let last = targets.last();
        assert forall|i: int, off: i64|
            0 <= i < rest.len() && #[trigger] rest[i].served_at(off) implies (a.contains(off)
            <==> b.contains(off)) by {
            assert(targets[i].served_at(off));
        }
        same_free_and_left(rest, a, b);
        assert forall|off: i64| #[trigger] last.served_at(off) implies (a.contains(off)
            <==> b.contains(off)) by {
            assert(targets[targets.len() - 1].served_at(off));
        }
        if last.served_free(a) {
            let o = choose|o: i64| a.contains(o) && #[trigger] last.served_at(o);
            assert(b.contains(o) && last.served_at(o));
        }
        if last.served_free(b) {
            let o = choose|o: i64| b.contains(o) && #[trigger] last.served_at(o);
            assert(a.contains(o) && last.served_at(o));
            newest_free_serves(last, a);
            newest_free_serves(last, b);
            let x = last.newest_free(a);
            let y = last.newest_free(b);
            assert(b.contains(x) && last.served_at(x));
            assert(a.contains(y) && last.served_at(y));
        }
    }
}

/// Revisions already paid for that serve none of the targets change nothing.
pub proof fn useless_fixed_change_nothing(targets: Seq<TargetView>, fixed: Set<i64>)
    requires
        forall|i: int| 0 <= i < targets.len() ==> !(#[trigger] targets[i]).served_free(fixed),
    ensures
        crate::plan::plan(targets, fixed) == crate::plan::plan(targets, Set::<i64>::empty()),
{
    assert forall|i: int, off: i64|
        0 <= i < targets.len() && #[trigger] targets[i].served_at(off) implies (fixed.contains(off)
        <==> Set::<i64>::empty().contains(off)) by {
        assert(!targets[i].served_free(fixed));
    }
    only_serving_fixed_count(targets, fixed, Set::<i64>::empty());
}

/// Whether two sequences hold the same targets.
pub open spec fn same_targets(a: Seq<TargetView>, b: Seq<TargetView>) -> bool {
    forall|t: TargetView| #[trigger] a.contains(t) <==> b.contains(t)
}

/// The targets that an offset serves.
pub open spec fn served(targets: Seq<TargetView>, off: i64) -> Set<TargetView> {
    Set::new(|t: TargetView| targets.contains(t) && t.served_at(off))
}

/// The score of an offset is the number of targets that it serves.
pub proof fn score_counts_the_served(targets: Seq<TargetView>, off: i64)
    requires
        distinct(targets),
    ensures
        served(targets, off).finite(),
        served(targets, off).len() == crate::plan::score(targets, off),
    decreases targets.len(),
{
    if targets.len() == 0 {
        assert(served(targets, off) =~= Set::empty());
    } else {
        let rest = targets.drop_last();
        let last = targets.last();
        assert forall|i: int, j: int| 0 <= i < j < rest.len() implies (#[trigger] rest[i]).key != (
        #[trigger] rest[j]).key by {
            assert(targets[i].key != targets[j].key);
        }
        score_counts_the_served(rest, off);
        assert(targets =~= rest.push(last));
        assert(!rest.contains(last)) by {
            if rest.contains(last) {
                let k = choose|k: int| 0 <= k < rest.len() && rest[k] == last;
                assert(targets[k].key != targets[targets.len() - 1].key);
            }
        }
        assert forall|t: TargetView| targets.contains(t) <==> rest.contains(t) || t == last by {
            push_members(rest, last, t);
        }
        if last.served_at(off) {
            assert(served(targets, off) =~= served(rest, off).insert(last));
        } else {
            assert(served(targets, off) =~= served(rest, off));
        }
    }
}

proof fn same_targets_are_as_many(a: Seq<TargetView>, b: Seq<TargetView>)
    requires
        distinct(a),
        distinct(b),
        same_targets(a, b),
    ensures
        a.len() == b.len(),
{
    assert forall|i: int, j: int| 0 <= i < a.len() && 0 <= j < a.len() && i != j implies a[i]
        != a[j] by {
        assert(a[i].key != a[j].key);
    }
    assert forall|i: int, j: int| 0 <= i < b.len() && 0 <= j < b.len() && i != j implies b[i]
        != b[j] by {
        assert(b[i].key != b[j].key);
    }
    a.unique_seq_to_set();
    b.unique_seq_to_set();
    assert(a.to_set() =~= b.to_set()) by {
        assert forall|t: TargetView| a.to_set().contains(t) <==> b.to_set().contains(t) by {
            assert(a.contains(t) <==> b.contains(t));
        }
    }
}

proof fn same_candidates(a: Seq<TargetView>, b: Seq<TargetView>, c: i64)
    requires
        same_targets(a, b),
        crate::plan::is_candidate(a, c),
    ensures
        crate::plan::is_candidate(b, c),
{
    let i = choose|i: int| 0 <= i < a.len() && (#[trigger] a[i]).candidates.contains(c);
    assert(a.contains(a[i]));
    let k = choose|k: int| 0 <= k < b.len() && b[k] == a[i];
    assert(b[k].candidates.contains(c));
}

proof fn same_best(a: Seq<TargetView>, b: Seq<TargetView>)
    requires
        distinct(a),
        distinct(b),
        same_targets(a, b),
        a.len() > 0,
        crate::plan::all_servable(a),
        crate::plan::all_servable(b),
    ensures
        crate::plan::best(a) == crate::plan::best(b),
{
    same_targets_are_as_many(a, b);
    servable_has_best(a);
    servable_has_best(b);
    assert forall|off: i64| crate::plan::score(a, off) == #[trigger] crate::plan::score(b, off) by {
        score_counts_the_served(a, off);
        score_counts_the_served(b, off);
        assert(served(a, off) =~= served(b, off));
    }
    let x = crate::plan::best(a);
    let y = crate::plan::best(b);
    same_candidates(a, b, x);
    same_candidates(b, a, y);
    assert(crate::plan::no_better(b, x, y));
    assert(crate::plan::no_better(a, y, x));
    assert(crate::plan::score(a, x) == crate::plan::score(b, x));
    assert(crate::plan::score(a, y) == crate::plan::score(b, y));
}

proof fn same_serving(a: Seq<TargetView>, b: Seq<TargetView>, off: i64, key: Seq<char>)
    requires
        same_targets(a, b),
        serves_key(a, off, key),
    ensures
        serves_key(b, off, key),
{
    let i = choose|i: int|
        0 <= i < a.len() && (#[trigger] a[i]).key == key && a[i].served_at(off);
    assert(a.contains(a[i]));
    let k = choose|k: int| 0 <= k < b.len() && b[k] == a[i];
    assert(b[k].key == key && b[k].served_at(off));
}

proof fn cover_ignores_order(
    a: Seq<TargetView>,
    b: Seq<TargetView>,
    assigned: Map<Seq<char>, i64>,
)
    requires
        distinct(a),
        distinct(b),
        same_targets(a, b),
        crate::plan::all_servable(a),
        crate::plan::all_servable(b),
    ensures
        crate::plan::cover(a, assigned) == crate::plan::cover(b, assigned),
    decreases a.len(),
{
    same_targets_are_as_many(a, b);
    if a.len() == 0 {
        assert(a =~= b);
    } else {
        same_best(a, b);
        let off = crate::plan::best(a);
        let rest_a = crate::plan::unserved(a, off);
        let rest_b = crate::plan::unserved(b, off);
        unserved_members(a, off);
        unserved_members(b, off);
        assert forall|t: TargetView| #[trigger] rest_a.contains(t) <==> rest_b.contains(t) by {
            assert(a.contains(t) <==> b.contains(t));
        }
        servable_rest(a, off);
        servable_rest(b, off);
        same_targets_are_as_many(rest_a, rest_b);
        let next_a = crate::plan::assign(a, off, assigned);
        let next_b = crate::plan::assign(b, off, assigned);
        assert forall|key: Seq<char>|
            #![trigger next_a.contains_key(key)]
            #![trigger next_b.contains_key(key)]
            next_a.contains_key(key) == next_b.contains_key(key) && next_a[key] == next_b[key] by {
            assign_effect(a, off, assigned, key);
            assign_effect(b, off, assigned, key);
            if serves_key(a, off, key) {
                same_serving(a, b, off, key);
            }
            if serves_key(b, off, key) {
                same_serving(b, a, off, key);
            }
        }
        assert(next_a =~= next_b);
        if rest_a.len() < a.len() {
            cover_ignores_order(rest_a, rest_b, next_a);
        }
    }
}

/// A plan depends on the targets alone, not on the order in which they are
/// given.
pub proof fn plan_ignores_order(a: Seq<TargetView>, b: Seq<TargetView>, fixed: Set<i64>)
    requires
        distinct(a),
        distinct(b),
        same_targets(a, b),
        crate::plan::all_servable(crate::plan::left_over(a, fixed)),
    ensures
        crate::plan::plan(a, fixed) == crate::plan::plan(b, fixed),
{
    let left_a = crate::plan::left_over(a, fixed);
    let left_b = crate::plan::left_over(b, fixed);
    left_over_members(a, fixed);
    left_over_members(b, fixed);
    assert forall|t: TargetView| #[trigger] left_a.contains(t) <==> left_b.contains(t) by {
        assert(a.contains(t) <==> b.contains(t));
    }
    assert forall|i: int| 0 <= i < left_b.len() implies (#[trigger] left_b[i]).servable() by {
        assert(left_b.contains(left_b[i]));
        assert(left_a.contains(left_b[i]));
        let k = choose|k: int| 0 <= k < left_a.len() && left_a[k] == left_b[i];
        assert(left_a[k].servable());
    }
    free_effect(a, fixed);
    free_effect(b, fixed);
    let free_a = crate::plan::free_plan(a, fixed);
    let free_b = crate::plan::free_plan(b, fixed);
    assert forall|key: Seq<char>| #[trigger] free_a.contains_key(key) implies free_b.contains_key(
        key,
    ) && free_a[key] == free_b[key] by {
        same_free(a, b, fixed, key);
    }
    assert forall|key: Seq<char>| #[trigger] free_b.contains_key(key) implies free_a.contains_key(
        key,
    ) by {
        same_free(b, a, fixed, key);
    }
    assert(free_a =~= free_b);
    cover_ignores_order(left_a, left_b, free_a);
}

proof fn same_free(a: Seq<TargetView>, b: Seq<TargetView>, fixed: Set<i64>, key: Seq<char>)
    requires
        distinct(a),
        distinct(b),
        same_targets(a, b),
        crate::plan::free_plan(a, fixed).contains_key(key),
    ensures
        crate::plan::free_plan(b, fixed).contains_key(key),
        crate::plan::free_plan(a, fixed)[key] == crate::plan::free_plan(b, fixed)[key],
{
    free_effect(a, fixed);
    free_effect(b, fixed);
    assert(names(a, key));
    let i = choose|i: int| 0 <= i < a.len() && (#[trigger] a[i]).key == key;
    assert(a.contains(a[i]));
    let k = choose|k: int| 0 <= k < b.len() && b[k] == a[i];
    assert(b[k].key == key);
}

} // verus!
