//! What a plan is, said of the spans, the candidates and the revisions already
//! paid for: round by round the candidate that serves the most of those that
//! still wait, the newest among equals.

use vstd::prelude::*;

use crate::plan::TargetView;
use crate::span::Span;

verus! {

/// Whether an offset lies inside one of these spans, both ends included.
pub open spec fn inside(spans: Seq<Span>, off: int) -> bool {
    exists|m: int| 0 <= m < spans.len() && (#[trigger] spans[m]).0 <= off <= spans[m].1
}

/// Whether a revision already paid for lies inside the spans of a target.
pub open spec fn is_paid(target: TargetView, fixed: Set<i64>) -> bool {
    exists|off: i64| fixed.contains(off) && #[trigger] inside(target.spans, off as int)
}

/// Whether `off` is the newest revision already paid for inside the spans of a
/// target.
pub open spec fn newest_paid(target: TargetView, fixed: Set<i64>, off: i64) -> bool {
    &&& fixed.contains(off) && inside(target.spans, off as int)
    &&& forall|o: i64| fixed.contains(o) && #[trigger] inside(target.spans, o as int) ==> o <= off
}

/// Whether a target still waits after these picks: nothing paid for serves it,
/// and none of the picks does.
pub open spec fn waits(target: TargetView, fixed: Set<i64>, picks: Seq<i64>) -> bool {
    &&& !is_paid(target, fixed)
    &&& forall|k: int|
        0 <= k < picks.len() ==> !inside(target.spans, (#[trigger] picks[k]) as int)
}

/// The targets that wait after these picks and that an offset would serve.
pub open spec fn waiting_for(
    targets: Seq<TargetView>,
    fixed: Set<i64>,
    picks: Seq<i64>,
    off: i64,
) -> Set<TargetView> {
    Set::new(
        |t: TargetView| targets.contains(t) && waits(t, fixed, picks) && inside(t.spans, off as int),
    )
}

/// Whether an offset is a candidate of a target that waits after these picks.
pub open spec fn stands_for_choice(
    targets: Seq<TargetView>,
    fixed: Set<i64>,
    picks: Seq<i64>,
    off: i64,
) -> bool {
    exists|i: int|
        0 <= i < targets.len() && waits(#[trigger] targets[i], fixed, picks)
            && targets[i].candidates.contains(off)
}

/// Whether the pick of a round is the candidate that serves the most of those
/// that wait, the newest among equals.
pub open spec fn is_greedy(
    targets: Seq<TargetView>,
    fixed: Set<i64>,
    picks: Seq<i64>,
    round: int,
) -> bool {
    let before = picks.take(round);
    let most = waiting_for(targets, fixed, before, picks[round]).len();
    &&& stands_for_choice(targets, fixed, before, picks[round])
    &&& forall|c: i64| #[trigger]
        stands_for_choice(targets, fixed, before, c) ==> {
            let n = waiting_for(targets, fixed, before, c).len();
            n < most || (n == most && c <= picks[round])
        }
}

/// Whether the pick of a round is the first that serves a target.
pub open spec fn first_served_in(target: TargetView, picks: Seq<i64>, round: int) -> bool {
    &&& 0 <= round < picks.len()
    &&& inside(target.spans, picks[round] as int)
    &&& forall|j: int| 0 <= j < round ==> !inside(target.spans, (#[trigger] picks[j]) as int)
}

/// Exactly the offsets from the first to the last of a span are covered by it.
pub proof fn spans_cover_from_end_to_end(spans: Seq<Span>, off: int)
    ensures
        crate::span::covers(spans, off) <==> inside(spans, off),
{
    if crate::span::covers(spans, off) {
        let m = choose|m: int|
            0 <= m < spans.len() && #[trigger] crate::span::spans_over(spans[m], off);
        assert(spans[m].0 <= off <= spans[m].1);
    }
    if inside(spans, off) {
        let m = choose|m: int|
            0 <= m < spans.len() && (#[trigger] spans[m]).0 <= off <= spans[m].1;
        assert(crate::span::spans_over(spans[m], off));
    }
}

proof fn served_is_inside(target: TargetView)
    ensures
        forall|off: i64| #[trigger]
            target.served_at(off) <==> inside(target.spans, off as int),
{
    assert forall|off: i64| #[trigger] target.served_at(off) <==> inside(
        target.spans,
        off as int,
    ) by {
        spans_cover_from_end_to_end(target.spans, off as int);
    }
}

/// A target is served for nothing exactly where it is paid for, and then by the
/// newest revision that does.
pub proof fn free_is_paid(target: TargetView, fixed: Set<i64>)
    ensures
        target.served_free(fixed) <==> is_paid(target, fixed),
        is_paid(target, fixed) ==> newest_paid(target, fixed, target.newest_free(fixed)),
{
    served_is_inside(target);
    if target.served_free(fixed) {
        let o = choose|o: i64| fixed.contains(o) && #[trigger] target.served_at(o);
        assert(inside(target.spans, o as int));
    }
    if is_paid(target, fixed) {
        let o = choose|o: i64| fixed.contains(o) && #[trigger] inside(target.spans, o as int);
        assert(target.served_at(o));
        crate::plan_laws::newest_free_serves(target, fixed);
        let newest = target.newest_free(fixed);
        assert forall|p: i64| fixed.contains(p) && #[trigger] inside(
            target.spans,
            p as int,
        ) implies p <= newest by {
            assert(target.served_at(p));
        }
    }
}

/// Whether these are the targets that wait after some picks.
spec fn are_those_waiting(
    all: Seq<TargetView>,
    fixed: Set<i64>,
    picks: Seq<i64>,
    now: Seq<TargetView>,
) -> bool {
    forall|t: TargetView| #[trigger]
        now.contains(t) <==> all.contains(t) && waits(t, fixed, picks)
}

proof fn choice_is_candidate(
    all: Seq<TargetView>,
    fixed: Set<i64>,
    picks: Seq<i64>,
    now: Seq<TargetView>,
    c: i64,
)
    requires
        are_those_waiting(all, fixed, picks, now),
    ensures
        crate::plan::is_candidate(now, c) <==> stands_for_choice(all, fixed, picks, c),
{
    if crate::plan::is_candidate(now, c) {
        let i = choose|i: int| 0 <= i < now.len() && (#[trigger] now[i]).candidates.contains(c);
        assert(now.contains(now[i]));
        let k = choose|k: int| 0 <= k < all.len() && all[k] == now[i];
        assert(waits(all[k], fixed, picks));
    }
    if stands_for_choice(all, fixed, picks, c) {
        let i = choose|i: int|
            0 <= i < all.len() && waits(#[trigger] all[i], fixed, picks)
                && all[i].candidates.contains(c);
        assert(all.contains(all[i]));
        assert(now.contains(all[i]));
        let k = choose|k: int| 0 <= k < now.len() && now[k] == all[i];
        assert(now[k].candidates.contains(c));
    }
}

proof fn waiting_is_scored(
    all: Seq<TargetView>,
    fixed: Set<i64>,
    picks: Seq<i64>,
    now: Seq<TargetView>,
    c: i64,
)
    requires
        crate::plan_laws::distinct(now),
        are_those_waiting(all, fixed, picks, now),
    ensures
        waiting_for(all, fixed, picks, c).finite(),
        waiting_for(all, fixed, picks, c).len() == crate::plan::score(now, c),
{
    crate::plan_laws::score_counts_the_served(now, c);
    assert forall|t: TargetView| waiting_for(all, fixed, picks, c).contains(t)
        <==> crate::plan_laws::served(now, c).contains(t) by {
        served_is_inside(t);
        assert(now.contains(t) <==> all.contains(t) && waits(t, fixed, picks));
        assert(t.served_at(c) <==> inside(t.spans, c as int));
    }
    assert(waiting_for(all, fixed, picks, c) =~= crate::plan_laws::served(now, c));
}

/// Whether a target got the first pick, from a round on, that serves it.
spec fn got_first(
    target: TargetView,
    out: Map<Seq<char>, i64>,
    picks: Seq<i64>,
    from: int,
) -> bool {
    &&& out.contains_key(target.key)
    &&& exists|k: int|
        from <= k && #[trigger] first_served_in(target, picks, k) && out[target.key] == picks[k]
}

proof fn cover_goes_in_rounds(
    all: Seq<TargetView>,
    fixed: Set<i64>,
    done: Seq<i64>,
    now: Seq<TargetView>,
    assigned: Map<Seq<char>, i64>,
) -> (picks: Seq<i64>)
    requires
        crate::plan_laws::distinct(now),
        crate::plan::plannable(now),
        are_those_waiting(all, fixed, done, now),
    ensures
        picks.len() >= done.len(),
        picks.take(done.len() as int) == done,
        forall|k: int|
            done.len() <= k < picks.len() ==> #[trigger] is_greedy(all, fixed, picks, k),
        forall|i: int|
            0 <= i < now.len() ==> got_first(
                #[trigger] now[i],
                crate::plan::cover(now, assigned),
                picks,
                done.len() as int,
            ),
        forall|key: Seq<char>|
            !crate::plan_laws::names(now, key) ==> #[trigger] crate::plan::cover(
                now,
                assigned,
            ).contains_key(key) == assigned.contains_key(key),
        forall|key: Seq<char>|
            !crate::plan_laws::names(now, key) ==> #[trigger] crate::plan::cover(
                now,
                assigned,
            )[key] == assigned[key],
    decreases now.len(),
{
    let n = done.len() as int;
    if now.len() == 0 {
        assert(done.take(n) =~= done);
        done
    } else {
        crate::plan::plannable_steps(now);
        let some = choose|c: i64| crate::plan::is_candidate(now, c);
        crate::plan_laws::best_exists(now, some);
        let off = crate::plan::best(now);
        let rest = crate::plan::unserved(now, off);
        let next = crate::plan::assign(now, off, assigned);
        let more = done.push(off);
        crate::plan_laws::unserved_members(now, off);
        assert forall|t: TargetView| #[trigger] rest.contains(t) <==> all.contains(t) && waits(
            t,
            fixed,
            more,
        ) by {
            served_is_inside(t);
            assert(now.contains(t) <==> all.contains(t) && waits(t, fixed, done));
            assert(t.served_at(off) <==> inside(t.spans, off as int));
            if waits(t, fixed, more) {
                assert forall|k: int| 0 <= k < n implies !inside(
                    t.spans,
                    (#[trigger] done[k]) as int,
                ) by {
                    assert(more[k] == done[k]);
                }
                assert(more[n] == off);
            }
        }
        let picks = cover_goes_in_rounds(all, fixed, more, rest, next);
        let out = crate::plan::cover(now, assigned);
        assert(out == crate::plan::cover(rest, next));
        assert(picks[n] == picks.take(n + 1)[n]);
        assert(picks[n] == off);
        assert(picks.take(n) =~= done) by {
            assert forall|j: int| 0 <= j < n implies picks[j] == done[j] by {
                assert(picks.take(n + 1)[j] == more[j]);
            }
        }
        assert(is_greedy(all, fixed, picks, n)) by {
            choice_is_candidate(all, fixed, done, now, off);
            waiting_is_scored(all, fixed, done, now, off);
            assert forall|c: i64| #[trigger] stands_for_choice(all, fixed, done, c) implies {
                let m = waiting_for(all, fixed, done, c).len();
                let most = waiting_for(all, fixed, done, off).len();
                m < most || (m == most && c <= off)
            } by {
                choice_is_candidate(all, fixed, done, now, c);
                waiting_is_scored(all, fixed, done, now, c);
                assert(crate::plan::no_better(now, c, off));
            }
        }
        assert forall|i: int| 0 <= i < now.len() implies got_first(
            #[trigger] now[i],
            out,
            picks,
            n,
        ) by {
            let t = now[i];
            served_is_inside(t);
            assert(now.contains(t));
            assert(waits(t, fixed, done));
            if t.served_at(off) {
                crate::plan_laws::assign_effect(now, off, assigned, t.key);
                assert(crate::plan_laws::serves_key(now, off, t.key));
                if crate::plan_laws::names(rest, t.key) {
                    let k = choose|k: int| 0 <= k < rest.len() && (#[trigger] rest[k]).key == t.key;
                    assert(rest.contains(rest[k]));
                    let m = choose|m: int| 0 <= m < now.len() && now[m] == rest[k];
                    assert(m == i);
                }
                assert(out.contains_key(t.key) == next.contains_key(t.key));
                assert(out[t.key] == next[t.key]);
                assert forall|j: int| 0 <= j < n implies !inside(
                    t.spans,
                    (#[trigger] picks[j]) as int,
                ) by {
                    assert(picks.take(n)[j] == done[j]);
                }
                assert(first_served_in(t, picks, n));
            } else {
                assert(rest.contains(t));
                let m = choose|m: int| 0 <= m < rest.len() && rest[m] == t;
                assert(got_first(rest[m], out, picks, n + 1));
                let k = choose|k: int|
                    n + 1 <= k && #[trigger] first_served_in(t, picks, k) && out[t.key] == picks[k];
                assert(n <= k && first_served_in(t, picks, k));
            }
        }
        assert forall|key: Seq<char>| !crate::plan_laws::names(now, key) implies #[trigger]
            out.contains_key(key) == assigned.contains_key(key) && out[key] == assigned[key] by {
            crate::plan_laws::other_key_is_kept(now, off, assigned, key);
        }
        picks
    }
}

/// A plan is greedy. These are its picks, round by round: each is the candidate
/// that serves the most of the targets that still wait, the newest among equals.
/// Every target that nothing paid for serves gets the first pick that serves it;
/// every other gets the newest revision paid for that does. Nothing else is
/// planned.
pub proof fn plan_is_greedy(targets: Seq<TargetView>, fixed: Set<i64>) -> (picks: Seq<i64>)
    requires
        crate::plan_laws::distinct(targets),
        crate::plan::all_servable(crate::plan::left_over(targets, fixed)) || crate::plan::plannable(
            crate::plan::left_over(targets, fixed),
        ),
    ensures
        forall|k: int| 0 <= k < picks.len() ==> #[trigger] is_greedy(targets, fixed, picks, k),
        forall|i: int|
            0 <= i < targets.len() && !is_paid(#[trigger] targets[i], fixed) ==> exists|k: int|
                #[trigger] first_served_in(targets[i], picks, k) && crate::plan::plan(
                    targets,
                    fixed,
                )[targets[i].key] == picks[k],
        forall|i: int|
            0 <= i < targets.len() && is_paid(#[trigger] targets[i], fixed) ==> newest_paid(
                targets[i],
                fixed,
                crate::plan::plan(targets, fixed)[targets[i].key],
            ),
        forall|key: Seq<char>| #[trigger]
            crate::plan::plan(targets, fixed).contains_key(key) <==> exists|i: int|
                0 <= i < targets.len() && (#[trigger] targets[i]).key == key,
{
    let left = crate::plan::left_over(targets, fixed);
    let free = crate::plan::free_plan(targets, fixed);
    let out = crate::plan::plan(targets, fixed);
    if crate::plan::all_servable(left) {
        crate::plan_laws::servable_is_plannable(left);
    }
    crate::plan_laws::left_over_members(targets, fixed);
    crate::plan_laws::free_effect(targets, fixed);
    assert forall|t: TargetView| #[trigger] left.contains(t) <==> targets.contains(t) && waits(
        t,
        fixed,
        Seq::empty(),
    ) by {
        free_is_paid(t, fixed);
    }
    let picks = cover_goes_in_rounds(targets, fixed, Seq::empty(), left, free);
    assert forall|i: int| 0 <= i < targets.len() implies {
        let t = #[trigger] targets[i];
        &&& out.contains_key(t.key)
        &&& !is_paid(t, fixed) ==> exists|k: int| #[trigger]
            first_served_in(t, picks, k) && out[t.key] == picks[k]
        &&& is_paid(t, fixed) ==> newest_paid(t, fixed, out[t.key])
    } by {
        let t = targets[i];
        free_is_paid(t, fixed);
        assert(targets.contains(t));
        if is_paid(t, fixed) {
            assert(!crate::plan_laws::names(left, t.key)) by {
                if crate::plan_laws::names(left, t.key) {
                    let k = choose|k: int| 0 <= k < left.len() && (#[trigger] left[k]).key == t.key;
                    assert(left.contains(left[k]));
                    let m = choose|m: int| 0 <= m < targets.len() && targets[m] == left[k];
                    assert(m == i);
                }
            }
            assert(out.contains_key(t.key) == free.contains_key(t.key));
            assert(out[t.key] == free[t.key]);
        } else {
            assert(left.contains(t));
            let m = choose|m: int| 0 <= m < left.len() && left[m] == t;
            assert(got_first(left[m], out, picks, 0));
        }
    }
    assert forall|key: Seq<char>| #[trigger] out.contains_key(key) <==> exists|i: int|
        0 <= i < targets.len() && (#[trigger] targets[i]).key == key by {
        if out.contains_key(key) {
            if crate::plan_laws::names(left, key) {
                let k = choose|k: int| 0 <= k < left.len() && (#[trigger] left[k]).key == key;
                assert(left.contains(left[k]));
                let m = choose|m: int| 0 <= m < targets.len() && targets[m] == left[k];
                assert(targets[m].key == key);
            } else {
                assert(free.contains_key(key));
                assert(crate::plan_laws::names(targets, key));
            }
        }
    }
    picks
}

/// The targets that nothing paid for serves and that are given an offset.
pub open spec fn given(
    targets: Seq<TargetView>,
    fixed: Set<i64>,
    plan: Map<Seq<char>, i64>,
    off: i64,
) -> Set<TargetView> {
    Set::new(|t: TargetView| targets.contains(t) && !is_paid(t, fixed) && plan[t.key] == off)
}

/// The targets that nothing paid for serves and whose spans an offset lies in.
pub open spec fn would_serve(targets: Seq<TargetView>, fixed: Set<i64>, off: i64) -> Set<
    TargetView,
> {
    Set::new(|t: TargetView| targets.contains(t) && !is_paid(t, fixed) && inside(t.spans, off as int))
}

/// No candidate would serve more targets than the most that one revision of the
/// plan is given to: for each candidate of a target that has to pay there is a
/// target that has to pay whose revision at least as many get as the candidate
/// would serve.
pub proof fn some_revision_serves_as_many_as_any_candidate(
    targets: Seq<TargetView>,
    fixed: Set<i64>,
    i: int,
    c: i64,
) -> (j: int)
    requires
        crate::plan_laws::distinct(targets),
        crate::plan::all_servable(crate::plan::left_over(targets, fixed)) || crate::plan::plannable(
            crate::plan::left_over(targets, fixed),
        ),
        0 <= i < targets.len(),
        !is_paid(targets[i], fixed),
        targets[i].candidates.contains(c),
    ensures
        0 <= j < targets.len(),
        !is_paid(targets[j], fixed),
        ({
            let plan = crate::plan::plan(targets, fixed);
            given(targets, fixed, plan, plan[targets[j].key]).len() >= would_serve(
                targets,
                fixed,
                c,
            ).len()
        }),
{
    let plan = crate::plan::plan(targets, fixed);
    let picks = plan_is_greedy(targets, fixed);
    let none = Seq::<i64>::empty();
    let k = choose|k: int| #[trigger]
        first_served_in(targets[i], picks, k) && plan[targets[i].key] == picks[k];
    let off = picks[0];
    assert(is_greedy(targets, fixed, picks, 0));
    assert(picks.take(0) =~= none);
    assert(waits(targets[i], fixed, none));
    assert(stands_for_choice(targets, fixed, none, c));
    assert(would_serve(targets, fixed, c) =~= waiting_for(targets, fixed, none, c));
    assert(would_serve(targets, fixed, off) =~= waiting_for(targets, fixed, none, off));
    assert forall|t: TargetView| would_serve(targets, fixed, off).contains(t) implies given(
        targets,
        fixed,
        plan,
        off,
    ).contains(t) by {
        let m = choose|m: int| 0 <= m < targets.len() && targets[m] == t;
        assert(!is_paid(targets[m], fixed));
        let r = choose|r: int| #[trigger]
            first_served_in(targets[m], picks, r) && plan[targets[m].key] == picks[r];
        if r > 0 {
            assert(!inside(t.spans, picks[0] as int));
        }
    }
    vstd::seq_lib::seq_to_set_is_finite(targets);
    assert(given(targets, fixed, plan, off).subset_of(targets.to_set()));
    vstd::set_lib::lemma_set_subset_finite(targets.to_set(), given(targets, fixed, plan, off));
    vstd::set_lib::lemma_len_subset(
        would_serve(targets, fixed, off),
        given(targets, fixed, plan, off),
    );
    if would_serve(targets, fixed, c).len() == 0 {
        i
    } else {
        assert(would_serve(targets, fixed, off).len() > 0);
        assert(would_serve(targets, fixed, off).subset_of(targets.to_set()));
        vstd::set_lib::lemma_set_subset_finite(
            targets.to_set(),
            would_serve(targets, fixed, off),
        );
        let t = would_serve(targets, fixed, off).choose();
        assert(would_serve(targets, fixed, off).contains(t)) by {
            if !(exists|x: TargetView| would_serve(targets, fixed, off).contains(x)) {
                assert(would_serve(targets, fixed, off) =~= Set::empty());
            }
        }
        assert(given(targets, fixed, plan, off).contains(t));
        let j = choose|j: int| 0 <= j < targets.len() && targets[j] == t;
        j
    }
}

} // verus!
