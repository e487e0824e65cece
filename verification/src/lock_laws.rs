//! What holds of a lock whatever is done to it.

use vstd::prelude::*;

use crate::constraint::ConstraintView;
use crate::index::IndexView;
use crate::pin::PinView;
use crate::plan::TargetView;

verus! {

/// Planning pins together changes no version and no constraint: each pin has
/// the version it would have alone, and remembers what it was asked for.
pub proof fn sharing_changes_no_version(
    index: IndexView,
    constraints: Seq<ConstraintView>,
    untouched: Map<Seq<char>, PinView>,
    attr: Seq<char>,
)
    requires
        crate::pin::asks_for(constraints, attr),
    ensures
        crate::pin::planned(index, constraints, untouched).contains_key(attr),
        crate::pin::planned(index, constraints, untouched)[attr].version == crate::pin::lone_pin(
            index,
            crate::pin::asking(constraints, attr),
        ).version,
        crate::pin::planned(index, constraints, untouched)[attr].constraint == crate::pin::asking(
            constraints,
            attr,
        ).version,
{
}

/// Where each revision ships at most one version, the revision that serves a
/// pin ships the version that the pin names, and that version is one the
/// constraint accepts.
pub proof fn pins_get_what_they_name(
    index: IndexView,
    constraints: Seq<ConstraintView>,
    untouched: Map<Seq<char>, PinView>,
    i: int,
)
    requires
        index.valid(),
        crate::pin::attrs_distinct(constraints),
        crate::pin::all_resolve(index, constraints),
        0 <= i < constraints.len(),
        crate::resolve::one_version_each(index.runs_of(constraints[i].attr)),
    ensures
        ({
            let attr = constraints[i].attr;
            let pin = crate::pin::planned(index, constraints, untouched)[attr];
            let off = crate::pin::serving(index, constraints, untouched)[attr];
            &&& pin.rev == index.commits[off as int].rev
            &&& crate::resolve::shipped(index, attr, off as int) == Some(pin.version)
            &&& constraints[i].accepts(pin.version)
        }),
{
    let c = constraints[i];
    let runs = index.runs_of(c.attr);
    let version = crate::pin::resolved_version(index, c);
    let off = crate::pin::serving(index, constraints, untouched)[c.attr];
    crate::pin::asking_finds(constraints, i);
    crate::pin::serving_is_in_index(index, constraints, untouched, i);
    assert(crate::pin::resolve_failure(index, c) is None);
    crate::pin::resolved_is_decided(index, c);
    crate::resolve::satisfying_revision_ships_accepted_version(
        index,
        c,
        crate::pin::deciding(index, c),
    );
    assert(crate::index::runs_fit(runs, index.covered)) by {
        decided_runs_fit(index, c);
    }
    crate::pin::carrying_covers(runs, version, index.covered, off as int);
    let k = choose|k: int| #[trigger] crate::pin::carried_by(runs, version, k, off as int);
    crate::resolve::first_run_is_first(runs, off as int, 0, k);
}

proof fn decided_runs_fit(index: IndexView, c: ConstraintView)
    requires
        index.valid(),
        crate::pin::resolve_failure(index, c) is None,
    ensures
        crate::index::runs_fit(index.runs_of(c.attr), index.covered),
{
    assert(index.runs.contains_key(c.attr));
}

/// A pin never points past what the index knows: its revision is one of the
/// index, and one that can be fetched unless a pin that holds still already
/// names it.
pub proof fn pins_point_into_the_index(
    index: IndexView,
    constraints: Seq<ConstraintView>,
    untouched: Map<Seq<char>, PinView>,
    i: int,
)
    requires
        index.valid(),
        crate::pin::attrs_distinct(constraints),
        crate::pin::all_resolve(index, constraints),
        0 <= i < constraints.len(),
    ensures
        ({
            let attr = constraints[i].attr;
            let pin = crate::pin::planned(index, constraints, untouched)[attr];
            let off = crate::pin::serving(index, constraints, untouched)[attr];
            &&& 0 <= off < index.commits.len()
            &&& pin.rev == index.commits[off as int].rev
            &&& pin.label == index.commits[off as int].label
            &&& pin.date == index.commits[off as int].date
            &&& index.materialisable(off as int) || crate::pin::paid_for(
                index,
                untouched,
            ).contains(off)
        }),
{
    let c = constraints[i];
    let ts = crate::pin::targets_of(index, constraints);
    let fixed = crate::pin::paid_for(index, untouched);
    let left = crate::plan::left_over(ts, fixed);
    let off = crate::pin::serving(index, constraints, untouched)[c.attr];
    crate::pin::serving_is_in_index(index, constraints, untouched, i);
    crate::pin::targets_are_distinct(index, constraints);
    crate::pin::targets_are_servable(index, constraints, fixed);
    crate::plan_laws::plan_serves_every_target(ts, fixed);
    assert(ts[i].key == c.attr);
    if ts[i].served_free(fixed) {
        crate::plan_laws::newest_free_serves(ts[i], fixed);
    } else {
        crate::plan_laws::left_over_members(ts, fixed);
        let k = choose|k: int| 0 <= k < left.len() && (#[trigger] left[k]).candidates.contains(off);
        assert(left.contains(left[k]));
        let m = choose|m: int| 0 <= m < ts.len() && ts[m] == left[k];
        assert(crate::pin::resolve_failure(index, constraints[m]) is None);
        crate::pin::target_is_servable(index, constraints[m]);
        assert(crate::pin::target_of(index, constraints[m]).candidates.contains(off));
    }
}

/// A pin lands on a revision that the lock already pays for whenever one
/// carries the pin's version, and on the newest such revision.
pub proof fn paid_revisions_come_first(
    index: IndexView,
    constraints: Seq<ConstraintView>,
    untouched: Map<Seq<char>, PinView>,
    i: int,
)
    requires
        index.valid(),
        crate::pin::attrs_distinct(constraints),
        crate::pin::all_resolve(index, constraints),
        0 <= i < constraints.len(),
        crate::pin::target_of(index, constraints[i]).served_free(
            crate::pin::paid_for(index, untouched),
        ),
    ensures
        crate::pin::target_of(index, constraints[i]).is_newest_free(
            crate::pin::paid_for(index, untouched),
            crate::pin::serving(index, constraints, untouched)[constraints[i].attr],
        ),
{
    let ts = crate::pin::targets_of(index, constraints);
    let fixed = crate::pin::paid_for(index, untouched);
    crate::pin::targets_are_distinct(index, constraints);
    crate::pin::targets_are_servable(index, constraints, fixed);
    crate::plan_laws::plan_serves_every_target(ts, fixed);
    assert(ts[i] == crate::pin::target_of(index, constraints[i]));
    crate::plan_laws::newest_free_serves(ts[i], fixed);
}

/// Where each revision ships at most one version, the newest candidate of a
/// constraint is the revision that decides its version.
pub proof fn newest_candidate_decides(index: IndexView, c: ConstraintView, off: i64)
    requires
        index.valid(),
        crate::pin::resolve_failure(index, c) is None,
        crate::resolve::one_version_each(index.runs_of(c.attr)),
        crate::plan_laws::is_newest_candidate(crate::pin::target_of(index, c), off),
    ensures
        off == crate::pin::deciding(index, c),
{
    let runs = index.runs_of(c.attr);
    let version = crate::pin::resolved_version(index, c);
    let t = crate::pin::target_of(index, c);
    let decided = crate::pin::deciding(index, c);
    crate::pin::resolved_is_decided(index, c);
    crate::pin::target_is_servable(index, c);
    decided_runs_fit(index, c);
    crate::resolve::satisfying_revision_ships_accepted_version(index, c, decided);
    // The newest candidate satisfies the constraint, so it is no newer.
    crate::pin::carrying_covers(runs, version, index.covered, off as int);
    let k = choose|k: int| #[trigger] crate::pin::carried_by(runs, version, k, off as int);
    assert(crate::resolve::satisfied_by(runs, c, k, off as int));
    assert(crate::pin::pinnable(index, c, off as int));
    // The span around the deciding revision has a candidate no older than it.
    let n = choose|n: int| #[trigger] crate::resolve::satisfied_by(runs, c, n, decided);
    crate::resolve::first_run_is_first(runs, decided, 0, n);
    let first = crate::resolve::first_run(runs, decided, 0);
    assert(crate::pin::carried_by(runs, version, first, decided));
    crate::pin::carrying_covers(runs, version, index.covered, decided);
    let m = choose|m: int|
        0 <= m < t.spans.len() && #[trigger] crate::span::spans_over(t.spans[m], decided);
    crate::pin::newest_in_exists(index, t.spans[m].0 as int, t.spans[m].1 as int, decided);
    let newest = choose|o: i64| #[trigger]
        index.newest_in(t.spans[m].0 as int, t.spans[m].1 as int, o as int);
    assert(crate::pin::newest_at(index, t.spans, m, newest));
    crate::pin::fetchable_members(index, t.spans, newest);
    assert(t.candidates.contains(newest));
}

/// A pin that cannot share is exactly what it would be alone: no revision that
/// is paid for carries its version, and no candidate serves it and another.
pub proof fn pin_that_cannot_share_stands_alone(
    index: IndexView,
    constraints: Seq<ConstraintView>,
    untouched: Map<Seq<char>, PinView>,
    i: int,
)
    requires
        index.valid(),
        crate::pin::attrs_distinct(constraints),
        crate::pin::all_resolve(index, constraints),
        0 <= i < constraints.len(),
        crate::resolve::one_version_each(index.runs_of(constraints[i].attr)),
        !crate::pin::target_of(index, constraints[i]).served_free(
            crate::pin::paid_for(index, untouched),
        ),
        crate::plan_laws::cannot_share(crate::pin::targets_of(index, constraints), i),
    ensures
        crate::pin::planned(index, constraints, untouched)[constraints[i].attr]
            == crate::pin::lone_pin(index, constraints[i]),
{
    let c = constraints[i];
    let ts = crate::pin::targets_of(index, constraints);
    let fixed = crate::pin::paid_for(index, untouched);
    let left = crate::plan::left_over(ts, fixed);
    crate::pin::asking_finds(constraints, i);
    crate::pin::targets_are_distinct(index, constraints);
    crate::pin::targets_are_servable(index, constraints, fixed);
    crate::plan_laws::left_over_members(ts, fixed);
    assert(ts[i] == crate::pin::target_of(index, c));
    assert forall|k: int| 0 <= k < left.len() && (#[trigger] left[k])
        == ts[i] implies crate::plan_laws::cannot_share(left, k) by {
        assert forall|o: i64, j: int|
            #![trigger crate::plan::is_candidate(left, o), left[j]]
            crate::plan::is_candidate(left, o) && 0 <= j < left.len() && j != k
                && left[k].served_at(o) implies !left[j].served_at(o) by {
            let m = choose|m: int| 0 <= m < left.len() && (#[trigger] left[m]).candidates.contains(o);
            assert(left.contains(left[m]));
            let p = choose|p: int| 0 <= p < ts.len() && ts[p] == left[m];
            assert(ts[p].candidates.contains(o));
            assert(crate::plan::is_candidate(ts, o));
            assert(left.contains(left[j]));
            let q = choose|q: int| 0 <= q < ts.len() && ts[q] == left[j];
            assert(left[j].key != left[k].key);
            assert(q != i);
            assert(!ts[q].served_at(o));
        }
    }
    assert forall|k: int| 0 <= k < ts.len() implies crate::plan_laws::proper(#[trigger] ts[k]) by {
        assert(crate::plan_laws::proper(crate::pin::targets_of(index, constraints)[k]));
    }
    crate::plan_laws::lone_target_gets_its_newest(ts, fixed, i);
    assert(crate::pin::resolve_failure(index, c) is None);
    newest_candidate_decides(
        index,
        c,
        crate::pin::serving(index, constraints, untouched)[c.attr],
    );
}

/// The only pin of a lock is exactly what its constraint resolves to alone.
pub proof fn only_pin_stands_alone(index: IndexView, c: ConstraintView)
    requires
        index.valid(),
        crate::pin::resolve_failure(index, c) is None,
        crate::resolve::one_version_each(index.runs_of(c.attr)),
    ensures
        crate::pin::planned(index, seq![c], Map::empty())[c.attr] == crate::pin::lone_pin(index, c),
{
    let cs = seq![c];
    let none: Map<Seq<char>, PinView> = Map::empty();
    assert(cs[0] == c);
    assert(crate::pin::paid_for(index, none) =~= Set::empty());
    assert(crate::plan_laws::cannot_share(crate::pin::targets_of(index, cs), 0));
    pin_that_cannot_share_stands_alone(index, cs, none, 0);
}

/// Adding pins leaves every other pin exactly where it was.
pub proof fn adding_leaves_other_pins(
    index: IndexView,
    specs: Seq<Seq<char>>,
    pins: Map<Seq<char>, PinView>,
    attr: Seq<char>,
)
    requires
        pins.contains_key(attr),
        !crate::pin::asks_for(crate::solve::meant(specs), attr),
    ensures
        pins.union_prefer_right(crate::edit::new_pins(index, specs, pins)).contains_key(attr),
        pins.union_prefer_right(crate::edit::new_pins(index, specs, pins))[attr] == pins[attr],
{
}

/// Removing an attribute that was just pinned for the first time gives back the
/// pins there were.
pub proof fn removing_undoes_adding(
    index: IndexView,
    spec: Seq<char>,
    pins: Map<Seq<char>, PinView>,
)
    requires
        crate::edit::wanted_failure(seq![spec]) is None,
        !pins.contains_key(crate::constraint::parsed(spec)->Ok_0.attr),
    ensures
        pins.union_prefer_right(crate::edit::new_pins(index, seq![spec], pins)).remove(
            crate::constraint::parsed(spec)->Ok_0.attr,
        ) == pins,
{
    let c = crate::constraint::parsed(spec)->Ok_0;
    let cs = crate::solve::meant(seq![spec]);
    let new = crate::edit::new_pins(index, seq![spec], pins);
    assert(cs =~= seq![c]);
    assert(pins.union_prefer_right(new).remove(c.attr) =~= pins);
}

/// What an update is to move is pinned, and asked for as its pin remembers.
pub proof fn update_targets_are_pinned(
    pins: Map<Seq<char>, PinView>,
    name: Option<Seq<char>>,
    all: bool,
)
    requires
        pins.dom().finite(),
        crate::edit::update_targets(pins, name, all) is Ok,
    ensures
        crate::pin::attrs_distinct(crate::edit::update_targets(pins, name, all)->Ok_0),
        forall|attr: Seq<char>| #[trigger]
            crate::pin::asks_for(crate::edit::update_targets(pins, name, all)->Ok_0, attr)
                ==> pins.contains_key(attr) && crate::pin::asking(
                crate::edit::update_targets(pins, name, all)->Ok_0,
                attr,
            ) == crate::lock::constraint_of(pins, attr),
        name is None ==> forall|attr: Seq<char>| #[trigger]
            pins.contains_key(attr) ==> crate::pin::asks_for(
                crate::edit::update_targets(pins, name, all)->Ok_0,
                attr,
            ),
{
    let targets = crate::edit::update_targets(pins, name, all)->Ok_0;
    match name {
        Some(a) => {
            assert(targets =~= seq![crate::lock::constraint_of(pins, a)]);
        },
        None => {
            let attrs = crate::text::order_exists(pins.dom());
            crate::lock::constraints_are_distinct(pins, attrs);
        },
    }
}

/// An update of one pin moves that pin alone. Every other pin stays exactly
/// where it was, and no attribute is pinned or unpinned.
pub proof fn updating_leaves_other_pins(
    index: IndexView,
    pins: Map<Seq<char>, PinView>,
    name: Seq<char>,
    all: bool,
    attr: Seq<char>,
)
    requires
        pins.contains_key(name),
        pins.contains_key(attr),
        attr != name,
    ensures
        crate::edit::updated(pins, crate::edit::replanned(index, pins, Some(name), all)).dom()
            == pins.dom(),
        crate::edit::updated(pins, crate::edit::replanned(index, pins, Some(name), all))[attr]
            == pins[attr],
{
    let targets = crate::edit::update_targets(pins, Some(name), all)->Ok_0;
    assert(targets =~= seq![crate::lock::constraint_of(pins, name)]);
    assert(crate::edit::updated(pins, crate::edit::replanned(index, pins, Some(name), all)).dom()
        =~= pins.dom());
}

/// An update keeps what every pin was asked for: a pin added inside a prefix
/// stays inside it.
pub proof fn updating_keeps_constraints(
    index: IndexView,
    pins: Map<Seq<char>, PinView>,
    name: Option<Seq<char>>,
    all: bool,
    attr: Seq<char>,
)
    requires
        pins.dom().finite(),
        pins.contains_key(attr),
        crate::edit::update_targets(pins, name, all) is Ok,
    ensures
        crate::edit::updated(pins, crate::edit::replanned(index, pins, name, all)).contains_key(
            attr,
        ),
        crate::edit::updated(
            pins,
            crate::edit::replanned(index, pins, name, all),
        )[attr].constraint == pins[attr].constraint,
{
    update_targets_are_pinned(pins, name, all);
    let targets = crate::edit::update_targets(pins, name, all)->Ok_0;
    if crate::pin::asks_for(targets, attr) {
        assert(crate::pin::asking(targets, attr) == crate::lock::constraint_of(pins, attr));
    }
}

/// An update leaves nothing to the same update: run again, it moves no pin.
pub proof fn updating_twice_moves_nothing(
    index: IndexView,
    pins: Map<Seq<char>, PinView>,
    name: Option<Seq<char>>,
    all: bool,
)
    requires
        pins.dom().finite(),
        crate::edit::update_failure(index, pins, name, all) is None,
    ensures
        ({
            let after = crate::edit::updated(
                pins,
                crate::edit::replanned(index, pins, name, all),
            );
            &&& crate::edit::update_failure(index, after, name, all) is None
            &&& forall|attr: Seq<char>|
                !#[trigger] crate::edit::moves(
                    after,
                    crate::edit::replanned(index, after, name, all),
                    attr,
                )
        }),
{
    let new = crate::edit::replanned(index, pins, name, all);
    let after = crate::edit::updated(pins, new);
    let targets = crate::edit::update_targets(pins, name, all)->Ok_0;
    update_targets_are_pinned(pins, name, all);
    assert(after.dom() =~= pins.dom());
    assert forall|attr: Seq<char>| pins.contains_key(
        attr,
    ) implies #[trigger] crate::lock::constraint_of(after, attr) == crate::lock::constraint_of(
        pins,
        attr,
    ) by {
        updating_keeps_constraints(index, pins, name, all, attr);
    }
    assert(crate::lock::constraints_of(after) =~= crate::lock::constraints_of(pins)) by {
        let attrs = crate::text::order_exists(pins.dom());
        crate::lock::constraints_are_distinct(pins, attrs);
        crate::lock::constraints_are_distinct(after, attrs);
        assert forall|i: int| 0 <= i < attrs.len() implies crate::lock::constraints_of(after)[i]
            == crate::lock::constraints_of(pins)[i] by {
            assert(attrs.contains(attrs[i]));
            assert(crate::lock::constraint_of(after, attrs[i]) == crate::lock::constraint_of(
                pins,
                attrs[i],
            ));
        }
    }
    assert(exists|a: Seq<char>| #[trigger] pins.contains_key(a)) by {
        match name {
            Some(a) => {
                assert(pins.contains_key(a));
            },
            None => {},
        }
    }
    let held = choose|a: Seq<char>| #[trigger] pins.contains_key(a);
    assert(after.contains_key(held));
    match name {
        Some(a) => {
            assert(pins.contains_key(a));
            assert(crate::lock::constraint_of(after, a) == crate::lock::constraint_of(pins, a));
        },
        None => {},
    }
    assert(crate::edit::update_targets(after, name, all) == crate::edit::update_targets(
        pins,
        name,
        all,
    ));
    assert(crate::edit::others(after, targets) =~= crate::edit::others(pins, targets));
    assert(crate::edit::replanned(index, after, name, all) == new);
    assert forall|attr: Seq<char>| !#[trigger] crate::edit::moves(after, new, attr) by {
        if new.contains_key(attr) {
            assert(crate::pin::asks_for(targets, attr));
        }
    }
}

/// A lock made by one addition is already as an update of every pin would have
/// it.
pub proof fn added_together_stays_together(index: IndexView, specs: Seq<Seq<char>>)
    requires
        index.valid(),
        specs.len() > 0,
        crate::edit::add_failure(index, specs) is None,
    ensures
        ({
            let none: Map<Seq<char>, PinView> = Map::empty();
            let pins = none.union_prefer_right(crate::edit::new_pins(index, specs, none));
            &&& crate::edit::update_failure(index, pins, None, true) is None
            &&& forall|attr: Seq<char>|
                !#[trigger] crate::edit::moves(
                    pins,
                    crate::edit::replanned(index, pins, None, true),
                    attr,
                )
        }),
{
    let none: Map<Seq<char>, PinView> = Map::empty();
    let cs = crate::solve::meant(specs);
    let pins = none.union_prefer_right(crate::edit::new_pins(index, specs, none));
    crate::edit::wanted_are_distinct(specs);
    crate::edit::no_failure_means_all_resolve(index, cs);
    assert(crate::edit::others(none, cs) =~= none);
    let plan = crate::pin::planned(index, cs, none);
    assert(pins =~= plan);
    let attrs_of_cs = cs.map_values(|c: ConstraintView| c.attr);
    assert(pins.dom() =~= attrs_of_cs.to_set()) by {
        assert forall|a: Seq<char>| pins.dom().contains(a) <==> attrs_of_cs.to_set().contains(
            a,
        ) by {
            if pins.contains_key(a) {
                let i = choose|i: int| 0 <= i < cs.len() && (#[trigger] cs[i]).attr == a;
                assert(attrs_of_cs[i] == a);
            }
            if attrs_of_cs.contains(a) {
                let i = choose|i: int| 0 <= i < attrs_of_cs.len() && attrs_of_cs[i] == a;
                assert(cs[i].attr == a);
            }
        }
    }
    vstd::seq_lib::seq_to_set_is_finite(attrs_of_cs);
    assert(cs[0].attr == cs[0].attr);
    assert(pins.contains_key(cs[0].attr));
    let attrs = crate::text::order_exists(pins.dom());
    crate::lock::constraints_are_distinct(pins, attrs);
    let again = crate::lock::constraints_of(pins);
    assert(crate::edit::update_targets(pins, None, true)->Ok_0 == again);
    assert forall|c: ConstraintView| cs.contains(c) <==> #[trigger] again.contains(c) by {
        if cs.contains(c) {
            let i = choose|i: int| 0 <= i < cs.len() && cs[i] == c;
            crate::pin::asking_finds(cs, i);
            assert(pins.contains_key(c.attr));
            assert(crate::lock::constraint_of(pins, c.attr) == c);
            assert(attrs.contains(c.attr));
            let k = choose|k: int| 0 <= k < attrs.len() && attrs[k] == c.attr;
            assert(again[k] == c);
        }
        if again.contains(c) {
            let k = choose|k: int| 0 <= k < again.len() && again[k] == c;
            assert(attrs.contains(attrs[k]));
            assert(pins.contains_key(c.attr));
            let i = choose|i: int| 0 <= i < cs.len() && (#[trigger] cs[i]).attr == c.attr;
            crate::pin::asking_finds(cs, i);
            assert(crate::lock::constraint_of(pins, c.attr) == cs[i]);
        }
    }
    assert forall|i: int| 0 <= i < again.len() implies crate::pin::resolve_failure(
        index,
        #[trigger] again[i],
    ) is None by {
        assert(again.contains(again[i]));
        let k = choose|k: int| 0 <= k < cs.len() && cs[k] == again[i];
        assert(crate::pin::resolve_failure(index, cs[k]) is None);
    }
    crate::edit::all_resolve_means_no_failure(index, again);
    assert(crate::edit::others(pins, again) =~= none);
    same_serving_for_same_constraints(index, cs, again, none);
    let new = crate::edit::replanned(index, pins, None, true);
    assert(new == crate::pin::planned(index, again, none));
    assert forall|attr: Seq<char>| !#[trigger] crate::edit::moves(pins, new, attr) by {
        if new.contains_key(attr) {
            assert(pins.contains_key(attr));
            let i = choose|i: int| 0 <= i < cs.len() && (#[trigger] cs[i]).attr == attr;
            crate::pin::asking_finds(cs, i);
        }
    }
}

/// Constraints in another order are served by the same revisions.
pub proof fn same_serving_for_same_constraints(
    index: IndexView,
    a: Seq<ConstraintView>,
    b: Seq<ConstraintView>,
    untouched: Map<Seq<char>, PinView>,
)
    requires
        index.valid(),
        crate::pin::attrs_distinct(a),
        crate::pin::attrs_distinct(b),
        crate::pin::all_resolve(index, a),
        forall|c: ConstraintView| a.contains(c) <==> #[trigger] b.contains(c),
    ensures
        crate::pin::serving(index, a, untouched) == crate::pin::serving(index, b, untouched),
{
    let ta = crate::pin::targets_of(index, a);
    let tb = crate::pin::targets_of(index, b);
    let fixed = crate::pin::paid_for(index, untouched);
    crate::pin::targets_are_distinct(index, a);
    crate::pin::targets_are_distinct(index, b);
    crate::pin::targets_are_servable(index, a, fixed);
    assert forall|t: TargetView| #[trigger] ta.contains(t) <==> tb.contains(t) by {
        if ta.contains(t) {
            let i = choose|i: int| 0 <= i < ta.len() && ta[i] == t;
            assert(a.contains(a[i]));
            assert(b.contains(a[i]));
            let k = choose|k: int| 0 <= k < b.len() && b[k] == a[i];
            assert(tb[k] == t);
        }
        if tb.contains(t) {
            let i = choose|i: int| 0 <= i < tb.len() && tb[i] == t;
            assert(b.contains(b[i]));
            let k = choose|k: int| 0 <= k < a.len() && a[k] == b[i];
            assert(ta[k] == t);
        }
    }
    crate::plan_laws::plan_ignores_order(ta, tb, fixed);
}

/// Whether the candidates of a target are the newest fetchable offsets of its
/// spans.
pub open spec fn candidates_fit(index: IndexView, target: TargetView) -> bool {
    target.candidates == crate::pin::fetchable(index, target.spans)
}

/// A revision that serves some targets can be exchanged for a candidate, no
/// older than it, that serves them all: it slides towards newer revisions, to
/// the first that is the last of a span, and leaves no span it was in. So a
/// plan needs no other offsets than candidates.
pub proof fn candidates_suffice(
    index: IndexView,
    targets: Seq<TargetView>,
    off: i64,
    i: int,
) -> (c: i64)
    requires
        index.materialisable(off as int),
        forall|j: int|
            0 <= j < targets.len() ==> candidates_fit(index, #[trigger] targets[j]),
        0 <= i < targets.len(),
        targets[i].served_at(off),
    ensures
        crate::plan::is_candidate(targets, c),
        off <= c,
        forall|j: int|
            0 <= j < targets.len() && (#[trigger] targets[j]).served_at(off)
                ==> targets[j].served_at(c),
{
    let m = choose|m: int|
        0 <= m < targets[i].spans.len() && #[trigger] crate::span::spans_over(
            targets[i].spans[m],
            off as int,
        );
    assert(span_at(targets[i], m, off, i64::MAX as int));
    slide(index, targets, off, i, i64::MAX as int)
}

proof fn slide(
    index: IndexView,
    targets: Seq<TargetView>,
    off: i64,
    i: int,
    limit: int,
) -> (c: i64)
    requires
        index.materialisable(off as int),
        forall|j: int|
            0 <= j < targets.len() ==> candidates_fit(index, #[trigger] targets[j]),
        0 <= i < targets.len(),
        exists|m: int| span_at(targets[i], m, off, limit),
    ensures
        crate::plan::is_candidate(targets, c),
        off <= c,
        forall|j: int|
            0 <= j < targets.len() && (#[trigger] targets[j]).served_at(off)
                ==> targets[j].served_at(c),
    decreases limit - off,
{
    let t = targets[i];
    let m = choose|m: int| span_at(t, m, off, limit);
    let (first, last) = t.spans[m];
    crate::pin::newest_in_exists(index, first as int, last as int, off as int);
    let c = choose|o: i64| #[trigger] index.newest_in(first as int, last as int, o as int);
    assert(crate::pin::newest_at(index, t.spans, m, c));
    crate::pin::fetchable_members(index, t.spans, c);
    assert(candidates_fit(index, targets[i]));
    assert(t.candidates.contains(c));
    assert(crate::plan::is_candidate(targets, c));
    assert(off <= c) by {
        if c < off {
            assert(!index.materialisable(off as int));
        }
    }
    if exists|j: int|
        0 <= j < targets.len() && (#[trigger] targets[j]).served_at(off)
            && !targets[j].served_at(c) {
        let j = choose|j: int|
            0 <= j < targets.len() && (#[trigger] targets[j]).served_at(off)
                && !targets[j].served_at(c);
        let n = choose|n: int|
            0 <= n < targets[j].spans.len() && #[trigger] crate::span::spans_over(
                targets[j].spans[n],
                off as int,
            );
        assert(!crate::span::spans_over(targets[j].spans[n], c as int));
        assert(span_at(targets[j], n, off, c - 1));
        slide(index, targets, off, j, c - 1)
    } else {
        c
    }
}

/// Whether a span of a target reaches over an offset and ends by a limit.
spec fn span_at(target: TargetView, m: int, off: i64, limit: int) -> bool {
    &&& 0 <= m < target.spans.len()
    &&& crate::span::spans_over(target.spans[m], off as int)
    &&& target.spans[m].1 <= limit
}

/// Where one fetchable revision carries the version of every pin that no paid
/// revision serves, all of those pins get one and the same revision, and it is
/// no older.
pub proof fn one_revision_serves_all_where_one_can(
    index: IndexView,
    constraints: Seq<ConstraintView>,
    untouched: Map<Seq<char>, PinView>,
    off: i64,
    i: int,
    j: int,
)
    requires
        index.valid(),
        crate::pin::attrs_distinct(constraints),
        crate::pin::all_resolve(index, constraints),
        index.materialisable(off as int),
        forall|k: int|
            0 <= k < constraints.len() ==> crate::pin::target_of(
                index,
                #[trigger] constraints[k],
            ).served_free(crate::pin::paid_for(index, untouched)) || crate::pin::target_of(
                index,
                constraints[k],
            ).served_at(off),
        0 <= i < constraints.len(),
        0 <= j < constraints.len(),
        !crate::pin::target_of(index, constraints[i]).served_free(
            crate::pin::paid_for(index, untouched),
        ),
        !crate::pin::target_of(index, constraints[j]).served_free(
            crate::pin::paid_for(index, untouched),
        ),
    ensures
        crate::pin::serving(index, constraints, untouched)[constraints[i].attr]
            == crate::pin::serving(index, constraints, untouched)[constraints[j].attr],
        crate::pin::serving(index, constraints, untouched)[constraints[i].attr] >= off,
{
    let ts = crate::pin::targets_of(index, constraints);
    let fixed = crate::pin::paid_for(index, untouched);
    let left = crate::plan::left_over(ts, fixed);
    crate::pin::targets_are_distinct(index, constraints);
    crate::plan_laws::left_over_members(ts, fixed);
    assert forall|k: int| 0 <= k < left.len() implies candidates_fit(index, #[trigger] left[k])
        && left[k].served_at(off) by {
        assert(left.contains(left[k]));
        let p = choose|p: int| 0 <= p < ts.len() && ts[p] == left[k];
        assert(ts[p] == crate::pin::target_of(index, constraints[p]));
    }
    assert(ts.contains(ts[i]));
    assert(left.contains(ts[i]));
    let k = choose|k: int| 0 <= k < left.len() && left[k] == ts[i];
    let c = candidates_suffice(index, left, off, k);
    crate::plan_laws::one_revision_where_possible(ts, fixed, c);
    assert(!ts[i].served_free(fixed));
    assert(!ts[j].served_free(fixed));
}

} // verus!
