//! What adding and updating do, said of the pins before and after and of the
//! index.

use vstd::prelude::*;

use crate::constraint::ConstraintView;
use crate::edit::{Added, Moved};
use crate::index::IndexView;
use crate::pin::PinView;

verus! {

/// Whether one of the constraints is about an attribute.
pub open spec fn is_named(constraints: Seq<ConstraintView>, attr: Seq<char>) -> bool {
    exists|i: int| 0 <= i < constraints.len() && (#[trigger] constraints[i]).attr == attr
}

/// Whether `rest` are exactly the pins that no constraint names, as they are.
pub open spec fn are_the_others(
    rest: Map<Seq<char>, PinView>,
    pins: Map<Seq<char>, PinView>,
    constraints: Seq<ConstraintView>,
) -> bool {
    &&& forall|attr: Seq<char>| #[trigger]
        rest.contains_key(attr) <==> pins.contains_key(attr) && !is_named(constraints, attr)
    &&& forall|attr: Seq<char>| #[trigger] rest.contains_key(attr) ==> rest[attr] == pins[attr]
}

/// Whether these constraints are what the texts say.
pub open spec fn are_read_from(constraints: Seq<ConstraintView>, specs: Seq<Seq<char>>) -> bool {
    &&& constraints.len() == specs.len()
    &&& forall|i: int|
        0 <= i < specs.len() ==> crate::version_laws::written_as(
            specs[i],
            #[trigger] constraints[i],
        )
}

proof fn others_are_the_others(
    rest: Map<Seq<char>, PinView>,
    pins: Map<Seq<char>, PinView>,
    constraints: Seq<ConstraintView>,
)
    requires
        are_the_others(rest, pins, constraints),
    ensures
        crate::edit::others(pins, constraints) == rest,
{
    assert forall|attr: Seq<char>| crate::edit::others(pins, constraints).contains_key(attr)
        <==> #[trigger] rest.contains_key(attr) by {
        assert(crate::pin::asks_for(constraints, attr) <==> is_named(constraints, attr));
    }
    assert forall|attr: Seq<char>| #[trigger] rest.contains_key(attr) implies crate::edit::others(
        pins,
        constraints,
    )[attr] == rest[attr] by {}
    assert(crate::edit::others(pins, constraints) =~= rest);
}

proof fn meant_is_read(constraints: Seq<ConstraintView>, specs: Seq<Seq<char>>)
    requires
        are_read_from(constraints, specs),
    ensures
        crate::solve::meant(specs) == constraints,
{
    assert forall|i: int| 0 <= i < specs.len() implies crate::solve::meant(specs)[i]
        == constraints[i] by {
        crate::version_laws::parsing_reads_what_is_written(
            specs[i],
            constraints[i],
            Seq::empty(),
        );
    }
    assert(crate::solve::meant(specs) =~= constraints);
}

/// Pins are added by planning all constraints of the command together, beside
/// every pin of the lock that the command does not name.
pub proof fn additions_are_planned_beside_every_other_pin(
    index: IndexView,
    specs: Seq<Seq<char>>,
    pins: Map<Seq<char>, PinView>,
    constraints: Seq<ConstraintView>,
    rest: Map<Seq<char>, PinView>,
)
    requires
        are_read_from(constraints, specs),
        are_the_others(rest, pins, constraints),
    ensures
        crate::edit::new_pins(index, specs, pins) == crate::pin::planned(index, constraints, rest),
{
    meant_is_read(constraints, specs);
    others_are_the_others(rest, pins, constraints);
}

/// Whether a pin of the lock that no constraint names has the revision at an
/// offset, and that revision carries the version that `c` resolves to.
pub open spec fn can_share(
    index: IndexView,
    pins: Map<Seq<char>, PinView>,
    constraints: Seq<ConstraintView>,
    c: ConstraintView,
    off: int,
) -> bool {
    &&& exists|other: Seq<char>|
        #[trigger] pins.contains_key(other) && !is_named(constraints, other)
            && crate::index_laws::newest_beginning(index, pins[other].rev, off)
    &&& exists|i: int| #[trigger]
        crate::index_laws::carries(
            index,
            c.attr,
            crate::pin::lone_pin(index, c).version,
            i,
            off,
        )
}

/// Whether the revision at an offset is the newest that can be shared.
pub open spec fn newest_to_share(
    index: IndexView,
    pins: Map<Seq<char>, PinView>,
    constraints: Seq<ConstraintView>,
    c: ConstraintView,
    off: int,
) -> bool {
    &&& can_share(index, pins, constraints, c, off)
    &&& forall|o: int| #[trigger] can_share(index, pins, constraints, c, o) ==> o <= off
}

proof fn what_can_be_shared_is_paid_for(
    index: IndexView,
    pins: Map<Seq<char>, PinView>,
    constraints: Seq<ConstraintView>,
    rest: Map<Seq<char>, PinView>,
    c: ConstraintView,
    off: i64,
)
    requires
        index.valid(),
        are_the_others(rest, pins, constraints),
    ensures
        crate::pin::paid_for(index, rest).contains(off) && crate::greedy_laws::inside(
            crate::pin::target_of(index, c).spans,
            off as int,
        ) <==> can_share(index, pins, constraints, c, off as int),
{
    let fixed = crate::pin::paid_for(index, rest);
    let spans = crate::pin::target_of(index, c).spans;
    crate::index_laws::paid_for_means_named_by_a_pin(index, rest, off);
    crate::index_laws::targets_are_the_runs_of_the_version(index, c);
    if fixed.contains(off) && crate::greedy_laws::inside(spans, off as int) {
        let a = choose|a: Seq<char>|
            #[trigger] rest.contains_key(a) && crate::index_laws::newest_beginning(
                index,
                rest[a].rev,
                off as int,
            );
        assert(pins.contains_key(a) && !is_named(constraints, a));
    }
    if can_share(index, pins, constraints, c, off as int) {
        let a = choose|a: Seq<char>|
            #[trigger] pins.contains_key(a) && !is_named(constraints, a)
                && crate::index_laws::newest_beginning(index, pins[a].rev, off as int);
        assert(rest.contains_key(a));
    }
}

proof fn planning_gives_the_newest_paid(
    index: IndexView,
    constraints: Seq<ConstraintView>,
    rest: Map<Seq<char>, PinView>,
    i: int,
)
    requires
        index.valid(),
        crate::pin::attrs_distinct(constraints),
        crate::pin::all_resolve(index, constraints),
        0 <= i < constraints.len(),
        crate::greedy_laws::is_paid(
            crate::pin::target_of(index, constraints[i]),
            crate::pin::paid_for(index, rest),
        ),
    ensures
        crate::greedy_laws::newest_paid(
            crate::pin::target_of(index, constraints[i]),
            crate::pin::paid_for(index, rest),
            crate::plan::plan(
                crate::pin::targets_of(index, constraints),
                crate::pin::paid_for(index, rest),
            )[constraints[i].attr],
        ),
{
    let ts = crate::pin::targets_of(index, constraints);
    let fixed = crate::pin::paid_for(index, rest);
    crate::pin::targets_are_distinct(index, constraints);
    crate::pin::targets_are_servable(index, constraints, fixed);
    let picks = crate::greedy_laws::plan_is_greedy(ts, fixed);
    assert(ts[i] == crate::pin::target_of(index, constraints[i]));
}

proof fn planned_pins_share(
    index: IndexView,
    pins: Map<Seq<char>, PinView>,
    constraints: Seq<ConstraintView>,
    rest: Map<Seq<char>, PinView>,
    i: int,
    off: int,
)
    requires
        index.valid(),
        crate::pin::attrs_distinct(constraints),
        crate::pin::all_resolve(index, constraints),
        are_the_others(rest, pins, constraints),
        0 <= i < constraints.len(),
        newest_to_share(index, pins, constraints, constraints[i], off),
    ensures
        ({
            let pin = crate::pin::planned(index, constraints, rest)[constraints[i].attr];
            &&& pin.rev == index.commits[off].rev
            &&& pin.label == index.commits[off].label
            &&& pin.date == index.commits[off].date
        }),
{
    let c = constraints[i];
    let fixed = crate::pin::paid_for(index, rest);
    let plan = crate::plan::plan(crate::pin::targets_of(index, constraints), fixed);
    let t = crate::pin::target_of(index, c);
    let o = off as i64;
    assert(o as int == off);
    what_can_be_shared_is_paid_for(index, pins, constraints, rest, c, o);
    assert(crate::greedy_laws::is_paid(t, fixed));
    planning_gives_the_newest_paid(index, constraints, rest, i);
    let got = plan[c.attr];
    what_can_be_shared_is_paid_for(index, pins, constraints, rest, c, got);
    assert(can_share(index, pins, constraints, c, got as int));
    assert(got == o);
    crate::index_laws::planned_pin_follows_the_plan(index, constraints, rest, i);
}

/// Adding: where a pin of the lock that the command does not name has a revision
/// that carries the version an added attribute resolves to, that attribute is
/// pinned at the newest such revision.
pub proof fn additions_share_every_revision_the_lock_names(
    index: IndexView,
    specs: Seq<Seq<char>>,
    pins: Map<Seq<char>, PinView>,
    constraints: Seq<ConstraintView>,
    i: int,
    off: int,
)
    requires
        index.valid(),
        crate::edit::add_failure(index, specs) is None,
        are_read_from(constraints, specs),
        0 <= i < constraints.len(),
        newest_to_share(index, pins, constraints, constraints[i], off),
    ensures
        ({
            let after = pins.union_prefer_right(crate::edit::new_pins(index, specs, pins));
            let pin = after[constraints[i].attr];
            &&& after.contains_key(constraints[i].attr)
            &&& pin.rev == index.commits[off].rev
            &&& pin.label == index.commits[off].label
            &&& pin.date == index.commits[off].date
            &&& pin.version == crate::pin::lone_pin(index, constraints[i]).version
            &&& pin.constraint == constraints[i].version
        }),
{
    let rest = Map::new(
        |attr: Seq<char>| pins.contains_key(attr) && !is_named(constraints, attr),
        |attr: Seq<char>| pins[attr],
    );
    meant_is_read(constraints, specs);
    crate::edit::wanted_are_distinct(specs);
    crate::edit::no_failure_means_all_resolve(index, constraints);
    additions_are_planned_beside_every_other_pin(index, specs, pins, constraints, rest);
    planned_pins_share(index, pins, constraints, rest, i, off);
    crate::index_laws::planned_pin_follows_the_plan(index, constraints, rest, i);
    assert(crate::edit::new_pins(index, specs, pins).contains_key(constraints[i].attr));
}

/// Adding pins every attribute that is asked for at the version it would have
/// alone, remembers what was asked, and leaves every other pin.
pub proof fn additions_have_their_lone_version(
    index: IndexView,
    specs: Seq<Seq<char>>,
    pins: Map<Seq<char>, PinView>,
    constraints: Seq<ConstraintView>,
    attr: Seq<char>,
)
    requires
        crate::edit::add_failure(index, specs) is None,
        are_read_from(constraints, specs),
    ensures
        ({
            let after = pins.union_prefer_right(crate::edit::new_pins(index, specs, pins));
            &&& after.contains_key(attr) <==> pins.contains_key(attr) || is_named(constraints, attr)
            &&& pins.contains_key(attr) && !is_named(constraints, attr) ==> after[attr]
                == pins[attr]
            &&& forall|i: int|
                0 <= i < constraints.len() && (#[trigger] constraints[i]).attr == attr
                    ==> after[attr].version == crate::pin::lone_pin(index, constraints[i]).version
                    && after[attr].constraint == constraints[i].version
        }),
{
    let new = crate::edit::new_pins(index, specs, pins);
    let rest = crate::edit::others(pins, constraints);
    meant_is_read(constraints, specs);
    crate::edit::wanted_are_distinct(specs);
    assert(new == crate::pin::planned(index, constraints, rest));
    assert(new.contains_key(attr) <==> is_named(constraints, attr));
    assert forall|i: int| 0 <= i < constraints.len() && (#[trigger] constraints[i]).attr
        == attr implies new[attr].version == crate::pin::lone_pin(index, constraints[i]).version
        && new[attr].constraint == constraints[i].version by {
        crate::index_laws::planned_pin_follows_the_plan(index, constraints, rest, i);
    }
}

/// Updating one pin plans it beside every other pin of the lock. It is then at
/// the revision that planning gives it; it stays as it was where that is the one
/// it had. Every other pin stays as it was.
pub proof fn updating_one_puts_it_where_planning_says(
    index: IndexView,
    pins: Map<Seq<char>, PinView>,
    name: Seq<char>,
    all: bool,
    attr: Seq<char>,
)
    requires
        pins.contains_key(name),
        pins.contains_key(attr),
    ensures
        ({
            let c = ConstraintView { attr: name, version: pins[name].constraint };
            let new = crate::pin::planned(index, seq![c], pins.remove(name))[name];
            let after = crate::edit::updated(
                pins,
                crate::edit::replanned(index, pins, Some(name), all),
            );
            &&& after.dom() == pins.dom()
            &&& after[name].rev == new.rev
            &&& new.rev != pins[name].rev ==> after[name] == new && after[name].version
                == crate::pin::lone_pin(index, c).version
            &&& new.rev == pins[name].rev ==> after[name] == pins[name]
            &&& attr != name ==> after[attr] == pins[attr]
        }),
{
    let c = ConstraintView { attr: name, version: pins[name].constraint };
    let cs = seq![c];
    let targets = crate::edit::update_targets(pins, Some(name), all)->Ok_0;
    let new = crate::edit::replanned(index, pins, Some(name), all);
    let after = crate::edit::updated(pins, new);
    assert(targets =~= cs);
    assert(cs[0].attr == name);
    assert forall|a: Seq<char>| #[trigger] pins.remove(name).contains_key(a) <==> pins.contains_key(
        a,
    ) && !is_named(cs, a) by {
        if is_named(cs, a) {
            let k = choose|k: int| 0 <= k < cs.len() && (#[trigger] cs[k]).attr == a;
        }
    }
    others_are_the_others(pins.remove(name), pins, cs);
    assert(after.dom() =~= pins.dom());
    crate::index_laws::planned_pins_follow_the_plan(index, cs, pins.remove(name));
    assert(new == crate::pin::planned(index, cs, pins.remove(name)));
    assert(new.contains_key(name));
    if attr != name {
        assert(!new.contains_key(attr)) by {
            if new.contains_key(attr) {
                let k = choose|k: int| 0 <= k < cs.len() && (#[trigger] cs[k]).attr == attr;
            }
        }
    }
}

/// Whether these constraints are those of all pins, each once, in any order.
pub open spec fn are_of_all_pins(
    constraints: Seq<ConstraintView>,
    pins: Map<Seq<char>, PinView>,
) -> bool {
    &&& forall|i: int|
        0 <= i < constraints.len() ==> pins.contains_key((#[trigger] constraints[i]).attr)
            && constraints[i].version == pins[constraints[i].attr].constraint
    &&& forall|i: int, j: int|
        0 <= i < j < constraints.len() ==> (#[trigger] constraints[i]).attr != (
        #[trigger] constraints[j]).attr
    &&& forall|attr: Seq<char>| #[trigger] pins.contains_key(attr) ==> is_named(constraints, attr)
}

/// Updating every pin plans them all anew, together and beside none. Each is then
/// at the revision that planning gives it; it stays as it was where that is the
/// one it had.
pub proof fn updating_all_puts_them_where_planning_says(
    index: IndexView,
    pins: Map<Seq<char>, PinView>,
    constraints: Seq<ConstraintView>,
    attr: Seq<char>,
)
    requires
        index.valid(),
        pins.dom().finite(),
        pins.contains_key(attr),
        crate::edit::update_failure(index, pins, None, true) is None,
        are_of_all_pins(constraints, pins),
    ensures
        ({
            let c = ConstraintView { attr, version: pins[attr].constraint };
            let new = crate::pin::planned(index, constraints, Map::empty())[attr];
            let after = crate::edit::updated(
                pins,
                crate::edit::replanned(index, pins, None, true),
            );
            &&& after.dom() == pins.dom()
            &&& after[attr].rev == new.rev
            &&& new.rev != pins[attr].rev ==> after[attr] == new && after[attr].version
                == crate::pin::lone_pin(index, c).version
            &&& new.rev == pins[attr].rev ==> after[attr] == pins[attr]
        }),
{
    let none = Map::<Seq<char>, PinView>::empty();
    let own = crate::lock::constraints_of(pins);
    let attrs = crate::text::order_exists(pins.dom());
    crate::lock::constraints_are_distinct(pins, attrs);
    assert(crate::edit::update_targets(pins, None, true)->Ok_0 == own);
    let new = crate::edit::replanned(index, pins, None, true);
    let after = crate::edit::updated(pins, new);
    crate::edit::no_failure_means_all_resolve(index, own);
    assert forall|a: Seq<char>| #[trigger] none.contains_key(a) <==> pins.contains_key(a)
        && !is_named(own, a) by {
        assert(crate::pin::asks_for(own, a) <==> pins.contains_key(a));
        assert(crate::pin::asks_for(own, a) <==> is_named(own, a));
    }
    others_are_the_others(none, pins, own);
    assert forall|c: ConstraintView| own.contains(c) <==> #[trigger] constraints.contains(c) by {
        if own.contains(c) {
            let k = choose|k: int| 0 <= k < own.len() && own[k] == c;
            assert(attrs.contains(attrs[k]));
            assert(c == crate::lock::constraint_of(pins, attrs[k]));
            assert(is_named(constraints, c.attr));
            let i = choose|i: int|
                0 <= i < constraints.len() && (#[trigger] constraints[i]).attr == c.attr;
            assert(constraints[i] == c);
        }
        if constraints.contains(c) {
            let i = choose|i: int| 0 <= i < constraints.len() && constraints[i] == c;
            assert(pins.contains_key(constraints[i].attr));
            assert(attrs.contains(c.attr));
            let k = choose|k: int| 0 <= k < attrs.len() && attrs[k] == c.attr;
            assert(own[k] == c);
        }
    }
    crate::lock_laws::same_serving_for_same_constraints(index, own, constraints, none);
    assert(after.dom() =~= pins.dom());
    assert(is_named(constraints, attr));
    let i = choose|i: int| 0 <= i < constraints.len() && (#[trigger] constraints[i]).attr == attr;
    crate::index_laws::planned_pins_follow_the_plan(index, constraints, none);
    crate::index_laws::planned_pins_follow_the_plan(index, own, none);
    assert(crate::pin::asks_for(own, attr));
    let k = choose|k: int| 0 <= k < own.len() && (#[trigger] own[k]).attr == attr;
    assert(own.contains(own[k]));
    assert(own[k] == crate::lock::constraint_of(pins, attrs[k]));
    assert(constraints[i] == own[k]);
    assert(crate::pin::serving(index, own, none) == crate::pin::serving(index, constraints, none));
    assert(new == crate::pin::planned(index, own, none));
    crate::pin::asking_finds(own, k);
    crate::pin::asking_finds(constraints, i);
    assert(new[attr] == crate::pin::planned(index, constraints, none)[attr]);
}

/// Updating one pin: where another pin of the lock has a revision that carries
/// the version it resolves to, it gets the newest such revision.
pub proof fn updates_share_every_revision_the_lock_names(
    index: IndexView,
    pins: Map<Seq<char>, PinView>,
    name: Seq<char>,
    all: bool,
    off: int,
)
    requires
        index.valid(),
        pins.contains_key(name),
        crate::edit::update_failure(index, pins, Some(name), all) is None,
        newest_to_share(
            index,
            pins,
            seq![(ConstraintView { attr: name, version: pins[name].constraint })],
            ConstraintView { attr: name, version: pins[name].constraint },
            off,
        ),
    ensures
        crate::edit::updated(
            pins,
            crate::edit::replanned(index, pins, Some(name), all),
        )[name].rev == index.commits[off].rev,
{
    let c = ConstraintView { attr: name, version: pins[name].constraint };
    let cs = seq![c];
    let rest = pins.remove(name);
    assert(cs[0] == c);
    assert forall|a: Seq<char>| #[trigger] rest.contains_key(a) <==> pins.contains_key(a)
        && !is_named(cs, a) by {
        if is_named(cs, a) {
            let k = choose|k: int| 0 <= k < cs.len() && (#[trigger] cs[k]).attr == a;
        }
        assert(cs[0].attr == name);
    }
    assert(crate::edit::update_targets(pins, Some(name), all)->Ok_0 =~= cs);
    crate::edit::no_failure_means_all_resolve(index, cs);
    planned_pins_share(index, pins, cs, rest, 0, off);
    updating_one_puts_it_where_planning_says(index, pins, name, all, name);
}

/// After an update that succeeds, every pin that it was to move has the revision
/// that planning gives it, and where that is another than before, the version
/// that its constraint resolves to alone.
pub proof fn updates_follow_the_plan(
    index: IndexView,
    pins: Map<Seq<char>, PinView>,
    name: Option<Seq<char>>,
    all: bool,
    attr: Seq<char>,
)
    requires
        pins.dom().finite(),
        crate::edit::update_failure(index, pins, name, all) is None,
        pins.contains_key(attr),
        name is Some ==> name == Some(attr),
    ensures
        ({
            let new = crate::edit::replanned(index, pins, name, all);
            let after = crate::edit::updated(pins, new);
            let c = ConstraintView { attr, version: pins[attr].constraint };
            &&& new.contains_key(attr)
            &&& after[attr].rev == new[attr].rev
            &&& after[attr].rev != pins[attr].rev ==> after[attr].version == crate::pin::lone_pin(
                index,
                c,
            ).version
            &&& after[attr].constraint == pins[attr].constraint
        }),
{
    let targets = crate::edit::update_targets(pins, name, all)->Ok_0;
    crate::lock_laws::update_targets_are_pinned(pins, name, all);
    if name is Some {
        assert(targets =~= seq![crate::lock::constraint_of(pins, attr)]);
        assert(targets[0].attr == attr);
    }
    assert(crate::pin::asks_for(targets, attr));
}

/// The moves that an update tells of are exactly the pins whose revision is now
/// another, each with where it was and where it is, in order of attribute.
pub proof fn moves_told_are_the_changes(
    index: IndexView,
    pins: Map<Seq<char>, PinView>,
    name: Option<Seq<char>>,
    all: bool,
    moved: Seq<Moved>,
)
    requires
        pins.dom().finite(),
        crate::edit::update_failure(index, pins, name, all) is None,
        crate::edit::tells_moved(moved, pins, crate::edit::replanned(index, pins, name, all)),
    ensures
        ({
            let after = crate::edit::updated(
                pins,
                crate::edit::replanned(index, pins, name, all),
            );
            &&& forall|attr: Seq<char>| #[trigger]
                pins.contains_key(attr) ==> (after[attr].rev != pins[attr].rev <==> exists|k: int|
                    0 <= k < moved.len() && (#[trigger] moved[k]).attr@ == attr)
            &&& forall|k: int|
                0 <= k < moved.len() ==> {
                    let m = #[trigger] moved[k];
                    &&& pins.contains_key(m.attr@)
                    &&& m.from_version@ == pins[m.attr@].version
                    &&& m.from_label@ == pins[m.attr@].label
                    &&& m.to_version@ == after[m.attr@].version
                    &&& m.to_label@ == after[m.attr@].label
                }
            &&& forall|j: int, k: int|
                0 <= j < k < moved.len() ==> crate::text::precedes(
                    (#[trigger] moved[j]).attr@,
                    (#[trigger] moved[k]).attr@,
                )
        }),
{
    let new = crate::edit::replanned(index, pins, name, all);
    let after = crate::edit::updated(pins, new);
    let told = moved.map_values(|m: Moved| m.attr@);
    let set = Set::new(|attr: Seq<char>| crate::edit::moves(pins, new, attr));
    crate::lock_laws::update_targets_are_pinned(pins, name, all);
    assert forall|attr: Seq<char>| #[trigger] pins.contains_key(attr) implies (after[attr].rev
        != pins[attr].rev <==> exists|k: int|
        0 <= k < moved.len() && (#[trigger] moved[k]).attr@ == attr) by {
        assert(told.contains(attr) <==> set.contains(attr));
        if told.contains(attr) {
            let k = choose|k: int| 0 <= k < told.len() && told[k] == attr;
            assert(moved[k].attr@ == attr);
        }
        if exists|k: int| 0 <= k < moved.len() && (#[trigger] moved[k]).attr@ == attr {
            let k = choose|k: int| 0 <= k < moved.len() && (#[trigger] moved[k]).attr@ == attr;
            assert(told[k] == attr);
        }
    }
    assert forall|k: int| 0 <= k < moved.len() implies {
        let m = #[trigger] moved[k];
        &&& pins.contains_key(m.attr@)
        &&& m.from_version@ == pins[m.attr@].version
        &&& m.from_label@ == pins[m.attr@].label
        &&& m.to_version@ == after[m.attr@].version
        &&& m.to_label@ == after[m.attr@].label
    } by {
        let a = moved[k].attr@;
        assert(told[k] == a);
        assert(told.contains(a));
        assert(set.contains(a));
        assert(new.contains_key(a));
        assert(crate::edit::tells_one_moved(moved[k], pins, new));
    }
    assert forall|j: int, k: int| 0 <= j < k < moved.len() implies crate::text::precedes(
        (#[trigger] moved[j]).attr@,
        (#[trigger] moved[k]).attr@,
    ) by {
        assert(crate::text::precedes(told[j], told[k]));
    }
}

/// What adding tells: every attribute that was named, once and in order, with its
/// pin, whether it was pinned before, and all others at the same revision.
pub proof fn additions_told_are_the_new_pins(
    added: Seq<Added>,
    before: Map<Seq<char>, PinView>,
    new: Map<Seq<char>, PinView>,
    after: Map<Seq<char>, PinView>,
)
    requires
        crate::edit::tells_added(added, before, new, after),
    ensures
        forall|attr: Seq<char>| #[trigger]
            new.contains_key(attr) <==> exists|k: int|
                0 <= k < added.len() && (#[trigger] added[k]).attr@ == attr,
        forall|j: int, k: int|
            0 <= j < k < added.len() ==> crate::text::precedes(
                (#[trigger] added[j]).attr@,
                (#[trigger] added[k]).attr@,
            ),
        forall|k: int|
            0 <= k < added.len() ==> {
                let a = #[trigger] added[k];
                &&& a.pin@ == after[a.attr@]
                &&& a.repinned == before.contains_key(a.attr@)
                &&& forall|other: Seq<char>| #[trigger]
                    after.contains_key(other) ==> (crate::text::texts(a.sharing@).contains(other)
                        <==> other != a.attr@ && after[other].rev == after[a.attr@].rev)
            },
{
    let told = added.map_values(|a: Added| a.attr@);
    assert forall|attr: Seq<char>| #[trigger] new.contains_key(attr) <==> exists|k: int|
        0 <= k < added.len() && (#[trigger] added[k]).attr@ == attr by {
        assert(told.contains(attr) <==> new.dom().contains(attr));
        if told.contains(attr) {
            let k = choose|k: int| 0 <= k < told.len() && told[k] == attr;
            assert(added[k].attr@ == attr);
        }
        if exists|k: int| 0 <= k < added.len() && (#[trigger] added[k]).attr@ == attr {
            let k = choose|k: int| 0 <= k < added.len() && (#[trigger] added[k]).attr@ == attr;
            assert(told[k] == attr);
        }
    }
    assert forall|j: int, k: int| 0 <= j < k < added.len() implies crate::text::precedes(
        (#[trigger] added[j]).attr@,
        (#[trigger] added[k]).attr@,
    ) by {
        assert(crate::text::precedes(told[j], told[k]));
    }
    assert forall|k: int| 0 <= k < added.len() implies {
        let a = #[trigger] added[k];
        &&& a.pin@ == after[a.attr@]
        &&& a.repinned == before.contains_key(a.attr@)
        &&& forall|other: Seq<char>| #[trigger]
            after.contains_key(other) ==> (crate::text::texts(a.sharing@).contains(other) <==> other
                != a.attr@ && after[other].rev == after[a.attr@].rev)
    } by {
        let a = added[k];
        assert(crate::edit::tells_one_added(a, before, after));
        assert forall|other: Seq<char>| #[trigger] after.contains_key(other) implies (
        crate::text::texts(a.sharing@).contains(other) <==> other != a.attr@ && after[other].rev
            == after[a.attr@].rev) by {
            assert(crate::text::texts(a.sharing@).contains(other) <==> crate::edit::sharers(
                after,
                a.attr@,
                a.pin.rev@,
            ).contains(other));
        }
    }
}

} // verus!
