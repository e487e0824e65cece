//! Changing a lock: pins are added, removed and moved.
//!
//! Every constraint resolves to its own version exactly as it would alone. The
//! set then shares serving revisions wherever those versions overlap, with each
//! other and with the pins already in the lock.

use vstd::prelude::*;

use vstd::string::StringExecFns;

use crate::constraint::{Constraint, ConstraintView};
use crate::error::{Error, Failure};
use crate::index::{Index, IndexView};
use crate::lock::Lock;
use crate::map::StringMap;
use crate::output::{Line, LineView};
use crate::pin::{plan_pins, target_for, Pin, PinView, Target};
use crate::text::{join, same};

verus! {

/// What is wrong with the first of these texts that is not a constraint, or is
/// about an attribute that an earlier one is about.
pub open spec fn wanted_failure(specs: Seq<Seq<char>>) -> Option<Failure<Seq<char>>>
    decreases specs.len(),
{
    if specs.len() == 0 {
        None
    } else {
        match wanted_failure(specs.drop_last()) {
            Some(e) => Some(e),
            None => match crate::constraint::parsed(specs.last()) {
                Ok(c) => if crate::pin::asks_for(crate::solve::meant(specs.drop_last()), c.attr) {
                    Some(Failure::GivenTwice { attr: c.attr })
                } else {
                    None
                },
                Err(e) => Some(e),
            },
        }
    }
}

proof fn wanted_failure_persists(specs: Seq<Seq<char>>, n: int)
    requires
        0 <= n <= specs.len(),
        wanted_failure(specs.take(n)) is Some,
    ensures
        wanted_failure(specs) == wanted_failure(specs.take(n)),
    decreases specs.len() - n,
{
    if n < specs.len() {
        assert(specs.take(n + 1).drop_last() =~= specs.take(n));
        wanted_failure_persists(specs, n + 1);
    } else {
        assert(specs.take(n) =~= specs);
    }
}

/// Accepted constraints are about different attributes.
pub proof fn wanted_are_distinct(specs: Seq<Seq<char>>)
    requires
        wanted_failure(specs) is None,
    ensures
        crate::pin::attrs_distinct(crate::solve::meant(specs)),
    decreases specs.len(),
{
    if specs.len() > 0 {
        let rest = specs.drop_last();
        let cs = crate::solve::meant(specs);
        wanted_are_distinct(rest);
        assert forall|i: int, j: int| 0 <= i < j < cs.len() implies (#[trigger] cs[i]).attr != (
        #[trigger] cs[j]).attr by {
            assert(cs[i] == crate::solve::meant(rest)[i]);
            if j < rest.len() {
                assert(cs[j] == crate::solve::meant(rest)[j]);
            }
        }
    }
}

/// Whether one of the constraints is about an attribute.
fn mentions(constraints: &Vec<Constraint>, attr: &str) -> (r: bool)
    ensures
        r == crate::pin::asks_for(crate::solve::constraint_views(constraints@), attr@),
{
    let ghost views = crate::solve::constraint_views(constraints@);
    let mut i: usize = 0;
    while i < constraints.len()
        invariant
            i <= constraints@.len(),
            views == crate::solve::constraint_views(constraints@),
            forall|k: int| 0 <= k < i ==> (#[trigger] views[k]).attr != attr@,
        decreases constraints@.len() - i,
    {
        assert(views[i as int] == constraints@[i as int]@);
        if same(constraints[i].attr.as_str(), attr) {
            return true;
        }
        i = i + 1;
    }
    false
}

/// Parse the constraints of one command, each about an attribute of its own.
pub fn wanted(specs: &[String]) -> (r: Result<Vec<Constraint>, Error>)
    ensures
        match r {
            Ok(constraints) => {
                &&& wanted_failure(crate::text::texts(specs@)) is None
                &&& crate::solve::constraint_views(constraints@) == crate::solve::meant(
                    crate::text::texts(specs@),
                )
                &&& crate::pin::attrs_distinct(crate::solve::constraint_views(constraints@))
            },
            Err(e) => wanted_failure(crate::text::texts(specs@)) == Some(e@),
        },
{
    let ghost all = crate::text::texts(specs@);
    let mut out: Vec<Constraint> = Vec::new();
    let mut i: usize = 0;
    while i < specs.len()
        invariant
            i <= specs@.len(),
            all == crate::text::texts(specs@),
            wanted_failure(all.take(i as int)) is None,
            crate::solve::constraint_views(out@) == crate::solve::meant(all.take(i as int)),
            crate::pin::attrs_distinct(crate::solve::constraint_views(out@)),
        decreases specs@.len() - i,
    {
        proof {
            assert(all.take(i + 1).drop_last() =~= all.take(i as int));
            assert(all.take(i + 1).last() == specs@[i as int]@);
        }
        match Constraint::parse(specs[i].as_str()) {
            Ok(c) => {
                if mentions(&out, c.attr.as_str()) {
                    proof {
                        wanted_failure_persists(all, i + 1);
                    }
                    return Err(Failure::GivenTwice { attr: c.attr });
                }
                let ghost before = crate::solve::constraint_views(out@);
                out.push(c);
                proof {
                    let now = crate::solve::constraint_views(out@);
                    assert(now =~= before.push(c@));
                    assert(crate::solve::meant(all.take(i + 1)) =~= crate::solve::meant(
                        all.take(i as int),
                    ).push(c@));
                    assert forall|a: int, b: int| 0 <= a < b < now.len() implies (
                    #[trigger] now[a]).attr != (#[trigger] now[b]).attr by {
                        if b == before.len() {
                            assert(before[a].attr != c.attr@);
                        } else {
                            assert(before[a].attr != before[b].attr);
                        }
                    }
                }
            },
            Err(e) => {
                proof {
                    wanted_failure_persists(all, i + 1);
                }
                return Err(e);
            },
        }
        i = i + 1;
    }
    assert(all.take(all.len() as int) =~= all);
    Ok(out)
}

/// Why the first of these constraints that cannot be resolved cannot.
pub open spec fn resolution_failure(
    index: IndexView,
    constraints: Seq<ConstraintView>,
) -> Option<Failure<Seq<char>>>
    decreases constraints.len(),
{
    if constraints.len() == 0 {
        None
    } else {
        match resolution_failure(index, constraints.drop_last()) {
            Some(e) => Some(e),
            None => crate::pin::resolve_failure(index, constraints.last()),
        }
    }
}

/// A failure among the first constraints is the failure of them all.
pub proof fn resolution_failure_persists(index: IndexView, constraints: Seq<ConstraintView>, n: int)
    requires
        0 <= n <= constraints.len(),
        resolution_failure(index, constraints.take(n)) is Some,
    ensures
        resolution_failure(index, constraints) == resolution_failure(index, constraints.take(n)),
    decreases constraints.len() - n,
{
    if n < constraints.len() {
        assert(constraints.take(n + 1).drop_last() =~= constraints.take(n));
        resolution_failure_persists(index, constraints, n + 1);
    } else {
        assert(constraints.take(n) =~= constraints);
    }
}

/// Where no constraint fails to resolve, all resolve.
pub proof fn no_failure_means_all_resolve(index: IndexView, constraints: Seq<ConstraintView>)
    requires
        resolution_failure(index, constraints) is None,
    ensures
        crate::pin::all_resolve(index, constraints),
    decreases constraints.len(),
{
    if constraints.len() > 0 {
        let rest = constraints.drop_last();
        no_failure_means_all_resolve(index, rest);
        assert forall|i: int| 0 <= i < constraints.len() implies crate::pin::resolve_failure(
            index,
            #[trigger] constraints[i],
        ) is None by {
            if i < rest.len() {
                assert(rest[i] == constraints[i]);
            }
        }
    }
}

/// Where all constraints resolve, none fails to.
pub proof fn all_resolve_means_no_failure(index: IndexView, constraints: Seq<ConstraintView>)
    requires
        crate::pin::all_resolve(index, constraints),
    ensures
        resolution_failure(index, constraints) is None,
    decreases constraints.len(),
{
    if constraints.len() > 0 {
        let rest = constraints.drop_last();
        assert forall|i: int| 0 <= i < rest.len() implies crate::pin::resolve_failure(
            index,
            #[trigger] rest[i],
        ) is None by {
            assert(rest[i] == constraints[i]);
        }
        all_resolve_means_no_failure(index, rest);
        assert(constraints[constraints.len() - 1] == constraints.last());
    }
}

/// Resolve every constraint to its version.
fn targets_for(index: &Index, constraints: &Vec<Constraint>) -> (r: Result<Vec<Target>, Error>)
    ensures
        index@.valid(),
        match r {
            Ok(targets) => {
                &&& resolution_failure(
                    index@,
                    crate::solve::constraint_views(constraints@),
                ) is None
                &&& crate::pin::asked_by(targets@) == crate::solve::constraint_views(constraints@)
                &&& forall|i: int|
                    0 <= i < targets@.len() ==> (#[trigger] targets@[i]).resolves(index@)
            },
            Err(e) => resolution_failure(index@, crate::solve::constraint_views(constraints@))
                == Some(e@),
        },
{
    let _ = index.covered_tip();
    let ghost all = crate::solve::constraint_views(constraints@);
    let mut out: Vec<Target> = Vec::new();
    let mut i: usize = 0;
    while i < constraints.len()
        invariant
            i <= constraints@.len(),
            index@.valid(),
            all == crate::solve::constraint_views(constraints@),
            resolution_failure(index@, all.take(i as int)) is None,
            crate::pin::asked_by(out@) == all.take(i as int),
            forall|k: int| 0 <= k < out@.len() ==> (#[trigger] out@[k]).resolves(index@),
        decreases constraints@.len() - i,
    {
        proof {
            assert(all.take(i + 1).drop_last() =~= all.take(i as int));
            assert(all.take(i + 1).last() == constraints@[i as int]@);
        }
        match target_for(index, constraints[i].copy()) {
            Ok(target) => {
                let ghost before = out@;
                out.push(target);
                proof {
                    assert(crate::pin::asked_by(out@) =~= crate::pin::asked_by(before).push(
                        target.asked(),
                    ));
                    assert(all.take(i + 1) =~= all.take(i as int).push(all[i as int]));
                }
            },
            Err(e) => {
                proof {
                    resolution_failure_persists(index@, all, i + 1);
                }
                return Err(e);
            },
        }
        i = i + 1;
    }
    assert(all.take(all.len() as int) =~= all);
    Ok(out)
}

/// The pins that no constraint is about: they hold still.
pub open spec fn others(
    pins: Map<Seq<char>, PinView>,
    constraints: Seq<ConstraintView>,
) -> Map<Seq<char>, PinView> {
    Map::new(
        |attr: Seq<char>| pins.contains_key(attr) && !crate::pin::asks_for(constraints, attr),
        |attr: Seq<char>| pins[attr],
    )
}

/// The pins that no constraint is about.
fn untouched_pins(pins: &StringMap<Pin>, constraints: &Vec<Constraint>) -> (r: StringMap<Pin>)
    ensures
        crate::pin::pin_views(r@) == others(
            crate::pin::pin_views(pins@),
            crate::solve::constraint_views(constraints@),
        ),
{
    let entries: &Vec<(String, Pin)> = pins.entries();
    let ghost cs = crate::solve::constraint_views(constraints@);
    let mut out: StringMap<Pin> = StringMap::new();
    let mut i: usize = 0;
    while i < entries.len()
        invariant
            i <= entries@.len(),
            crate::map::lists(entries@, pins@),
            cs == crate::solve::constraint_views(constraints@),
            forall|attr: Seq<char>| #[trigger]
                out@.contains_key(attr) <==> !crate::pin::asks_for(cs, attr) && crate::map::has_key(
                    entries@.take(i as int),
                    attr,
                ),
            forall|attr: Seq<char>| #[trigger]
                out@.contains_key(attr) ==> pins@.contains_key(attr) && out@[attr] == pins@[attr],
        decreases entries@.len() - i,
    {
        let key: &String = &entries[i].0;
        proof {
            assert forall|attr: Seq<char>| #[trigger]
                crate::map::has_key(entries@.take(i + 1), attr) <==> crate::map::has_key(
                    entries@.take(i as int),
                    attr,
                ) || attr == key@ by {
                crate::map::one_more_key(entries@, i as int, attr);
            }
            assert(pins@.contains_key(entries@[i as int].0@));
        }
        if !mentions(constraints, key.as_str()) {
            out.insert(key.clone(), entries[i].1.clone());
        }
        i = i + 1;
    }
    proof {
        assert(entries@.take(entries@.len() as int) =~= entries@);
        let goal = others(crate::pin::pin_views(pins@), cs);
        assert forall|attr: Seq<char>| #[trigger] out@.contains_key(attr) <==> goal.contains_key(
            attr,
        ) by {
            if pins@.contains_key(attr) {
                assert(crate::map::has_key(entries@, attr));
            }
        }
        assert(crate::pin::pin_views(out@) =~= goal);
    }
    out
}

/// A pin that was added, and who shares its revision.
#[derive(Debug)]
pub struct Added {
    pub attr: String,
    pub pin: Pin,
    /// Whether the attribute was pinned before.
    pub repinned: bool,
    /// The other attributes pinned at the same revision, in order.
    pub sharing: Vec<String>,
}

/// The other attributes pinned at a revision.
pub open spec fn sharers(
    pins: Map<Seq<char>, PinView>,
    attr: Seq<char>,
    rev: Seq<char>,
) -> Set<Seq<char>> {
    Set::new(
        |other: Seq<char>| pins.contains_key(other) && other != attr && pins[other].rev == rev,
    )
}

/// The other attributes pinned at a revision, in order.
pub fn sharing(lock: &Lock, attr: &str, rev: &str) -> (r: Vec<String>)
    ensures
        crate::text::orders(crate::text::texts(r@), sharers(lock@.pins, attr@, rev@)),
{
    let entries: &Vec<(String, Pin)> = lock.pins.entries();
    let ghost all = sharers(lock@.pins, attr@, rev@);
    let mut out: Vec<String> = Vec::new();
    let mut i: usize = 0;
    proof {
        let none = Set::new(
            |other: Seq<char>| all.contains(other) && crate::map::has_key(entries@.take(0), other),
        );
        assert(crate::text::orders(crate::text::texts(out@), none));
    }
    while i < entries.len()
        invariant
            i <= entries@.len(),
            all == sharers(lock@.pins, attr@, rev@),
            crate::map::lists(entries@, lock.pins@),
            crate::text::orders(
                crate::text::texts(out@),
                Set::new(
                    |other: Seq<char>|
                        all.contains(other) && crate::map::has_key(
                            entries@.take(i as int),
                            other,
                        ),
                ),
            ),
        decreases entries@.len() - i,
    {
        let key: &String = &entries[i].0;
        let ghost so_far = Set::new(
            |other: Seq<char>|
                all.contains(other) && crate::map::has_key(entries@.take(i as int), other),
        );
        let ghost next = Set::new(
            |other: Seq<char>|
                all.contains(other) && crate::map::has_key(entries@.take(i + 1), other),
        );
        let ghost before = crate::text::texts(out@);
        let shares: bool = !same(key.as_str(), attr) && same(entries[i].1.rev.as_str(), rev);
        proof {
            assert(lock.pins@.contains_key(entries@[i as int].0@));
            assert(lock.pins@[entries@[i as int].0@] == entries@[i as int].1);
            assert(all.contains(key@) == shares);
            assert forall|other: Seq<char>| #[trigger] so_far.contains(
                other,
            ) implies crate::text::precedes(other, key@) by {
                crate::map::earlier_key_precedes(entries@, i as int, other);
            }
            assert forall|other: Seq<char>| #[trigger] next.contains(other) <==> so_far.contains(
                other,
            ) || (shares && other == key@) by {
                crate::map::one_more_key(entries@, i as int, other);
            }
            if shares {
                crate::text::order_grows(before, so_far, key@);
                assert(next =~= so_far.insert(key@));
            } else {
                assert(next =~= so_far);
            }
        }
        if shares {
            out.push(key.clone());
            assert(crate::text::texts(out@) =~= before.push(key@));
        }
        i = i + 1;
    }
    proof {
        assert(entries@.take(entries@.len() as int) =~= entries@);
        assert(Set::new(
            |other: Seq<char>|
                all.contains(other) && crate::map::has_key(entries@.take(i as int), other),
        ) =~= all) by {
            assert forall|other: Seq<char>| all.contains(other) implies crate::map::has_key(
                entries@,
                other,
            ) by {
                assert(lock.pins@.contains_key(other));
            }
        }
    }
    out
}

/// Why an addition to a lock cannot be made.
pub open spec fn add_failure(index: IndexView, specs: Seq<Seq<char>>) -> Option<
    Failure<Seq<char>>,
> {
    match wanted_failure(specs) {
        Some(e) => Some(e),
        None => resolution_failure(index, crate::solve::meant(specs)),
    }
}

/// The new pins of an addition. A pin that is added again is decided again, so
/// only the others hold still and offer their revisions.
pub open spec fn new_pins(
    index: IndexView,
    specs: Seq<Seq<char>>,
    pins: Map<Seq<char>, PinView>,
) -> Map<Seq<char>, PinView> {
    crate::pin::planned(
        index,
        crate::solve::meant(specs),
        others(pins, crate::solve::meant(specs)),
    )
}

/// Whether these are the additions of `new` to the pins `before`, in order of
/// attribute, where `after` are the pins that come of it.
pub open spec fn tells_added(
    added: Seq<Added>,
    before: Map<Seq<char>, PinView>,
    new: Map<Seq<char>, PinView>,
    after: Map<Seq<char>, PinView>,
) -> bool {
    &&& crate::text::orders(added.map_values(|a: Added| a.attr@), new.dom())
    &&& forall|i: int| 0 <= i < added.len() ==> tells_one_added(#[trigger] added[i], before, after)
}

/// Whether an addition says what happened to its attribute.
pub open spec fn tells_one_added(
    added: Added,
    before: Map<Seq<char>, PinView>,
    after: Map<Seq<char>, PinView>,
) -> bool {
    &&& added.pin@ == after[added.attr@]
    &&& added.repinned == before.contains_key(added.attr@)
    &&& crate::text::orders(
        crate::text::texts(added.sharing@),
        sharers(after, added.attr@, added.pin.rev@),
    )
}

/// Enter pins into a lock, and say of each in turn whether it replaced one.
fn enter(pins: &mut StringMap<Pin>, new: &Vec<(String, Pin)>) -> (r: Vec<bool>)
    requires
        crate::map::ascending(new@),
    ensures
        final(pins)@ == old(pins)@.union_prefer_right(crate::map::map_of(new@)),
        r@.len() == new@.len(),
        forall|i: int|
            0 <= i < new@.len() ==> r@[i] == old(pins)@.contains_key((#[trigger] new@[i]).0@),
{
    let ghost before = pins@;
    let mut out: Vec<bool> = Vec::new();
    let mut i: usize = 0;
    while i < new.len()
        invariant
            i <= new@.len(),
            out@.len() == i,
            crate::map::ascending(new@),
            forall|k: int| 0 <= k < i ==> out@[k] == before.contains_key((#[trigger] new@[k]).0@),
            forall|key: Seq<char>| #[trigger]
                pins@.contains_key(key) <==> before.contains_key(key) || crate::map::has_key(
                    new@.take(i as int),
                    key,
                ),
            forall|key: Seq<char>| #[trigger]
                pins@.contains_key(key) ==> pins@[key] == if crate::map::has_key(
                    new@.take(i as int),
                    key,
                ) {
                    crate::map::value_of(new@, key)
                } else {
                    before[key]
                },
        decreases new@.len() - i,
    {
        proof {
            crate::map::key_is_new(new@, i as int);
            crate::map::entry_is_found(new@, i as int);
            assert forall|key: Seq<char>| #[trigger]
                crate::map::has_key(new@.take(i + 1), key) <==> crate::map::has_key(
                    new@.take(i as int),
                    key,
                ) || key == new@[i as int].0@ by {
                crate::map::one_more_key(new@, i as int, key);
            }
        }
        let replaced: Option<Pin> = pins.insert(new[i].0.clone(), new[i].1.clone());
        out.push(replaced.is_some());
        i = i + 1;
    }
    proof {
        assert(new@.take(new@.len() as int) =~= new@);
        assert(pins@ =~= before.union_prefer_right(crate::map::map_of(new@)));
    }
    out
}

/// Pin the attributes of these constraints, each `attr` or `attr@version`.
/// Where it fails, the lock stays as it is.
pub fn add(index: &Index, lock: &mut Lock, specs: &[String]) -> (r: Result<Vec<Added>, Error>)
    ensures
        match r {
            Ok(added) => {
                let texts = crate::text::texts(specs@);
                let new = new_pins(index@, texts, old(lock)@.pins);
                &&& add_failure(index@, texts) is None
                &&& final(lock)@.version == old(lock)@.version
                &&& final(lock)@.pins == old(lock)@.pins.union_prefer_right(new)
                &&& tells_added(added@, old(lock)@.pins, new, final(lock)@.pins)
            },
            Err(e) => {
                &&& add_failure(index@, crate::text::texts(specs@)) == Some(e@)
                &&& *final(lock) == *old(lock)
            },
        },
{
    let constraints: Vec<Constraint> = match wanted(specs) {
        Ok(constraints) => constraints,
        Err(e) => {
            return Err(e);
        },
    };
    let targets: Vec<Target> = match targets_for(index, &constraints) {
        Ok(targets) => targets,
        Err(e) => {
            return Err(e);
        },
    };
    let untouched: StringMap<Pin> = untouched_pins(&lock.pins, &constraints);
    let new: StringMap<Pin> = plan_pins(index, &targets, &untouched);
    let ghost before = lock.pins@;
    let entries: &Vec<(String, Pin)> = new.entries();
    let repinned: Vec<bool> = enter(&mut lock.pins, entries);
    let ghost after = lock@.pins;
    let ghost held = crate::pin::pin_views(before);
    proof {
        crate::map::listing_stands_for_map(entries@, new@);
        assert(after =~= held.union_prefer_right(crate::pin::pin_views(new@)));
    }
    let mut added: Vec<Added> = Vec::new();
    let mut i: usize = 0;
    while i < entries.len()
        invariant
            i <= entries@.len(),
            added@.len() == i,
            repinned@.len() == entries@.len(),
            crate::map::lists(entries@, new@),
            after == lock@.pins,
            after == held.union_prefer_right(crate::pin::pin_views(new@)),
            held == crate::pin::pin_views(before),
            forall|k: int|
                0 <= k < entries@.len() ==> repinned@[k] == before.contains_key((#[trigger] entries@[k]).0@),
            forall|k: int|
                0 <= k < i ==> (#[trigger] added@[k]).attr@ == entries@[k].0@ && tells_one_added(
                    added@[k],
                    held,
                    after,
                ),
        decreases entries@.len() - i,
    {
        assert(new@.contains_key(entries@[i as int].0@));
        assert(new@[entries@[i as int].0@] == entries@[i as int].1);
        let attr: String = entries[i].0.clone();
        let pin: Pin = entries[i].1.clone();
        let others: Vec<String> = sharing(lock, attr.as_str(), pin.rev.as_str());
        added.push(Added { attr, pin, repinned: repinned[i], sharing: others });
        i = i + 1;
    }
    proof {
        crate::map::listed_keys(entries@, new@);
        assert(added@.map_values(|a: Added| a.attr@) =~= crate::map::keys(entries@));
        assert(crate::pin::pin_views(new@).dom() =~= new@.dom());
    }
    Ok(added)
}

/// Unpin an attribute, and hand back the pin that it had.
pub fn remove(lock: &mut Lock, attr: &str) -> (r: Result<Pin, Error>)
    ensures
        final(lock)@.version == old(lock)@.version,
        match r {
            Ok(pin) => {
                &&& old(lock)@.pins.contains_key(attr@)
                &&& pin@ == old(lock)@.pins[attr@]
                &&& final(lock)@.pins == old(lock)@.pins.remove(attr@)
            },
            Err(e) => {
                &&& !old(lock)@.pins.contains_key(attr@)
                &&& e@ == (Failure::<Seq<char>>::NotPinned { attr: attr@ })
                &&& final(lock)@.pins == old(lock)@.pins
            },
        },
{
    let ghost before = lock.pins@;
    match lock.pins.remove(attr) {
        Some(pin) => {
            assert(lock@.pins =~= crate::pin::pin_views(before).remove(attr@));
            Ok(pin)
        },
        None => {
            assert(lock@.pins =~= crate::pin::pin_views(before));
            Err(Failure::NotPinned { attr: attr.to_owned() })
        },
    }
}

/// What an update is to move: one pin, or every pin.
pub open spec fn update_targets(
    pins: Map<Seq<char>, PinView>,
    attr: Option<Seq<char>>,
    all: bool,
) -> Result<Seq<ConstraintView>, Failure<Seq<char>>> {
    if forall|a: Seq<char>| !#[trigger] pins.contains_key(a) {
        Err(Failure::NoPins)
    } else {
        match attr {
            Some(a) => if pins.contains_key(a) {
                Ok(seq![crate::lock::constraint_of(pins, a)])
            } else {
                Err(Failure::NotPinned { attr: a })
            },
            None => if all {
                Ok(crate::lock::constraints_of(pins))
            } else {
                Err(Failure::NothingNamed)
            },
        }
    }
}

/// Why an update cannot be made.
pub open spec fn update_failure(
    index: IndexView,
    pins: Map<Seq<char>, PinView>,
    attr: Option<Seq<char>>,
    all: bool,
) -> Option<Failure<Seq<char>>> {
    match update_targets(pins, attr, all) {
        Ok(targets) => resolution_failure(index, targets),
        Err(e) => Some(e),
    }
}

/// Where an update would have the pins that it is to move.
pub open spec fn replanned(
    index: IndexView,
    pins: Map<Seq<char>, PinView>,
    attr: Option<Seq<char>>,
    all: bool,
) -> Map<Seq<char>, PinView> {
    let targets = update_targets(pins, attr, all)->Ok_0;
    crate::pin::planned(index, targets, others(pins, targets))
}

/// Whether an attribute has another revision in `new` than in `pins`.
pub open spec fn moves(
    pins: Map<Seq<char>, PinView>,
    new: Map<Seq<char>, PinView>,
    attr: Seq<char>,
) -> bool {
    new.contains_key(attr) && new[attr].rev != pins[attr].rev
}

/// The pins after an update: those that move are replaced, and every other one
/// is as it was.
pub open spec fn updated(
    pins: Map<Seq<char>, PinView>,
    new: Map<Seq<char>, PinView>,
) -> Map<Seq<char>, PinView> {
    Map::new(
        |attr: Seq<char>| pins.contains_key(attr),
        |attr: Seq<char>|
            if moves(pins, new, attr) {
                new[attr]
            } else {
                pins[attr]
            },
    )
}

/// A pin that moved.
#[derive(Debug)]
pub struct Moved {
    pub attr: String,
    pub from_version: String,
    pub from_label: String,
    pub to_version: String,
    pub to_label: String,
}

/// Whether a move says where the pin of its attribute was, and where it is.
pub open spec fn tells_one_moved(
    moved: Moved,
    pins: Map<Seq<char>, PinView>,
    new: Map<Seq<char>, PinView>,
) -> bool {
    &&& moved.from_version@ == pins[moved.attr@].version
    &&& moved.from_label@ == pins[moved.attr@].label
    &&& moved.to_version@ == new[moved.attr@].version
    &&& moved.to_label@ == new[moved.attr@].label
}

/// Whether these are all the moves from `pins` to `new`, in order of attribute.
pub open spec fn tells_moved(
    moved: Seq<Moved>,
    pins: Map<Seq<char>, PinView>,
    new: Map<Seq<char>, PinView>,
) -> bool {
    &&& crate::text::orders(
        moved.map_values(|m: Moved| m.attr@),
        Set::new(|attr: Seq<char>| moves(pins, new, attr)),
    )
    &&& forall|i: int| 0 <= i < moved.len() ==> tells_one_moved(#[trigger] moved[i], pins, new)
}

/// What an update is to move: one pin, or every pin.
fn named(lock: &Lock, attr: Option<&str>, all: bool) -> (r: Result<Vec<Constraint>, Error>)
    ensures
        match r {
            Ok(constraints) => {
                &&& update_targets(lock@.pins, named_text(attr), all) == Ok::<
                    Seq<ConstraintView>,
                    Failure<Seq<char>>,
                >(crate::solve::constraint_views(constraints@))
                &&& crate::pin::attrs_distinct(crate::solve::constraint_views(constraints@))
                &&& forall|a: Seq<char>| #[trigger]
                    crate::pin::asks_for(crate::solve::constraint_views(constraints@), a)
                        ==> lock@.pins.contains_key(a)
            },
            Err(e) => update_targets(lock@.pins, named_text(attr), all) == Err::<
                Seq<ConstraintView>,
                Failure<Seq<char>>,
            >(e@),
        },
{
    let ghost pins = lock@.pins;
    if lock.pins.len() == 0 {
        assert(lock.pins@.dom() =~= Set::empty());
        assert forall|a: Seq<char>| !#[trigger] pins.contains_key(a) by {
            assert(!lock.pins@.dom().contains(a));
        }
        return Err(Failure::NoPins);
    }
    proof {
        let a = lock.pins@.dom().choose();
        assert(lock.pins@.dom().contains(a));
        assert(pins.contains_key(a));
    }
    match attr {
        Some(a) => match lock.pins.get(a) {
            Some(pin) => {
                let mut out: Vec<Constraint> = Vec::new();
                out.push(pin.asks(a));
                assert(crate::solve::constraint_views(out@) =~= seq![
                    crate::lock::constraint_of(pins, a@),
                ]);
                Ok(out)
            },
            None => Err(Failure::NotPinned { attr: a.to_owned() }),
        },
        None => if all {
            let out: Vec<Constraint> = lock.constraints();
            Ok(out)
        } else {
            Err(Failure::NothingNamed)
        },
    }
}

/// What a name holds, where one is given.
pub open spec fn named_text(attr: Option<&str>) -> Option<Seq<char>> {
    match attr {
        Some(a) => Some(a@),
        None => None,
    }
}

/// Move one pin, or every pin. The pins that are named are planned anew
/// together: each resolves to the newest version that its constraint allows,
/// and shares a revision with the others and with the pins that hold still
/// where it can. Where it fails, the lock stays as it is.
pub fn update(index: &Index, lock: &mut Lock, attr: Option<&str>, all: bool) -> (r: Result<
    Vec<Moved>,
    Error,
>)
    ensures
        match r {
            Ok(moved) => {
                let new = replanned(index@, old(lock)@.pins, named_text(attr), all);
                &&& update_failure(index@, old(lock)@.pins, named_text(attr), all) is None
                &&& final(lock)@.version == old(lock)@.version
                &&& final(lock)@.pins == updated(old(lock)@.pins, new)
                &&& tells_moved(moved@, old(lock)@.pins, new)
            },
            Err(e) => {
                &&& update_failure(index@, old(lock)@.pins, named_text(attr), all) == Some(e@)
                &&& *final(lock) == *old(lock)
            },
        },
{
    let constraints: Vec<Constraint> = match named(lock, attr, all) {
        Ok(constraints) => constraints,
        Err(e) => {
            return Err(e);
        },
    };
    let targets: Vec<Target> = match targets_for(index, &constraints) {
        Ok(targets) => targets,
        Err(e) => {
            return Err(e);
        },
    };
    let untouched: StringMap<Pin> = untouched_pins(&lock.pins, &constraints);
    let planned: StringMap<Pin> = plan_pins(index, &targets, &untouched);
    let ghost before = lock@.pins;
    let ghost version = lock.version;
    let ghost new = crate::pin::pin_views(planned@);
    let entries: &Vec<(String, Pin)> = planned.entries();
    let mut moved: Vec<Moved> = Vec::new();
    let mut i: usize = 0;
    proof {
        assert(new == replanned(index@, before, named_text(attr), all));
        assert(crate::text::orders(
            moved@.map_values(|m: Moved| m.attr@),
            moves_among(before, new, entries@.take(0)),
        ));
    }
    while i < entries.len()
        invariant
            i <= entries@.len(),
            lock.version == version,
            new == crate::pin::pin_views(planned@),
            crate::map::lists(entries@, planned@),
            forall|a: Seq<char>| #[trigger] new.contains_key(a) ==> before.contains_key(a),
            lock@.pins.dom() == before.dom(),
            forall|a: Seq<char>| #[trigger]
                before.contains_key(a) ==> lock@.pins[a] == if moves_among(
                    before,
                    new,
                    entries@.take(i as int),
                ).contains(a) {
                    new[a]
                } else {
                    before[a]
                },
            crate::text::orders(
                moved@.map_values(|m: Moved| m.attr@),
                moves_among(before, new, entries@.take(i as int)),
            ),
            forall|k: int|
                0 <= k < moved@.len() ==> tells_one_moved(#[trigger] moved@[k], before, new),
        decreases entries@.len() - i,
    {
        let attr: &String = &entries[i].0;
        let pin: &Pin = &entries[i].1;
        let ghost so_far = moves_among(before, new, entries@.take(i as int));
        let ghost next = moves_among(before, new, entries@.take(i + 1));
        let ghost told = moved@.map_values(|m: Moved| m.attr@);
        proof {
            assert(planned@.contains_key(entries@[i as int].0@));
            assert(planned@[entries@[i as int].0@] == entries@[i as int].1);
            assert(new.contains_key(attr@));
            assert(lock@.pins.dom().contains(attr@));
            assert(lock.pins@.contains_key(attr@));
            crate::map::key_is_new(entries@, i as int);
            assert forall|a: Seq<char>| #[trigger] so_far.contains(a) implies crate::text::precedes(
                a,
                attr@,
            ) by {
                crate::map::earlier_key_precedes(entries@, i as int, a);
            }
            assert forall|a: Seq<char>| #[trigger] next.contains(a) <==> so_far.contains(a) || (
            moves(before, new, attr@) && a == attr@) by {
                crate::map::one_more_key(entries@, i as int, a);
            }
            assert(!so_far.contains(attr@));
        }
        let mut step: Option<Moved> = None;
        if let Some(held) = lock.pins.get(attr.as_str()) {
            assert(held@ == before[attr@]);
            if !same(pin.rev.as_str(), held.rev.as_str()) {
                step =
                Some(
                    Moved {
                        attr: attr.clone(),
                        from_version: held.version.clone(),
                        from_label: held.label.clone(),
                        to_version: pin.version.clone(),
                        to_label: pin.label.clone(),
                    },
                );
            }
        }
        match step {
            Some(m) => {
                proof {
                    assert(moves(before, new, attr@));
                    crate::text::order_grows(told, so_far, attr@);
                    assert(next =~= so_far.insert(attr@));
                }
                let ghost old_pins = lock.pins@;
                lock.pins.insert(attr.clone(), pin.clone());
                moved.push(m);
                proof {
                    assert(moved@.map_values(|m: Moved| m.attr@) =~= told.push(attr@));
                    assert(lock@.pins =~= crate::pin::pin_views(old_pins).insert(
                        attr@,
                        new[attr@],
                    ));
                    assert(lock@.pins.dom() =~= before.dom());
                }
            },
            None => {
                proof {
                    assert(!moves(before, new, attr@));
                    assert(next =~= so_far);
                }
            },
        }
        i = i + 1;
    }
    proof {
        assert(entries@.take(entries@.len() as int) =~= entries@);
        assert(moves_among(before, new, entries@) =~= Set::new(
            |a: Seq<char>| moves(before, new, a),
        )) by {
            assert forall|a: Seq<char>| new.contains_key(a) implies crate::map::has_key(
                entries@,
                a,
            ) by {
                assert(planned@.contains_key(a));
            }
        }
        assert(lock@.pins =~= updated(before, new));
    }
    Ok(moved)
}

/// The attributes among these entries that move.
spec fn moves_among(
    pins: Map<Seq<char>, PinView>,
    new: Map<Seq<char>, PinView>,
    entries: Seq<(String, Pin)>,
) -> Set<Seq<char>> {
    Set::new(|attr: Seq<char>| moves(pins, new, attr) && crate::map::has_key(entries, attr))
}

/// The line about a pin that was added: whether it was pinned before, its
/// version and revision, and who shares that revision.
pub open spec fn added_line(added: Added) -> LineView {
    let names = crate::text::texts(added.sharing@);
    LineView {
        before: (if added.repinned {
            "repinned "@
        } else {
            "pinned "@
        }) + added.attr@ + " "@,
        marked: added.pin.version@,
        after: " at "@ + added.pin.label@ + if names.len() == 0 {
            Seq::empty()
        } else {
            " (with "@ + crate::text::separated(names, ", "@) + ")"@
        },
    }
}

/// The line about a pin that moved. Where the version held and only the serving
/// revision moved, it says where it went from and to, or it would read as if
/// nothing had happened.
pub open spec fn moved_line(moved: Moved) -> LineView {
    if moved.from_version@ == moved.to_version@ {
        LineView {
            before: moved.attr@ + ": "@,
            marked: moved.to_version@,
            after: " · "@ + moved.from_label@ + " → "@ + moved.to_label@,
        }
    } else {
        LineView {
            before: moved.attr@ + ": "@ + moved.from_version@ + " → "@,
            marked: moved.to_version@,
            after: "  ("@ + moved.to_label@ + ")"@,
        }
    }
}

impl Added {
    /// The line about this addition.
    pub fn line(&self) -> (r: Line)
        ensures
            r@ == added_line(*self),
    {
        let mut before: String = (if self.repinned {
            "repinned "
        } else {
            "pinned "
        }).to_owned();
        before.append(self.attr.as_str());
        before.append(" ");
        let mut after: String = " at ".to_owned();
        after.append(self.pin.label.as_str());
        if self.sharing.len() == 0 {
            assert(after@ + Seq::<char>::empty() =~= after@);
        } else {
            let ghost so_far = after@;
            after.append(" (with ");
            after.append(join(&self.sharing, ", ").as_str());
            after.append(")");
            assert(after@ =~= so_far + (" (with "@ + crate::text::separated(
                crate::text::texts(self.sharing@),
                ", "@,
            ) + ")"@));
        }
        Line { before, marked: self.pin.version.clone(), after }
    }
}

impl Moved {
    /// The line about this move.
    pub fn line(&self) -> (r: Line)
        ensures
            r@ == moved_line(*self),
    {
        let mut before: String = self.attr.clone();
        before.append(": ");
        if same(self.from_version.as_str(), self.to_version.as_str()) {
            let mut after: String = " · ".to_owned();
            after.append(self.from_label.as_str());
            after.append(" → ");
            after.append(self.to_label.as_str());
            Line { before, marked: self.to_version.clone(), after }
        } else {
            before.append(self.from_version.as_str());
            before.append(" → ");
            let mut after: String = "  (".to_owned();
            after.append(self.to_label.as_str());
            after.append(")");
            Line { before, marked: self.to_version.clone(), after }
        }
    }
}

/// Say of a pin that was removed where it was.
pub fn unpinned(attr: &str, pin: &Pin) -> (r: String)
    ensures
        r@ == "unpinned "@ + attr@ + " (was "@ + pin.version@ + " at "@ + pin.label@ + ")"@,
{
    let mut out: String = "unpinned ".to_owned();
    out.append(attr);
    out.append(" (was ");
    out.append(pin.version.as_str());
    out.append(" at ");
    out.append(pin.label.as_str());
    out.append(")");
    out
}

} // verus!
