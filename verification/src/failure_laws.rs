//! When something is refused, and for what: always for the first thing that is
//! wrong.

use vstd::prelude::*;

use crate::constraint::ConstraintView;
use crate::error::Failure;
use crate::index::IndexView;
use crate::pin::{Pin, PinView};

verus! {

/// Whether the text at a place is a constraint about an attribute that an earlier
/// one is about.
pub open spec fn is_given_again(specs: Seq<Seq<char>>, i: int, attr: Seq<char>) -> bool {
    exists|j: int, c: ConstraintView, d: ConstraintView|
        0 <= j < i && #[trigger] reads(specs, j, c) && #[trigger] reads(specs, i, d) && c.attr
            == attr && d.attr == attr
}

/// Whether the text at a place is this constraint.
pub open spec fn reads(specs: Seq<Seq<char>>, i: int, c: ConstraintView) -> bool {
    0 <= i < specs.len() && crate::constraint::parsed(specs[i]) == Ok::<
        ConstraintView,
        Failure<Seq<char>>,
    >(c)
}

/// Whether the text at a place is refused when a solve reads it.
pub open spec fn is_no_constraint(
    specs: Seq<Seq<char>>,
    i: int,
    e: Failure<Seq<char>>,
) -> bool {
    0 <= i < specs.len() && crate::constraint::parsed(specs[i]) == Err::<
        ConstraintView,
        Failure<Seq<char>>,
    >(e)
}

/// Whether the text at a place is refused when it is to be added: it is no
/// constraint, or about an attribute that was given before.
pub open spec fn is_refused(specs: Seq<Seq<char>>, i: int, e: Failure<Seq<char>>) -> bool {
    ||| is_no_constraint(specs, i, e)
    ||| e matches Failure::GivenTwice { attr } && is_given_again(specs, i, attr)
}

/// A solve fails to read its texts for the first of them that is no constraint.
pub proof fn solving_refuses_the_first_text_that_is_no_constraint(specs: Seq<Seq<char>>)
    ensures
        crate::solve::parse_failure(specs) is None <==> forall|i: int, e: Failure<Seq<char>>|
            !#[trigger] is_no_constraint(specs, i, e),
        forall|e: Failure<Seq<char>>|
            crate::solve::parse_failure(specs) == Some(e) ==> exists|i: int|
                #[trigger] is_no_constraint(specs, i, e) && forall|j: int, f: Failure<Seq<char>>|
                    j < i ==> !#[trigger] is_no_constraint(specs, j, f),
    decreases specs.len(),
{
    if specs.len() > 0 {
        let rest = specs.drop_last();
        let n = specs.len() - 1;
        solving_refuses_the_first_text_that_is_no_constraint(rest);
        assert forall|i: int, e: Failure<Seq<char>>| i != n implies (#[trigger] is_no_constraint(
            specs,
            i,
            e,
        ) <==> is_no_constraint(rest, i, e)) by {
            if 0 <= i < n {
                assert(specs[i] == rest[i]);
            }
        }
        match crate::solve::parse_failure(rest) {
            Some(e) => {
                let i = choose|i: int|
                    #[trigger] is_no_constraint(rest, i, e) && forall|j: int, f: Failure<Seq<char>>|
                        j < i ==> !#[trigger] is_no_constraint(rest, j, f);
                assert(is_no_constraint(specs, i, e));
            },
            None => {
                match crate::constraint::parsed(specs.last()) {
                    Ok(_) => {},
                    Err(e) => {
                        assert(is_no_constraint(specs, n, e));
                    },
                }
            },
        }
    }
}

/// Adding refuses its texts for the first of them that is no constraint, or that
/// is about an attribute given before.
pub proof fn adding_refuses_the_first_text_that_is_wrong(specs: Seq<Seq<char>>)
    ensures
        crate::edit::wanted_failure(specs) is None <==> forall|i: int, e: Failure<Seq<char>>|
            !#[trigger] is_refused(specs, i, e),
        forall|e: Failure<Seq<char>>|
            crate::edit::wanted_failure(specs) == Some(e) ==> exists|i: int|
                #[trigger] is_refused(specs, i, e) && forall|j: int, f: Failure<Seq<char>>|
                    j < i ==> !#[trigger] is_refused(specs, j, f),
    decreases specs.len(),
{
    if specs.len() > 0 {
        let rest = specs.drop_last();
        let n = specs.len() - 1;
        adding_refuses_the_first_text_that_is_wrong(rest);
        assert forall|i: int, c: ConstraintView| i != n implies (#[trigger] reads(specs, i, c)
            <==> reads(rest, i, c)) by {
            if 0 <= i < n {
                assert(specs[i] == rest[i]);
            }
        }
        assert forall|i: int, e: Failure<Seq<char>>| i != n implies (#[trigger] is_refused(
            specs,
            i,
            e,
        ) <==> is_refused(rest, i, e)) by {
            refused_alike(specs, rest, i, e);
        }
        match crate::edit::wanted_failure(rest) {
            Some(e) => {
                let i = choose|i: int|
                    #[trigger] is_refused(rest, i, e) && forall|j: int, f: Failure<Seq<char>>|
                        j < i ==> !#[trigger] is_refused(rest, j, f);
                assert(i != n);
                assert(is_refused(specs, i, e));
            },
            None => {
                let cs = crate::solve::meant(rest);
                assert forall|j: int| 0 <= j < n implies #[trigger] reads(specs, j, cs[j]) by {
                    assert(specs[j] == rest[j]);
                    match crate::constraint::parsed(rest[j]) {
                        Ok(_) => {},
                        Err(f) => {
                            assert(is_refused(rest, j, f));
                        },
                    }
                }
                match crate::constraint::parsed(specs.last()) {
                    Ok(c) => {
                        assert(reads(specs, n, c));
                        if crate::pin::asks_for(cs, c.attr) {
                            let j = choose|j: int|
                                0 <= j < cs.len() && (#[trigger] cs[j]).attr == c.attr;
                            assert(reads(specs, j, cs[j]));
                            assert(is_given_again(specs, n, c.attr));
                            assert(is_refused(
                                specs,
                                n,
                                Failure::GivenTwice { attr: c.attr },
                            ));
                        } else {
                            assert forall|e: Failure<Seq<char>>| !#[trigger] is_refused(
                                specs,
                                n,
                                e,
                            ) by {
                                if let Failure::GivenTwice { attr } = e {
                                    if is_given_again(specs, n, attr) {
                                        let (j, x, d) = choose|
                                            j: int,
                                            x: ConstraintView,
                                            d: ConstraintView,
                                        |
                                            0 <= j < n && #[trigger] reads(specs, j, x)
                                                && #[trigger] reads(specs, n, d) && x.attr == attr
                                                && d.attr == attr;
                                        assert(reads(specs, j, cs[j]));
                                        assert(cs[j].attr == c.attr);
                                    }
                                }
                            }
                        }
                    },
                    Err(e) => {
                        assert(is_refused(specs, n, e));
                    },
                }
            },
        }
    } else {
        assert forall|i: int, e: Failure<Seq<char>>| !#[trigger] is_refused(specs, i, e) by {}
    }
}

proof fn refused_alike(
    specs: Seq<Seq<char>>,
    rest: Seq<Seq<char>>,
    i: int,
    e: Failure<Seq<char>>,
)
    requires
        specs.len() > 0,
        rest == specs.drop_last(),
        i != specs.len() - 1,
    ensures
        is_refused(specs, i, e) <==> is_refused(rest, i, e),
{
    assert forall|j: int, c: ConstraintView| j != specs.len() - 1 implies (#[trigger] reads(
        specs,
        j,
        c,
    ) <==> reads(rest, j, c)) by {
        if 0 <= j < specs.len() - 1 {
            assert(specs[j] == rest[j]);
        }
    }
    if 0 <= i < rest.len() {
        assert(specs[i] == rest[i]);
    }
    if let Failure::GivenTwice { attr } = e {
        if is_given_again(specs, i, attr) {
            let (j, c, d) = choose|j: int, c: ConstraintView, d: ConstraintView|
                0 <= j < i && #[trigger] reads(specs, j, c) && #[trigger] reads(specs, i, d)
                    && c.attr == attr && d.attr == attr;
            assert(reads(rest, j, c) && reads(rest, i, d));
        }
        if is_given_again(rest, i, attr) {
            let (j, c, d) = choose|j: int, c: ConstraintView, d: ConstraintView|
                0 <= j < i && #[trigger] reads(rest, j, c) && #[trigger] reads(rest, i, d)
                    && c.attr == attr && d.attr == attr;
            assert(reads(specs, j, c) && reads(specs, i, d));
        }
    }
}

/// Whether the constraint at a place cannot be resolved, for a reason.
pub open spec fn is_unresolved(
    index: IndexView,
    constraints: Seq<ConstraintView>,
    i: int,
    e: Failure<Seq<char>>,
) -> bool {
    0 <= i < constraints.len() && crate::pin::resolve_failure(index, constraints[i]) == Some(e)
}

/// Constraints fail to resolve for the first of them that does.
pub proof fn resolving_fails_for_the_first(index: IndexView, constraints: Seq<ConstraintView>)
    ensures
        crate::edit::resolution_failure(index, constraints) is None <==> forall|
            i: int,
            e: Failure<Seq<char>>,
        |
            !#[trigger] is_unresolved(index, constraints, i, e),
        forall|e: Failure<Seq<char>>|
            crate::edit::resolution_failure(index, constraints) == Some(e) ==> exists|i: int|
                #[trigger] is_unresolved(index, constraints, i, e) && forall|
                    j: int,
                    f: Failure<Seq<char>>,
                |
                    j < i ==> !#[trigger] is_unresolved(index, constraints, j, f),
    decreases constraints.len(),
{
    if constraints.len() > 0 {
        let rest = constraints.drop_last();
        let n = constraints.len() - 1;
        resolving_fails_for_the_first(index, rest);
        assert forall|i: int, e: Failure<Seq<char>>| i != n implies (#[trigger] is_unresolved(
            index,
            constraints,
            i,
            e,
        ) <==> is_unresolved(index, rest, i, e)) by {
            if 0 <= i < n {
                assert(constraints[i] == rest[i]);
            }
        }
        match crate::edit::resolution_failure(index, rest) {
            Some(e) => {
                let i = choose|i: int|
                    #[trigger] is_unresolved(index, rest, i, e) && forall|
                        j: int,
                        f: Failure<Seq<char>>,
                    |
                        j < i ==> !#[trigger] is_unresolved(index, rest, j, f);
                assert(is_unresolved(index, constraints, i, e));
            },
            None => {
                match crate::pin::resolve_failure(index, constraints.last()) {
                    Some(e) => {
                        assert(is_unresolved(index, constraints, n, e));
                    },
                    None => {},
                }
            },
        }
    }
}

/// Whether the attribute of the constraint at a place has no run.
pub open spec fn is_unknown(
    index: IndexView,
    constraints: Seq<ConstraintView>,
    i: int,
    attr: Seq<char>,
) -> bool {
    0 <= i < constraints.len() && constraints[i].attr == attr && crate::index_laws::runs(
        index,
        attr,
    ).len() == 0
}

/// A solve fails on the index for the first attribute that has no run, and for
/// nothing else.
pub proof fn solving_fails_for_the_first_unknown_attribute(
    index: IndexView,
    constraints: Seq<ConstraintView>,
)
    ensures
        crate::solve::index_failure(index, constraints) is None <==> forall|i: int, attr: Seq<char>|
            !#[trigger] is_unknown(index, constraints, i, attr),
        crate::solve::index_failure(index, constraints) matches Some(e) ==> exists|
            i: int,
            attr: Seq<char>,
        |
            #[trigger] is_unknown(index, constraints, i, attr) && e == (Failure::<
                Seq<char>,
            >::NotIndexed { attr }) && forall|j: int, other: Seq<char>|
                j < i ==> !#[trigger] is_unknown(index, constraints, j, other),
    decreases constraints.len(),
{
    if constraints.len() > 0 {
        let rest = constraints.drop_last();
        let n = constraints.len() - 1;
        solving_fails_for_the_first_unknown_attribute(index, rest);
        assert forall|i: int, attr: Seq<char>| i != n implies (#[trigger] is_unknown(
            index,
            constraints,
            i,
            attr,
        ) <==> is_unknown(index, rest, i, attr)) by {
            if 0 <= i < n {
                assert(constraints[i] == rest[i]);
            }
        }
        let attr = constraints.last().attr;
        assert(crate::index_laws::runs(index, attr) == index.runs_of(attr));
        match crate::solve::index_failure(index, rest) {
            Some(e) => {
                let (i, a) = choose|i: int, a: Seq<char>|
                    #[trigger] is_unknown(index, rest, i, a) && e == (Failure::<
                        Seq<char>,
                    >::NotIndexed { attr: a }) && forall|j: int, other: Seq<char>|
                        j < i ==> !#[trigger] is_unknown(index, rest, j, other);
                assert(is_unknown(index, constraints, i, a));
            },
            None => {
                if index.runs_of(attr).len() == 0 {
                    assert(is_unknown(index, constraints, n, attr));
                }
            },
        }
    }
}

/// A solve is answered unless a text is no constraint, there is none, or an
/// attribute is unknown, in this order.
pub proof fn solving_fails_in_order(index: IndexView, specs: Seq<Seq<char>>)
    ensures
        crate::solve::solve_failure(index, specs) == if crate::solve::parse_failure(
            specs,
        ) is Some {
            crate::solve::parse_failure(specs)
        } else if specs.len() == 0 {
            Some(Failure::NoConstraints)
        } else {
            crate::solve::index_failure(index, crate::solve::meant(specs))
        },
        crate::edit::add_failure(index, specs) == if crate::edit::wanted_failure(specs) is Some {
            crate::edit::wanted_failure(specs)
        } else {
            crate::edit::resolution_failure(index, crate::solve::meant(specs))
        },
{
}

/// An update is refused where there are no pins, where the one that is named is
/// not pinned, or where none is named. Otherwise it fails only where a pin that
/// it is to move cannot be resolved.
pub proof fn updating_is_refused_for_what_it_names(
    index: IndexView,
    pins: Map<Seq<char>, PinView>,
    name: Option<Seq<char>>,
    all: bool,
)
    requires
        pins.dom().finite(),
    ensures
        pins.dom() == Set::<Seq<char>>::empty() ==> crate::edit::update_failure(
            index,
            pins,
            name,
            all,
        ) == Some(Failure::<Seq<char>>::NoPins),
        pins.dom() != Set::<Seq<char>>::empty() ==> match name {
            Some(a) => crate::edit::update_failure(index, pins, name, all) == if pins.contains_key(
                a,
            ) {
                crate::pin::resolve_failure(
                    index,
                    ConstraintView { attr: a, version: pins[a].constraint },
                )
            } else {
                Some(Failure::NotPinned { attr: a })
            },
            None => {
                &&& !all ==> crate::edit::update_failure(index, pins, name, all) == Some(
                    Failure::<Seq<char>>::NothingNamed,
                )
                &&& all ==> (crate::edit::update_failure(index, pins, name, all) is None
                    <==> forall|attr: Seq<char>| #[trigger]
                    pins.contains_key(attr) ==> crate::pin::resolve_failure(
                        index,
                        ConstraintView { attr, version: pins[attr].constraint },
                    ) is None)
            },
        },
{
    if pins.dom() == Set::<Seq<char>>::empty() {
        assert forall|a: Seq<char>| !#[trigger] pins.contains_key(a) by {
            assert(!pins.dom().contains(a));
        }
    } else {
        assert(exists|a: Seq<char>| #[trigger] pins.contains_key(a)) by {
            if forall|a: Seq<char>| !#[trigger] pins.contains_key(a) {
                assert(pins.dom() =~= Set::<Seq<char>>::empty()) by {
                    assert forall|a: Seq<char>| !pins.dom().contains(a) by {
                        assert(!pins.contains_key(a));
                    }
                }
            }
        }
        match name {
            Some(a) => {
                if pins.contains_key(a) {
                    let c = ConstraintView { attr: a, version: pins[a].constraint };
                    let cs = seq![c];
                    assert(crate::edit::update_targets(pins, name, all)->Ok_0 =~= cs);
                    assert(cs.drop_last() =~= Seq::empty());
                    assert(crate::edit::resolution_failure(index, cs.drop_last()) is None);
                    assert(cs.last() == c);
                }
            },
            None => {
                if all {
                    let cs = crate::lock::constraints_of(pins);
                    let attrs = crate::text::order_exists(pins.dom());
                    crate::lock::constraints_are_distinct(pins, attrs);
                    resolving_fails_for_the_first(index, cs);
                    if crate::edit::resolution_failure(index, cs) is None {
                        assert forall|attr: Seq<char>| #[trigger] pins.contains_key(
                            attr,
                        ) implies crate::pin::resolve_failure(
                            index,
                            ConstraintView { attr, version: pins[attr].constraint },
                        ) is None by {
                            assert(attrs.contains(attr));
                            let k = choose|k: int| 0 <= k < attrs.len() && attrs[k] == attr;
                            match crate::pin::resolve_failure(index, cs[k]) {
                                Some(e) => {
                                    assert(is_unresolved(index, cs, k, e));
                                },
                                None => {},
                            }
                        }
                    }
                    if forall|attr: Seq<char>| #[trigger]
                        pins.contains_key(attr) ==> crate::pin::resolve_failure(
                            index,
                            ConstraintView { attr, version: pins[attr].constraint },
                        ) is None {
                        assert forall|i: int, e: Failure<Seq<char>>| !#[trigger] is_unresolved(
                            index,
                            cs,
                            i,
                            e,
                        ) by {
                            if 0 <= i < cs.len() {
                                assert(attrs.contains(attrs[i]));
                                assert(pins.contains_key(attrs[i]));
                            }
                        }
                    }
                }
            },
        }
    }
}

/// Where pins fail to resolve, it is for the first of them in order of attribute.
pub proof fn pins_fail_in_order_of_attribute(
    index: IndexView,
    pins: Map<Seq<char>, PinView>,
    e: Failure<Seq<char>>,
) -> (attr: Seq<char>)
    requires
        pins.dom().finite(),
        crate::edit::resolution_failure(index, crate::lock::constraints_of(pins)) == Some(e),
    ensures
        pins.contains_key(attr),
        crate::pin::resolve_failure(
            index,
            ConstraintView { attr, version: pins[attr].constraint },
        ) == Some(e),
        forall|other: Seq<char>| #[trigger]
            pins.contains_key(other) && crate::text::precedes(other, attr)
                ==> crate::pin::resolve_failure(
                index,
                ConstraintView { attr: other, version: pins[other].constraint },
            ) is None,
{
    let cs = crate::lock::constraints_of(pins);
    let attrs = crate::text::order_exists(pins.dom());
    crate::lock::constraints_are_distinct(pins, attrs);
    resolving_fails_for_the_first(index, cs);
    let i = choose|i: int|
        #[trigger] is_unresolved(index, cs, i, e) && forall|j: int, f: Failure<Seq<char>>|
            j < i ==> !#[trigger] is_unresolved(index, cs, j, f);
    let attr = attrs[i];
    assert(attrs.contains(attr));
    assert(cs[i] == crate::lock::constraint_of(pins, attr));
    assert forall|other: Seq<char>| #[trigger] pins.contains_key(other) && crate::text::precedes(
        other,
        attr,
    ) implies crate::pin::resolve_failure(
        index,
        ConstraintView { attr: other, version: pins[other].constraint },
    ) is None by {
        assert(attrs.contains(other));
        let k = choose|k: int| 0 <= k < attrs.len() && attrs[k] == other;
        if k == i {
            crate::text::precedes_is_irreflexive(attr);
        } else if k > i {
            assert(crate::text::precedes(attrs[i], attrs[k]));
            crate::text::precedes_is_transitive(other, attr, other);
            crate::text::precedes_is_irreflexive(other);
        }
        match crate::pin::resolve_failure(index, cs[k]) {
            Some(f) => {
                assert(is_unresolved(index, cs, k, f));
            },
            None => {},
        }
    }
    attr
}

/// A lock file is read entry by entry: each of its keys is pinned, as the last
/// entry with that key says.
pub proof fn reading_keeps_the_last_entry_of_a_key(entries: Seq<(String, Pin)>)
    ensures
        forall|key: Seq<char>| #[trigger]
            crate::lock::gathered(entries).contains_key(key) <==> exists|i: int|
                0 <= i < entries.len() && (#[trigger] entries[i]).0@ == key,
        forall|i: int|
            0 <= i < entries.len() && (forall|j: int|
                i < j < entries.len() ==> (#[trigger] entries[j]).0@ != entries[i].0@)
                ==> crate::lock::gathered(entries)[(#[trigger] entries[i]).0@] == entries[i].1,
    decreases entries.len(),
{
    if entries.len() > 0 {
        let rest = entries.drop_last();
        let n = entries.len() - 1;
        reading_keeps_the_last_entry_of_a_key(rest);
        assert forall|key: Seq<char>| #[trigger] crate::lock::gathered(entries).contains_key(
            key,
        ) <==> exists|i: int| 0 <= i < entries.len() && (#[trigger] entries[i]).0@ == key by {
            assert(crate::lock::gathered(rest).contains_key(key) <==> exists|i: int|
                0 <= i < rest.len() && (#[trigger] rest[i]).0@ == key);
            if exists|i: int| 0 <= i < rest.len() && (#[trigger] rest[i]).0@ == key {
                let i = choose|i: int| 0 <= i < rest.len() && (#[trigger] rest[i]).0@ == key;
                assert(entries[i].0@ == key);
            }
            if exists|i: int| 0 <= i < entries.len() && (#[trigger] entries[i]).0@ == key {
                let i = choose|i: int| 0 <= i < entries.len() && (#[trigger] entries[i]).0@ == key;
                if i < n {
                    assert(rest[i].0@ == key);
                }
            }
            if entries.last().0@ == key {
                assert(entries[n].0@ == key);
            }
        }
        assert forall|i: int|
            0 <= i < entries.len() && (forall|j: int|
                i < j < entries.len() ==> (#[trigger] entries[j]).0@
                    != entries[i].0@) implies crate::lock::gathered(
            entries,
        )[(#[trigger] entries[i]).0@] == entries[i].1 by {
            if i < n {
                assert(entries[n].0@ != entries[i].0@);
                assert(rest[i] == entries[i]);
                assert forall|j: int| i < j < rest.len() implies (#[trigger] rest[j]).0@
                    != rest[i].0@ by {
                    assert(entries[j].0@ != entries[i].0@);
                }
            }
        }
    }
}

} // verus!
