//! How far behind each pin has fallen.
//!
//! Both numbers are measured against the newest revision the index knows, not
//! against today, so the answer is reproducible and moves only when the index
//! does.

use vstd::prelude::*;

use vstd::string::StringExecFns;

use crate::constraint::{Constraint, ConstraintView};
use crate::date::days_between;
use crate::error::Error;
use crate::index::{Index, IndexView, Run, RunView};
use crate::lock::Lock;
use crate::output::plural;
use crate::pin::{pin_for, Pin, PinView};
use crate::text::same;
use crate::version::{compare, Order};

verus! {

/// Where a pin stands.
#[derive(Debug)]
pub struct Standing {
    pub attr: String,
    pub version: String,
    pub date: String,
    /// The newest version that the pin's constraint allows.
    pub latest: String,
    /// The revision that has it.
    pub latest_label: String,
    /// How many newer versions the pin's constraint allows: a pin held at
    /// `python3@3.8` is not behind 3.14, it is where it was asked to be.
    pub versions_behind: usize,
    /// The days from the pin's revision to the newest one; nothing where one
    /// of them has no proper date.
    pub days_behind: Option<i64>,
}

/// The versions of these runs that a constraint accepts and that are newer
/// than a version, run by run.
pub open spec fn newer(runs: Seq<RunView>, c: ConstraintView, version: Seq<char>) -> Seq<Seq<char>>
    decreases runs.len(),
{
    if runs.len() == 0 {
        seq![]
    } else {
        let rest = newer(runs.drop_last(), c, version);
        if is_newer(runs.last().version, c, version) {
            rest.push(runs.last().version)
        } else {
            rest
        }
    }
}

/// Whether a constraint accepts a version that is newer than another.
pub open spec fn is_newer(candidate: Seq<char>, c: ConstraintView, version: Seq<char>) -> bool {
    c.accepts(candidate) && crate::version::order_of(candidate, version) == Order::Greater
}

/// A version put behind the last of a sequence that is not newer.
pub open spec fn placed(sorted: Seq<Seq<char>>, version: Seq<char>) -> Seq<Seq<char>>
    decreases sorted.len(),
{
    if sorted.len() > 0 && crate::version::order_of(sorted.last(), version) == Order::Greater {
        placed(sorted.drop_last(), version).push(sorted.last())
    } else {
        sorted.push(version)
    }
}

/// Versions from the oldest to the newest. Those that stand level keep their
/// order.
pub open spec fn oldest_first(versions: Seq<Seq<char>>) -> Seq<Seq<char>>
    decreases versions.len(),
{
    if versions.len() == 0 {
        seq![]
    } else {
        placed(oldest_first(versions.drop_last()), versions.last())
    }
}

/// A sequence without the elements that repeat the one before them.
pub open spec fn without_repeats(versions: Seq<Seq<char>>) -> Seq<Seq<char>>
    decreases versions.len(),
{
    if versions.len() < 2 {
        versions
    } else {
        let rest = without_repeats(versions.drop_last());
        if versions.last() == versions[versions.len() - 2] {
            rest
        } else {
            rest.push(versions.last())
        }
    }
}

/// The newer versions that a constraint allows, from the oldest to the newest,
/// without the repeats that stand next to each other. Versions that stand level
/// but are written differently can part two equal texts, and then both stay.
pub open spec fn newer_versions_of(
    runs: Seq<RunView>,
    c: ConstraintView,
    version: Seq<char>,
) -> Seq<Seq<char>> {
    without_repeats(oldest_first(newer(runs, c, version)))
}

/// The days from one date to another, where both are dates.
pub open spec fn days_of(from: Seq<char>, to: Seq<char>) -> Option<int> {
    if crate::date::is_date(from) && crate::date::is_date(to) {
        Some(crate::date::day_number_of(to) - crate::date::day_number_of(from))
    } else {
        None
    }
}

/// Whether a standing is that of the pin of its attribute.
pub open spec fn stands(standing: Standing, index: IndexView, pins: Map<Seq<char>, PinView>) -> bool {
    let pin = pins[standing.attr@];
    let c = crate::lock::constraint_of(pins, standing.attr@);
    let newest = crate::pin::lone_pin(index, c);
    &&& standing.version@ == pin.version
    &&& standing.date@ == pin.date
    &&& standing.latest@ == newest.version
    &&& standing.latest_label@ == newest.label
    &&& standing.versions_behind == newer_versions_of(
        index.runs_of(standing.attr@),
        c,
        pin.version,
    ).len()
    &&& days_of(pin.date, newest.date) == match standing.days_behind {
        Some(n) => Some(n as int),
        None => None,
    }
}

/// Put a version behind the last of these that is not newer.
fn place(sorted: &mut Vec<String>, version: String)
    ensures
        crate::text::texts(final(sorted)@) == placed(
            crate::text::texts(old(sorted)@),
            version@,
        ),
{
    let ghost all = crate::text::texts(sorted@);
    let mut at: usize = sorted.len();
    assert(all.take(at as int) =~= all);
    assert(all.skip(at as int) =~= Seq::empty());
    assert(placed(all, version@) =~= placed(all.take(at as int), version@) + all.skip(at as int));
    while at > 0 && compare(sorted[at - 1].as_str(), version.as_str()) == Order::Greater
        invariant
            at <= sorted@.len(),
            all == crate::text::texts(sorted@),
            placed(all, version@) == placed(all.take(at as int), version@) + all.skip(at as int),
        decreases at,
    {
        proof {
            let head = all.take(at as int);
            assert(head.last() == sorted@[at - 1]@);
            assert(head.drop_last() =~= all.take(at - 1));
            assert(placed(head, version@) == placed(all.take(at - 1), version@).push(head.last()));
            assert(placed(all.take(at - 1), version@).push(head.last()) + all.skip(at as int)
                =~= placed(all.take(at - 1), version@) + all.skip(at - 1));
        }
        at = at - 1;
    }
    proof {
        let head = all.take(at as int);
        assert(at > 0 ==> head.last() == sorted@[at - 1]@);
        assert(placed(head, version@) == head.push(version@));
    }
    sorted.insert(at, version);
    assert(crate::text::texts(sorted@) =~= all.take(at as int).push(version@) + all.skip(
        at as int,
    ));
}

/// The newer versions that a constraint allows, from the oldest to the newest,
/// without the repeats that stand next to each other. A text comes twice only
/// where one written differently, that stands level with it, is between.
pub fn newer_versions(runs: &Vec<Run>, constraint: &Constraint, version: &str) -> (r: Vec<String>)
    ensures
        crate::text::texts(r@) == newer_versions_of(
            crate::index::run_views(runs@),
            constraint@,
            version@,
        ),
{
    let ghost views = crate::index::run_views(runs@);
    let ghost c = constraint@;
    let mut sorted: Vec<String> = Vec::new();
    let mut i: usize = 0;
    assert(views.take(0) =~= Seq::empty());
    assert(crate::text::texts(sorted@) =~= oldest_first(newer(views.take(0), c, version@)));
    while i < runs.len()
        invariant
            i <= runs@.len(),
            views == crate::index::run_views(runs@),
            c == constraint@,
            crate::text::texts(sorted@) == oldest_first(newer(views.take(i as int), c, version@)),
        decreases runs@.len() - i,
    {
        proof {
            assert(views.take(i + 1).drop_last() =~= views.take(i as int));
            assert(views.take(i + 1).last() == runs@[i as int]@);
        }
        let candidate: &str = runs[i].version.as_str();
        if constraint.admits(candidate) && compare(candidate, version) == Order::Greater {
            proof {
                let rest = newer(views.take(i as int), c, version@);
                assert(rest.push(candidate@).drop_last() =~= rest);
            }
            place(&mut sorted, candidate.to_owned());
        }
        i = i + 1;
    }
    assert(views.take(views.len() as int) =~= views);
    let ghost all = crate::text::texts(sorted@);
    let mut out: Vec<String> = Vec::new();
    let mut j: usize = 0;
    assert(crate::text::texts(out@) =~= without_repeats(all.take(0)));
    while j < sorted.len()
        invariant
            j <= sorted@.len(),
            all == crate::text::texts(sorted@),
            crate::text::texts(out@) == without_repeats(all.take(j as int)),
        decreases sorted@.len() - j,
    {
        let ghost told = crate::text::texts(out@);
        proof {
            assert(all.take(j + 1).drop_last() =~= all.take(j as int));
            assert(all.take(j + 1).last() == sorted@[j as int]@);
            if j > 0 {
                assert(all.take(j + 1)[j - 1] == sorted@[j - 1]@);
            } else {
                assert(all.take(0) =~= Seq::empty());
                assert(without_repeats(all.take(0)).push(all[0]) =~= all.take(1));
            }
        }
        if j == 0 || !same(sorted[j].as_str(), sorted[j - 1].as_str()) {
            out.push(sorted[j].clone());
            assert(crate::text::texts(out@) =~= told.push(sorted@[j as int]@));
        }
        j = j + 1;
    }
    assert(all.take(all.len() as int) =~= all);
    out
}

/// Where every pin stands, in order of attribute.
pub fn status(index: &Index, lock: &Lock) -> (r: Result<Vec<Standing>, Error>)
    ensures
        match r {
            Ok(standings) => {
                &&& crate::edit::resolution_failure(
                    index@,
                    crate::lock::constraints_of(lock@.pins),
                ) is None
                &&& crate::text::orders(
                    standings@.map_values(|s: Standing| s.attr@),
                    lock@.pins.dom(),
                )
                &&& forall|i: int|
                    0 <= i < standings@.len() ==> stands(
                        #[trigger] standings@[i],
                        index@,
                        lock@.pins,
                    )
            },
            Err(e) => crate::edit::resolution_failure(
                index@,
                crate::lock::constraints_of(lock@.pins),
            ) == Some(e@),
        },
{
    let ghost pins = lock@.pins;
    let ghost asked = crate::lock::constraints_of(pins);
    let entries: &Vec<(String, Pin)> = lock.pins.entries();
    proof {
        crate::map::listed_keys(entries@, lock.pins@);
        assert(pins.dom() =~= lock.pins@.dom());
        crate::lock::constraints_are_distinct(pins, crate::map::keys(entries@));
        assert(asked.take(0) =~= Seq::empty());
    }
    let mut out: Vec<Standing> = Vec::new();
    let mut i: usize = 0;
    while i < entries.len()
        invariant
            i <= entries@.len(),
            out@.len() == i,
            pins == lock@.pins,
            asked == crate::lock::constraints_of(pins),
            crate::lock::attributes(pins) == crate::map::keys(entries@),
            crate::map::lists(entries@, lock.pins@),
            crate::edit::resolution_failure(index@, asked.take(i as int)) is None,
            forall|k: int|
                0 <= k < i ==> (#[trigger] out@[k]).attr@ == entries@[k].0@ && stands(
                    out@[k],
                    index@,
                    pins,
                ),
        decreases entries@.len() - i,
    {
        let attr: &String = &entries[i].0;
        let pin: &Pin = &entries[i].1;
        let constraint: Constraint = pin.asks(attr.as_str());
        proof {
            assert(lock.pins@.contains_key(entries@[i as int].0@));
            assert(lock.pins@[entries@[i as int].0@] == entries@[i as int].1);
            assert(crate::map::keys(entries@)[i as int] == attr@);
            assert(asked[i as int] == crate::lock::constraint_of(pins, attr@));
            assert(constraint@ == asked[i as int]);
            assert(asked.take(i + 1).drop_last() =~= asked.take(i as int));
            assert(asked.take(i + 1).last() == asked[i as int]);
        }
        let newest: Pin = match pin_for(index, &constraint) {
            Ok(newest) => newest,
            Err(e) => {
                proof {
                    crate::edit::resolution_failure_persists(index@, asked, i + 1);
                }
                return Err(e);
            },
        };
        let runs: Vec<Run> = index.runs_of(attr.as_str());
        let behind: Vec<String> = newer_versions(&runs, &constraint, pin.version.as_str());
        let days: Option<i64> = days_between(pin.date.as_str(), newest.date.as_str());
        assert(crate::text::texts(behind@).len() == behind@.len());
        out.push(
            Standing {
                attr: attr.clone(),
                version: pin.version.clone(),
                date: pin.date.clone(),
                latest: newest.version,
                latest_label: newest.label,
                versions_behind: behind.len(),
                days_behind: days,
            },
        );
        i = i + 1;
    }
    proof {
        assert(asked.take(asked.len() as int) =~= asked);
        assert(out@.map_values(|s: Standing| s.attr@) =~= crate::map::keys(entries@));
    }
    Ok(out)
}

/// How far behind a pin is, in words.
pub open spec fn behind_of(versions: nat, days: Option<int>) -> Seq<char> {
    if versions == 0 {
        "current"@
    } else {
        crate::output::counted(versions, "version"@) + ", "@ + crate::output::counted(
            match days {
                Some(n) => if n < 0 {
                    0
                } else {
                    n as nat
                },
                None => 0,
            },
            "day"@,
        )
    }
}

impl Standing {
    /// How far behind the pin is, in words.
    pub fn behind(&self) -> (r: String)
        ensures
            r@ == behind_of(
                self.versions_behind as nat,
                match self.days_behind {
                    Some(n) => Some(n as int),
                    None => None,
                },
            ),
    {
        if self.versions_behind == 0 {
            return "current".to_owned();
        }
        let days: u64 = match self.days_behind {
            Some(n) => if n < 0 {
                0
            } else {
                n as u64
            },
            None => 0,
        };
        let mut out: String = plural(self.versions_behind as u64, "version");
        out.append(", ");
        out.append(plural(days, "day").as_str());
        out
    }
}

/// Whether no version of a sequence is newer than a later one.
pub open spec fn climbs(versions: Seq<Seq<char>>) -> bool {
    forall|i: int, j: int|
        0 <= i < j < versions.len() ==> crate::version::order_of(
            #[trigger] versions[i],
            #[trigger] versions[j],
        ) != Order::Greater
}

proof fn placing_keeps_the_climb(sorted: Seq<Seq<char>>, version: Seq<char>)
    requires
        climbs(sorted),
    ensures
        climbs(placed(sorted, version)),
        placed(sorted, version).to_multiset() == sorted.to_multiset().insert(version),
        placed(sorted, version).len() == sorted.len() + 1,
        forall|x: Seq<char>| #[trigger]
            placed(sorted, version).contains(x) <==> sorted.contains(x) || x == version,
    decreases sorted.len(),
{
    broadcast use vstd::seq_lib::group_to_multiset_ensures;

    let all = placed(sorted, version);
    if sorted.len() > 0 && crate::version::order_of(sorted.last(), version) == Order::Greater {
        let rest = sorted.drop_last();
        let last = sorted.last();
        placing_keeps_the_climb(rest, version);
        let head = placed(rest, version);
        assert(sorted =~= rest.push(last));
        assert(all == head.push(last));
        assert(all.to_multiset() =~= sorted.to_multiset().insert(version));
        assert forall|x: Seq<char>| #[trigger] all.contains(x) <==> sorted.contains(x) || x
            == version by {
            assert(head.contains(x) <==> rest.contains(x) || x == version);
            pushing_adds_one(head, last, x);
            pushing_adds_one(rest, last, x);
        }
        assert forall|i: int, j: int| 0 <= i < j < all.len() implies crate::version::order_of(
            #[trigger] all[i],
            #[trigger] all[j],
        ) != Order::Greater by {
            if j < head.len() {
                assert(crate::version::order_of(head[i], head[j]) != Order::Greater);
            } else {
                assert(head.contains(head[i]));
                if head[i] == version {
                    crate::version::comparing_flips(last, version);
                } else {
                    assert(rest.contains(head[i]));
                    let k = choose|k: int| 0 <= k < rest.len() && rest[k] == head[i];
                    assert(crate::version::order_of(sorted[k], sorted[sorted.len() - 1])
                        != Order::Greater);
                }
            }
        }
    } else {
        assert(all == sorted.push(version));
        assert forall|x: Seq<char>| #[trigger] all.contains(x) <==> sorted.contains(x) || x
            == version by {
            pushing_adds_one(sorted, version, x);
        }
        assert forall|i: int, j: int| 0 <= i < j < all.len() implies crate::version::order_of(
            #[trigger] all[i],
            #[trigger] all[j],
        ) != Order::Greater by {
            if j < sorted.len() {
                assert(crate::version::order_of(sorted[i], sorted[j]) != Order::Greater);
            } else if i < sorted.len() - 1 {
                assert(crate::version::order_of(sorted[i], sorted[sorted.len() - 1])
                    != Order::Greater);
                crate::version::comparing_is_transitive(sorted[i], sorted.last(), version);
            }
        }
    }
}

proof fn pushing_adds_one(s: Seq<Seq<char>>, last: Seq<char>, x: Seq<char>)
    ensures
        s.push(last).contains(x) <==> s.contains(x) || x == last,
{
    let more = s.push(last);
    if more.contains(x) {
        let k = choose|k: int| 0 <= k < more.len() && more[k] == x;
        if k < s.len() {
            assert(s[k] == x);
        }
    }
    if s.contains(x) {
        let k = choose|k: int| 0 <= k < s.len() && s[k] == x;
        assert(more[k] == x);
    }
    assert(more[s.len() as int] == last);
}

/// Versions ordered from the oldest to the newest climb, and are the same
/// versions.
pub proof fn oldest_first_sorts(versions: Seq<Seq<char>>)
    ensures
        climbs(oldest_first(versions)),
        oldest_first(versions).to_multiset() == versions.to_multiset(),
        oldest_first(versions).len() == versions.len(),
        forall|x: Seq<char>| #[trigger]
            oldest_first(versions).contains(x) <==> versions.contains(x),
    decreases versions.len(),
{
    broadcast use vstd::seq_lib::group_to_multiset_ensures;

    if versions.len() == 0 {
        assert(oldest_first(versions) =~= versions);
    } else {
        let rest = versions.drop_last();
        let last = versions.last();
        oldest_first_sorts(rest);
        placing_keeps_the_climb(oldest_first(rest), last);
        assert(versions =~= rest.push(last));
        assert(oldest_first(versions).to_multiset() =~= versions.to_multiset());
        assert forall|x: Seq<char>| #[trigger] oldest_first(versions).contains(
            x,
        ) <==> versions.contains(x) by {
            assert(oldest_first(rest).contains(x) <==> rest.contains(x));
            pushing_adds_one(rest, last, x);
        }
    }
}

/// The newer versions are those that the constraint accepts, in some run, and
/// that are newer.
pub proof fn newer_members(
    runs: Seq<RunView>,
    c: ConstraintView,
    version: Seq<char>,
    candidate: Seq<char>,
)
    ensures
        newer(runs, c, version).contains(candidate) <==> is_newer(candidate, c, version) && exists|
            i: int,
        | 0 <= i < runs.len() && (#[trigger] runs[i]).version == candidate,
    decreases runs.len(),
{
    if runs.len() > 0 {
        let rest = runs.drop_last();
        newer_members(rest, c, version, candidate);
        pushing_adds_one(newer(rest, c, version), runs.last().version, candidate);
        if exists|i: int| 0 <= i < rest.len() && (#[trigger] rest[i]).version == candidate {
            let i = choose|i: int| 0 <= i < rest.len() && (#[trigger] rest[i]).version == candidate;
            assert(runs[i].version == candidate);
        }
        if exists|i: int| 0 <= i < runs.len() && (#[trigger] runs[i]).version == candidate {
            let i = choose|i: int| 0 <= i < runs.len() && (#[trigger] runs[i]).version == candidate;
            if i < rest.len() {
                assert(rest[i].version == candidate);
            }
        }
        if runs.last().version == candidate {
            assert(runs[runs.len() - 1].version == candidate);
        }
    }
}

/// Dropping repeats keeps every element, and the last as the last.
pub proof fn repeats_hide_nothing(versions: Seq<Seq<char>>)
    ensures
        versions.len() > 0 ==> without_repeats(versions).len() > 0
            && without_repeats(versions).last() == versions.last(),
        forall|x: Seq<char>| #[trigger]
            without_repeats(versions).contains(x) <==> versions.contains(x),
    decreases versions.len(),
{
    if versions.len() >= 2 {
        let rest = versions.drop_last();
        let last = versions.last();
        repeats_hide_nothing(rest);
        assert(versions =~= rest.push(last));
        assert(rest.last() == versions[versions.len() - 2]);
        assert forall|x: Seq<char>| #[trigger] without_repeats(versions).contains(
            x,
        ) <==> versions.contains(x) by {
            assert(without_repeats(rest).contains(x) <==> rest.contains(x));
            pushing_adds_one(rest, last, x);
            pushing_adds_one(without_repeats(rest), last, x);
            assert(rest.contains(rest[rest.len() - 1]));
        }
    }
}

/// Whether the versions of a sequence that stand level are the same text.
pub open spec fn no_ties(versions: Seq<Seq<char>>) -> bool {
    forall|a: Seq<char>, b: Seq<char>| #[trigger]
        versions.contains(a) && #[trigger] versions.contains(b) && crate::version::order_of(a, b)
            == Order::Equal ==> a == b
}

proof fn climb_without_repeats_is_distinct(versions: Seq<Seq<char>>)
    requires
        climbs(versions),
        no_ties(versions),
    ensures
        without_repeats(versions).no_duplicates(),
    decreases versions.len(),
{
    if versions.len() >= 2 {
        let rest = versions.drop_last();
        let last = versions.last();
        let kept = without_repeats(rest);
        assert forall|i: int, j: int| 0 <= i < j < rest.len() implies crate::version::order_of(
            #[trigger] rest[i],
            #[trigger] rest[j],
        ) != Order::Greater by {
            assert(crate::version::order_of(versions[i], versions[j]) != Order::Greater);
        }
        assert forall|a: Seq<char>, b: Seq<char>| #[trigger] rest.contains(a)
            && #[trigger] rest.contains(b) && crate::version::order_of(a, b)
            == Order::Equal implies a == b by {
            pushing_adds_one(rest, last, a);
            pushing_adds_one(rest, last, b);
            assert(versions =~= rest.push(last));
            assert(versions.contains(a) && versions.contains(b));
        }
        climb_without_repeats_is_distinct(rest);
        repeats_hide_nothing(rest);
        let previous = versions[versions.len() - 2];
        if last != previous && kept.contains(last) {
            assert(rest.contains(last));
            let k = choose|k: int| 0 <= k < rest.len() && rest[k] == last;
            assert(versions[k] == last);
            let n = versions.len() - 2;
            assert(k != n);
            assert(crate::version::order_of(versions[k], versions[n]) != Order::Greater);
            assert(crate::version::order_of(versions[n], versions[n + 1]) != Order::Greater);
            crate::version::comparing_flips(versions[k], versions[n]);
            assert(versions.contains(versions[n]) && versions.contains(versions[k]));
            assert(false);
        }
        if last != previous {
            assert(without_repeats(versions) == kept.push(last));
            assert(kept.push(last).no_duplicates());
        }
    } else {
        assert(without_repeats(versions).no_duplicates());
    }
}

/// A pin is current exactly where no run of its attribute has a newer version
/// that its constraint accepts.
pub proof fn current_means_nothing_newer(
    runs: Seq<RunView>,
    c: ConstraintView,
    version: Seq<char>,
)
    ensures
        newer_versions_of(runs, c, version).len() == 0 <==> forall|i: int|
            0 <= i < runs.len() ==> !is_newer((#[trigger] runs[i]).version, c, version),
{
    let all = newer(runs, c, version);
    oldest_first_sorts(all);
    repeats_hide_nothing(oldest_first(all));
    if newer_versions_of(runs, c, version).len() == 0 {
        assert forall|i: int| 0 <= i < runs.len() implies !is_newer(
            (#[trigger] runs[i]).version,
            c,
            version,
        ) by {
            newer_members(runs, c, version, runs[i].version);
            if is_newer(runs[i].version, c, version) {
                assert(all.contains(runs[i].version));
            }
        }
    } else {
        assert(all.contains(all[0]));
        newer_members(runs, c, version, all[0]);
    }
}

/// Where no two newer versions stand level, the count of versions behind is the
/// number of different newer versions.
pub proof fn behind_counts_distinct_versions(
    runs: Seq<RunView>,
    c: ConstraintView,
    version: Seq<char>,
)
    requires
        no_ties(newer(runs, c, version)),
    ensures
        newer_versions_of(runs, c, version).len() == newer(runs, c, version).to_set().len(),
{
    let all = newer(runs, c, version);
    let sorted = oldest_first(all);
    let kept = newer_versions_of(runs, c, version);
    oldest_first_sorts(all);
    assert forall|a: Seq<char>, b: Seq<char>| #[trigger] sorted.contains(a)
        && #[trigger] sorted.contains(b) && crate::version::order_of(a, b)
        == Order::Equal implies a == b by {
        assert(all.contains(a) && all.contains(b));
    }
    climb_without_repeats_is_distinct(sorted);
    repeats_hide_nothing(sorted);
    kept.unique_seq_to_set();
    assert forall|x: Seq<char>| kept.to_set().contains(x) <==> all.to_set().contains(x) by {
        assert(kept.contains(x) <==> sorted.contains(x));
        assert(sorted.contains(x) <==> all.contains(x));
    }
    assert(kept.to_set() =~= all.to_set());
}

} // verus!
