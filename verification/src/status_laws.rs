//! How far behind a pin is, said of the runs of its attribute and the order of
//! versions.

use vstd::prelude::*;

use crate::constraint::ConstraintView;
use crate::index::{IndexView, RunView};
use crate::pin::PinView;
use crate::status::Standing;
use crate::version::Order;

verus! {

/// Whether a run has this version, the constraint accepts it, and it is newer
/// than another.
pub open spec fn is_ahead(
    runs: Seq<RunView>,
    c: ConstraintView,
    pinned: Seq<char>,
    version: Seq<char>,
) -> bool {
    &&& exists|i: int| 0 <= i < runs.len() && (#[trigger] runs[i]).version == version
    &&& c.accepts(version)
    &&& crate::version::order_of(version, pinned) == Order::Greater
}

/// The versions ahead of a pin.
pub open spec fn ahead(runs: Seq<RunView>, c: ConstraintView, pinned: Seq<char>) -> Set<Seq<char>> {
    Set::new(|version: Seq<char>| is_ahead(runs, c, pinned, version))
}

/// The versions that a pin is behind are exactly those that some run has, that
/// the constraint accepts and that are newer, from the oldest to the newest, and
/// no text stands next to itself.
pub proof fn behind_exactly_what_is_ahead(
    runs: Seq<RunView>,
    c: ConstraintView,
    pinned: Seq<char>,
)
    ensures
        forall|version: Seq<char>| #[trigger]
            crate::status::newer_versions_of(runs, c, pinned).contains(version) <==> is_ahead(
                runs,
                c,
                pinned,
                version,
            ),
        forall|i: int, j: int|
            0 <= i < j < crate::status::newer_versions_of(runs, c, pinned).len()
                ==> crate::version::order_of(
                #[trigger] crate::status::newer_versions_of(runs, c, pinned)[i],
                #[trigger] crate::status::newer_versions_of(runs, c, pinned)[j],
            ) != Order::Greater,
        forall|i: int|
            0 < i < crate::status::newer_versions_of(runs, c, pinned).len()
                ==> #[trigger] crate::status::newer_versions_of(runs, c, pinned)[i]
                != crate::status::newer_versions_of(runs, c, pinned)[i - 1],
{
    let all = crate::status::newer(runs, c, pinned);
    let sorted = crate::status::oldest_first(all);
    let kept = crate::status::newer_versions_of(runs, c, pinned);
    crate::status::oldest_first_sorts(all);
    crate::status::repeats_hide_nothing(sorted);
    assert forall|version: Seq<char>| #[trigger] kept.contains(version) <==> is_ahead(
        runs,
        c,
        pinned,
        version,
    ) by {
        assert(kept.contains(version) <==> sorted.contains(version));
        assert(sorted.contains(version) <==> all.contains(version));
        crate::status::newer_members(runs, c, pinned, version);
    }
    kept_places(sorted);
    let places = kept_at(sorted);
    assert forall|i: int, j: int| 0 <= i < j < kept.len() implies crate::version::order_of(
        #[trigger] kept[i],
        #[trigger] kept[j],
    ) != Order::Greater by {
        assert(places[i] < places[j]);
        assert(crate::version::order_of(sorted[places[i]], sorted[places[j]]) != Order::Greater);
    }
    assert forall|i: int| 0 < i < kept.len() implies #[trigger] kept[i] != kept[i - 1] by {
        kept_neighbours_differ(sorted, i);
    }
}

/// The places of a sequence whose element is not the one before.
spec fn kept_at(s: Seq<Seq<char>>) -> Seq<int>
    decreases s.len(),
{
    if s.len() == 0 {
        Seq::empty()
    } else {
        let rest = kept_at(s.drop_last());
        if s.len() >= 2 && s.last() == s[s.len() - 2] {
            rest
        } else {
            rest.push(s.len() - 1)
        }
    }
}

proof fn kept_places(s: Seq<Seq<char>>)
    ensures
        kept_at(s).len() == crate::status::without_repeats(s).len(),
        forall|i: int|
            0 <= i < kept_at(s).len() ==> 0 <= #[trigger] kept_at(s)[i] < s.len()
                && crate::status::without_repeats(s)[i] == s[kept_at(s)[i]],
        forall|i: int, j: int|
            0 <= i < j < kept_at(s).len() ==> #[trigger] kept_at(s)[i] < #[trigger] kept_at(s)[j],
    decreases s.len(),
{
    if s.len() == 1 {
        assert(s.drop_last() =~= Seq::empty());
        assert(kept_at(s.drop_last()) =~= Seq::empty());
        assert(kept_at(s) =~= seq![0int]);
    } else if s.len() >= 2 {
        kept_places(s.drop_last());
    }
}

proof fn kept_neighbours_differ(s: Seq<Seq<char>>, i: int)
    requires
        0 < i < crate::status::without_repeats(s).len(),
    ensures
        crate::status::without_repeats(s)[i] != crate::status::without_repeats(s)[i - 1],
    decreases s.len(),
{
    if s.len() >= 2 {
        let rest = s.drop_last();
        let kept = crate::status::without_repeats(rest);
        crate::status::repeats_hide_nothing(rest);
        if i < kept.len() {
            kept_neighbours_differ(rest, i);
        } else {
            assert(kept.last() == rest.last());
            assert(rest.last() == s[s.len() - 2]);
        }
    }
}

/// Whether the element at a place is not the one before it.
pub open spec fn changes_at(s: Seq<Seq<char>>, k: int) -> bool {
    0 <= k < s.len() && (k == 0 || s[k] != s[k - 1])
}

/// A sequence without adjacent repeats is as long as the number of places where
/// the sequence changes.
pub proof fn repeats_are_counted_by_changes(s: Seq<Seq<char>>)
    ensures
        Set::new(|k: int| changes_at(s, k)).finite(),
        crate::status::without_repeats(s).len() == Set::new(|k: int| changes_at(s, k)).len(),
    decreases s.len(),
{
    let set = Set::new(|k: int| changes_at(s, k));
    if s.len() == 0 {
        assert(set =~= Set::empty());
    } else {
        let rest = s.drop_last();
        let inner = Set::new(|k: int| changes_at(rest, k));
        let n = s.len() - 1;
        repeats_are_counted_by_changes(rest);
        assert forall|k: int| k != n implies (inner.contains(k) <==> set.contains(k)) by {}
        assert(!inner.contains(n));
        if changes_at(s, n) {
            assert(set =~= inner.insert(n));
        } else {
            assert(set =~= inner);
        }
        if s.len() == 1 {
            assert(rest =~= Seq::empty());
            assert(crate::status::without_repeats(rest).len() == 0);
        }
    }
}

/// The versions of a sequence that stand level with one, in their order.
pub open spec fn level_with(s: Seq<Seq<char>>, version: Seq<char>) -> Seq<Seq<char>>
    decreases s.len(),
{
    if s.len() == 0 {
        Seq::empty()
    } else if crate::version::order_of(s.last(), version) == Order::Equal {
        level_with(s.drop_last(), version).push(s.last())
    } else {
        level_with(s.drop_last(), version)
    }
}

proof fn placing_keeps_level_order(sorted: Seq<Seq<char>>, v: Seq<char>, version: Seq<char>)
    ensures
        level_with(crate::status::placed(sorted, v), version) == level_with(
            sorted.push(v),
            version,
        ),
    decreases sorted.len(),
{
    let out = crate::status::placed(sorted, v);
    assert(sorted.push(v).drop_last() =~= sorted);
    if sorted.len() > 0 && crate::version::order_of(sorted.last(), v) == Order::Greater {
        let rest = sorted.drop_last();
        let last = sorted.last();
        placing_keeps_level_order(rest, v, version);
        assert(rest.push(v).drop_last() =~= rest);
        assert(out.drop_last() =~= crate::status::placed(rest, v));
        assert(out.last() == last);
        if crate::version::order_of(v, version) == Order::Equal && crate::version::order_of(
            last,
            version,
        ) == Order::Equal {
            crate::version::comparing_flips(v, version);
            crate::version::comparing_is_transitive(last, version, v);
        }
        let level_rest = level_with(rest, version);
        let v_is_level = crate::version::order_of(v, version) == Order::Equal;
        let last_is_level = crate::version::order_of(last, version) == Order::Equal;
        assert(level_with(sorted, version) == if last_is_level {
            level_rest.push(last)
        } else {
            level_rest
        });
        assert(level_with(rest.push(v), version) == if v_is_level {
            level_rest.push(v)
        } else {
            level_rest
        });
        assert(level_with(sorted.push(v), version) == if v_is_level {
            level_with(sorted, version).push(v)
        } else {
            level_with(sorted, version)
        });
    } else {
        assert(out == sorted.push(v));
    }
}

/// Sorting keeps the order of versions that stand level.
pub proof fn sorting_keeps_level_versions_in_order(s: Seq<Seq<char>>, version: Seq<char>)
    ensures
        level_with(crate::status::oldest_first(s), version) == level_with(s, version),
    decreases s.len(),
{
    if s.len() > 0 {
        let rest = s.drop_last();
        let sorted = crate::status::oldest_first(rest);
        sorting_keeps_level_versions_in_order(rest, version);
        placing_keeps_level_order(sorted, s.last(), version);
        assert(sorted.push(s.last()).drop_last() =~= sorted);
    }
}

/// The versions that are sorted are those of the runs, run by run: each run that
/// has an accepted newer version adds it, and no other run adds anything.
pub proof fn runs_add_what_is_accepted_and_newer(
    runs: Seq<RunView>,
    run: RunView,
    c: ConstraintView,
    pinned: Seq<char>,
)
    ensures
        crate::status::newer(Seq::empty(), c, pinned) == Seq::<Seq<char>>::empty(),
        c.accepts(run.version) && crate::version::order_of(run.version, pinned) == Order::Greater
            ==> crate::status::newer(runs.push(run), c, pinned) == crate::status::newer(
            runs,
            c,
            pinned,
        ).push(run.version),
        !(c.accepts(run.version) && crate::version::order_of(run.version, pinned)
            == Order::Greater) ==> crate::status::newer(runs.push(run), c, pinned)
            == crate::status::newer(runs, c, pinned),
{
    assert(runs.push(run).drop_last() =~= runs);
}

/// A pin is zero versions behind exactly where no run of its attribute has a
/// newer version that its constraint accepts. Where no two such versions stand
/// level, it is as many behind as there are different ones.
pub proof fn versions_behind_counts_what_is_ahead(
    runs: Seq<RunView>,
    c: ConstraintView,
    pinned: Seq<char>,
)
    ensures
        crate::status::newer_versions_of(runs, c, pinned).len() == 0 <==> forall|i: int|
            0 <= i < runs.len() ==> !(c.accepts((#[trigger] runs[i]).version)
                && crate::version::order_of(runs[i].version, pinned) == Order::Greater),
        (forall|a: Seq<char>, b: Seq<char>| #[trigger]
            is_ahead(runs, c, pinned, a) && #[trigger] is_ahead(runs, c, pinned, b)
                && crate::version::order_of(a, b) == Order::Equal ==> a == b)
            ==> crate::status::newer_versions_of(runs, c, pinned).len() == ahead(
            runs,
            c,
            pinned,
        ).len(),
{
    let all = crate::status::newer(runs, c, pinned);
    let kept = crate::status::newer_versions_of(runs, c, pinned);
    behind_exactly_what_is_ahead(runs, c, pinned);
    if kept.len() == 0 {
        assert forall|i: int| 0 <= i < runs.len() implies !(c.accepts((#[trigger] runs[i]).version)
            && crate::version::order_of(runs[i].version, pinned) == Order::Greater) by {
            let v = runs[i].version;
            if c.accepts(v) && crate::version::order_of(v, pinned) == Order::Greater {
                assert(is_ahead(runs, c, pinned, v));
                assert(kept.contains(v));
            }
        }
    } else {
        assert(kept.contains(kept[0]));
        assert(is_ahead(runs, c, pinned, kept[0]));
    }
    assert forall|v: Seq<char>| #[trigger] all.contains(v) <==> is_ahead(runs, c, pinned, v) by {
        crate::status::newer_members(runs, c, pinned, v);
    }
    if forall|a: Seq<char>, b: Seq<char>| #[trigger]
        is_ahead(runs, c, pinned, a) && #[trigger] is_ahead(runs, c, pinned, b)
            && crate::version::order_of(a, b) == Order::Equal ==> a == b {
        assert forall|a: Seq<char>, b: Seq<char>| #[trigger] all.contains(a)
            && #[trigger] all.contains(b) && crate::version::order_of(a, b)
            == Order::Equal implies a == b by {
            assert(is_ahead(runs, c, pinned, a) && is_ahead(runs, c, pinned, b));
        }
        crate::status::behind_counts_distinct_versions(runs, c, pinned);
        assert(all.to_set() =~= ahead(runs, c, pinned)) by {
            assert forall|v: Seq<char>| all.to_set().contains(v) <==> ahead(
                runs,
                c,
                pinned,
            ).contains(v) by {
                assert(all.contains(v) <==> is_ahead(runs, c, pinned, v));
            }
        }
    }
}

/// What a standing tells of a pin: its own version and date; the version and the
/// label of the newest revision that its constraint allows and that can be
/// fetched; the number of newer versions; and the days between the two dates,
/// where both are dates.
pub proof fn standings_tell_of_their_pin(
    standing: Standing,
    index: IndexView,
    pins: Map<Seq<char>, PinView>,
)
    requires
        index.valid(),
        crate::status::stands(standing, index, pins),
        crate::pin::resolve_failure(
            index,
            ConstraintView {
                attr: standing.attr@,
                version: pins[standing.attr@].constraint,
            },
        ) is None,
    ensures
        standing.version@ == pins[standing.attr@].version,
        standing.date@ == pins[standing.attr@].date,
        ({
            let c = ConstraintView {
                attr: standing.attr@,
                version: pins[standing.attr@].constraint,
            };
            let pinned = pins[standing.attr@].version;
            let runs = crate::index_laws::runs(index, standing.attr@);
            &&& standing.versions_behind == 0 <==> forall|i: int|
                0 <= i < runs.len() ==> !(c.accepts((#[trigger] runs[i]).version)
                    && crate::version::order_of(runs[i].version, pinned) == Order::Greater)
            &&& standing.versions_behind == crate::status::newer_versions_of(
                runs,
                c,
                pinned,
            ).len()
            &&& forall|off: int, i: int| #[trigger]
                crate::index_laws::newest_allowed(index, c, off)
                    && #[trigger] crate::index_laws::first_ran(index, c.attr, i, off) ==> {
                    &&& standing.latest@ == runs[i].version
                    &&& standing.latest_label@ == index.commits[off].label
                    &&& standing.days_behind is Some <==> crate::date::is_date(
                        pins[standing.attr@].date,
                    ) && crate::date::is_date(index.commits[off].date)
                    &&& standing.days_behind matches Some(n) ==> n == crate::date::day_number_of(
                        index.commits[off].date,
                    ) - crate::date::day_number_of(pins[standing.attr@].date)
                }
        }),
{
    let attr = standing.attr@;
    let c = ConstraintView { attr, version: pins[attr].constraint };
    let runs = crate::index_laws::runs(index, attr);
    assert(c == crate::lock::constraint_of(pins, attr));
    assert(runs == index.runs_of(attr));
    versions_behind_counts_what_is_ahead(runs, c, pins[attr].version);
    let newest = crate::index_laws::constraints_resolve_to_the_newest(index, c);
    assert forall|off: int, i: int| #[trigger] crate::index_laws::newest_allowed(index, c, off)
        && #[trigger] crate::index_laws::first_ran(index, c.attr, i, off) implies off == newest by {
        assert(crate::index_laws::allowed(index, c, off));
        assert(crate::index_laws::allowed(index, c, newest));
    }
}

} // verus!
