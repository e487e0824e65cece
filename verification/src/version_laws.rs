//! What versions, constraints and their texts mean, said of the characters they
//! are written with.

use vstd::prelude::*;

use crate::constraint::ConstraintView;
use crate::error::Failure;
use crate::version::Order;

verus! {

/// Whether `a` falls behind `b` at place `k`: they agree up to there, and then
/// `a` has ended or has the smaller character.
pub open spec fn falls_behind_at(a: Seq<char>, b: Seq<char>, k: int) -> bool {
    &&& 0 <= k <= a.len()
    &&& k < b.len()
    &&& forall|j: int| 0 <= j < k ==> #[trigger] a[j] == b[j]
    &&& k == a.len() || (a[k] as int) < (b[k] as int)
}

/// Texts are ordered by the first place where they differ.
pub proof fn texts_are_ordered_by_their_first_difference(a: Seq<char>, b: Seq<char>)
    ensures
        crate::text::precedes(a, b) <==> exists|k: int| falls_behind_at(a, b, k),
    decreases a.len(),
{
    if b.len() == 0 {
    } else if a.len() == 0 {
        assert(falls_behind_at(a, b, 0));
    } else {
        let x = a.drop_first();
        let y = b.drop_first();
        texts_are_ordered_by_their_first_difference(x, y);
        if a[0] != b[0] {
            if (a[0] as int) < (b[0] as int) {
                assert(falls_behind_at(a, b, 0));
            }
            if exists|k: int| falls_behind_at(a, b, k) {
                let k = choose|k: int| falls_behind_at(a, b, k);
                if k > 0 {
                    assert(a[0] == b[0]);
                }
            }
        } else {
            if exists|k: int| falls_behind_at(x, y, k) {
                let k = choose|k: int| falls_behind_at(x, y, k);
                assert forall|j: int| 0 <= j < k + 1 implies #[trigger] a[j] == b[j] by {
                    if j > 0 {
                        assert(x[j - 1] == y[j - 1]);
                    }
                }
                assert(falls_behind_at(a, b, k + 1));
            }
            if exists|k: int| falls_behind_at(a, b, k) {
                let k = choose|k: int| falls_behind_at(a, b, k);
                assert forall|j: int| 0 <= j < k - 1 implies #[trigger] x[j] == y[j] by {
                    assert(a[j + 1] == b[j + 1]);
                }
                assert(falls_behind_at(x, y, k - 1));
            }
        }
    }
}

/// Whether a character stands in a component.
pub open spec fn stands_in_component(c: char) -> bool {
    c != '.' && c != '-'
}

/// Whether a character is one of the ten digits.
pub open spec fn one_of_ten(c: char) -> bool {
    '0' as int <= c as int <= '9' as int
}

/// Whether a range of a text is a component: characters that stand in one, all
/// of them digits or none of them, and no more of the kind behind.
pub open spec fn is_component(s: Seq<char>, place: (int, int)) -> bool {
    &&& 0 <= place.0 < place.1 <= s.len()
    &&& forall|k: int|
        place.0 <= k < place.1 ==> stands_in_component(#[trigger] s[k]) && one_of_ten(s[k])
            == one_of_ten(s[place.0])
    &&& place.1 < s.len() ==> !stands_in_component(s[place.1]) || one_of_ten(s[place.1])
        != one_of_ten(s[place.0])
}

/// Whether a place of a text lies in one of these ranges.
pub open spec fn in_one_of(places: Seq<(int, int)>, k: int) -> bool {
    exists|i: int| 0 <= i < places.len() && (#[trigger] places[i]).0 <= k < places[i].1
}

/// Whether these ranges are all the components of a text, in order.
pub open spec fn divide(s: Seq<char>, places: Seq<(int, int)>) -> bool {
    &&& forall|i: int| 0 <= i < places.len() ==> is_component(s, #[trigger] places[i])
    &&& forall|i: int, j: int|
        0 <= i < j < places.len() ==> (#[trigger] places[i]).1 <= (#[trigger] places[j]).0
    &&& forall|k: int|
        0 <= k < s.len() && stands_in_component(#[trigger] s[k]) ==> in_one_of(places, k)
}

proof fn component_reaches(s: Seq<char>, i: int)
    requires
        1 <= i <= s.len(),
        stands_in_component(s[0]),
        forall|k: int|
            0 <= k < i ==> stands_in_component(#[trigger] s[k]) && one_of_ten(s[k]) == one_of_ten(
                s[0],
            ),
    ensures
        i <= crate::version::component_end(s, i) <= s.len(),
        is_component(s, (0, crate::version::component_end(s, i))),
    decreases s.len() - i,
{
    if i < s.len() && crate::version::joins(s[0], s[i]) {
        component_reaches(s, i + 1);
    }
}

/// The parts of a text at these places.
pub open spec fn parts_at(s: Seq<char>, places: Seq<(int, int)>) -> Seq<Seq<char>> {
    places.map_values(|p: (int, int)| s.subrange(p.0, p.1))
}

proof fn parts_shift(s: Seq<char>, rest: Seq<char>, inner: Seq<(int, int)>, n: int)
    requires
        0 <= n <= s.len(),
        rest == s.skip(n),
        divide(rest, inner),
    ensures
        parts_at(s, shifted(inner, n)) == parts_at(rest, inner),
{
    assert forall|i: int| 0 <= i < inner.len() implies parts_at(s, shifted(inner, n))[i]
        == parts_at(rest, inner)[i] by {
        let p = inner[i];
        assert(is_component(rest, p));
        assert(s.subrange(p.0 + n, p.1 + n) =~= rest.subrange(p.0, p.1));
    }
    assert(parts_at(s, shifted(inner, n)) =~= parts_at(rest, inner));
}

/// The components of a version string are its longest stretches without a dot or
/// a dash in which all characters are digits or none is. They stand at these
/// places.
pub proof fn components_are_longest_stretches(s: Seq<char>) -> (places: Seq<(int, int)>)
    ensures
        divide(s, places),
        crate::version::components_of(s) == parts_at(s, places),
    decreases s.len(),
{
    if s.len() == 0 {
        let places = Seq::<(int, int)>::empty();
        assert(parts_at(s, places) =~= Seq::empty());
        places
    } else if !stands_in_component(s[0]) {
        let rest = s.drop_first();
        let inner = components_are_longest_stretches(rest);
        let places = shifted(inner, 1);
        assert(rest =~= s.skip(1));
        places_shift(s, rest, inner, 1, Seq::empty());
        parts_shift(s, rest, inner, 1);
        assert(Seq::<(int, int)>::empty() + places =~= places);
        places
    } else {
        component_reaches(s, 1);
        let end = crate::version::component_end(s, 1);
        let rest = s.skip(end);
        let inner = components_are_longest_stretches(rest);
        let first = seq![(0int, end)];
        let places = first + shifted(inner, end);
        places_shift(s, rest, inner, end, first);
        parts_shift(s, rest, inner, end);
        assert(s.subrange(0, end) =~= s.take(end));
        assert(parts_at(s, places) =~= seq![s.take(end)] + parts_at(s, shifted(inner, end)));
        places
    }
}

spec fn shifted(places: Seq<(int, int)>, n: int) -> Seq<(int, int)> {
    places.map_values(|p: (int, int)| (p.0 + n, p.1 + n))
}

proof fn places_shift(
    s: Seq<char>,
    rest: Seq<char>,
    inner: Seq<(int, int)>,
    n: int,
    first: Seq<(int, int)>,
)
    requires
        1 <= n <= s.len(),
        rest == s.skip(n),
        divide(rest, inner),
        first.len() == 0 ==> n == 1 && !stands_in_component(s[0]),
        first.len() > 0 ==> first == seq![(0int, n)] && is_component(s, (0, n)),
    ensures
        divide(s, first + shifted(inner, n)),
{
    let places = first + shifted(inner, n);
    let m = first.len() as int;
    assert forall|i: int| 0 <= i < places.len() implies is_component(s, #[trigger] places[i]) by {
        if i >= m {
            let p = inner[i - m];
            assert(is_component(rest, p));
            assert(places[i] == (p.0 + n, p.1 + n));
            assert forall|k: int| places[i].0 <= k < places[i].1 implies stands_in_component(
                #[trigger] s[k],
            ) && one_of_ten(s[k]) == one_of_ten(s[places[i].0]) by {
                assert(rest[k - n] == s[k]);
                assert(rest[p.0] == s[places[i].0]);
            }
            if places[i].1 < s.len() {
                assert(rest[p.1] == s[places[i].1]);
                assert(rest[p.0] == s[places[i].0]);
            }
        }
    }
    assert forall|i: int, j: int| 0 <= i < j < places.len() implies (#[trigger] places[i]).1 <= (
    #[trigger] places[j]).0 by {
        assert(is_component(rest, inner[j - m]));
        if i >= m {
            assert(inner[i - m].1 <= inner[j - m].0);
        }
    }
    assert forall|k: int| 0 <= k < s.len() && stands_in_component(#[trigger] s[k]) implies in_one_of(
        places,
        k,
    ) by {
        if k < n {
            assert(places[0].0 <= k < places[0].1);
        } else {
            assert(rest[k - n] == s[k]);
            assert(in_one_of(inner, k - n));
            let i = choose|i: int|
                0 <= i < inner.len() && (#[trigger] inner[i]).0 <= k - n < inner[i].1;
            assert(places[i + m].0 <= k < places[i + m].1);
        }
    }
}

/// The number that digits write: nothing writes zero, and one more digit makes
/// ten times as much and that digit.
pub proof fn digits_write_decimal_numbers(digits: Seq<char>, d: char)
    requires
        one_of_ten(d),
    ensures
        crate::version::number_of(Seq::empty()) == 0,
        crate::version::number_of(digits.push(d)) == 10 * crate::version::number_of(digits) + (
        d as int - '0' as int),
{
    assert(digits.push(d).drop_last() =~= digits);
}

/// Whether a component is a number.
pub open spec fn is_number(part: Seq<char>) -> bool {
    part.len() > 0 && forall|i: int| 0 <= i < part.len() ==> one_of_ten(#[trigger] part[i])
}

/// Whether one component is older than another: numbers by value, `pre` before
/// everything, the end of a version before what goes on, words before numbers,
/// and words by the alphabet.
pub open spec fn part_is_older(a: Seq<char>, b: Seq<char>) -> bool {
    let pre = seq!['p', 'r', 'e'];
    if is_number(a) && is_number(b) {
        crate::version::number_of(a) < crate::version::number_of(b)
    } else if a.len() == 0 && is_number(b) {
        true
    } else if a == pre && b != pre {
        true
    } else if b == pre {
        false
    } else if is_number(b) {
        true
    } else if is_number(a) {
        false
    } else {
        exists|k: int| falls_behind_at(a, b, k)
    }
}

/// The component at a place, or nothing behind the last.
pub open spec fn part(parts: Seq<Seq<char>>, k: int) -> Seq<char> {
    if 0 <= k < parts.len() {
        parts[k]
    } else {
        Seq::empty()
    }
}

/// Whether neither of the components at a place is older.
pub open spec fn level_at(a: Seq<Seq<char>>, b: Seq<Seq<char>>, k: int) -> bool {
    !part_is_older(part(a, k), part(b, k)) && !part_is_older(part(b, k), part(a, k))
}

/// Whether `k` is the first place where the components are not level, and there
/// that of `a` is older.
pub open spec fn older_at(a: Seq<Seq<char>>, b: Seq<Seq<char>>, k: int) -> bool {
    &&& 0 <= k
    &&& forall|j: int| 0 <= j < k ==> #[trigger] level_at(a, b, j)
    &&& part_is_older(part(a, k), part(b, k))
}

proof fn part_order_is_component_order(a: Seq<char>, b: Seq<char>)
    ensures
        crate::version::component_precedes(a, b) == part_is_older(a, b),
{
    texts_are_ordered_by_their_first_difference(a, b);
    let pre = seq!['p', 'r', 'e'];
    assert(!one_of_ten(pre[0]));
    assert(crate::version::pre_release() =~= pre);
    number_is_digits(a);
    number_is_digits(b);
    crate::text::precedes_is_irreflexive(a);
    if a.len() == 0 && b.len() > 0 {
        assert(falls_behind_at(a, b, 0));
    }
}

proof fn number_is_digits(a: Seq<char>)
    ensures
        crate::version::all_digits(a) && a.len() > 0 <==> is_number(a),
{
    if is_number(a) {
        assert forall|i: int| 0 <= i < a.len() implies crate::text::is_digit(#[trigger] a[i]) by {
            assert(one_of_ten(a[i]));
        }
    }
    if crate::version::all_digits(a) {
        assert forall|i: int| 0 <= i < a.len() implies one_of_ten(#[trigger] a[i]) by {
            assert(crate::text::is_digit(a[i]));
        }
    }
}

proof fn order_decides_from(a: Seq<Seq<char>>, b: Seq<Seq<char>>, i: int)
    requires
        0 <= i,
        forall|j: int| 0 <= j < i ==> #[trigger] level_at(a, b, j),
    ensures
        crate::version::order_from(a, b, i) == Order::Less ==> exists|k: int| older_at(a, b, k),
        crate::version::order_from(a, b, i) == Order::Greater ==> exists|k: int| older_at(b, a, k),
        crate::version::order_from(a, b, i) == Order::Equal ==> forall|k: int|
            0 <= k ==> #[trigger] level_at(a, b, k),
    decreases a.len() + b.len() - i,
{
    if i >= a.len() && i >= b.len() {
        assert forall|k: int| 0 <= k implies #[trigger] level_at(a, b, k) by {
            if k >= i {
                let none = Seq::<char>::empty();
                assert(part(a, k) == none && part(b, k) == none);
                assert(none != seq!['p', 'r', 'e']) by {
                    assert(seq!['p', 'r', 'e'].len() == 3);
                }
            }
        }
    } else {
        assert(crate::version::component_at(a, i) == part(a, i));
        assert(crate::version::component_at(b, i) == part(b, i));
        part_order_is_component_order(part(a, i), part(b, i));
        part_order_is_component_order(part(b, i), part(a, i));
        if part_is_older(part(a, i), part(b, i)) {
            assert(older_at(a, b, i));
        } else if part_is_older(part(b, i), part(a, i)) {
            assert forall|j: int| 0 <= j < i implies #[trigger] level_at(b, a, j) by {
                assert(level_at(a, b, j));
            }
            assert(older_at(b, a, i));
        } else {
            assert(level_at(a, b, i));
            order_decides_from(a, b, i + 1);
        }
    }
}

/// Versions are ordered by the first components of which one is older: `Less`
/// and `Greater` come exactly where there is such a place, and `Equal` where
/// there is none.
pub proof fn versions_are_ordered_by_their_first_older_component(a: Seq<char>, b: Seq<char>)
    ensures
        crate::version::order_of(a, b) == Order::Less <==> exists|k: int|
            older_at(crate::version::components_of(a), crate::version::components_of(b), k),
        crate::version::order_of(a, b) == Order::Greater <==> exists|k: int|
            older_at(crate::version::components_of(b), crate::version::components_of(a), k),
{
    let x = crate::version::components_of(a);
    let y = crate::version::components_of(b);
    order_decides_from(x, y, 0);
    if exists|k: int| older_at(x, y, k) {
        let k = choose|k: int| older_at(x, y, k);
        assert forall|m: int| !older_at(y, x, m) by {
            one_way_at_most(x, y, k, m);
        }
        assert(!level_at(x, y, k));
    }
    if exists|k: int| older_at(y, x, k) {
        let k = choose|k: int| older_at(y, x, k);
        assert(!level_at(x, y, k));
    }
}

proof fn one_way_at_most(x: Seq<Seq<char>>, y: Seq<Seq<char>>, k: int, m: int)
    requires
        older_at(x, y, k),
    ensures
        !older_at(y, x, m),
{
    if 0 <= m && older_at(y, x, m) {
        if k < m {
            assert(level_at(y, x, k));
        } else if m < k {
            assert(level_at(x, y, m));
        } else {
            part_order_is_component_order(part(x, k), part(y, k));
            part_order_is_component_order(part(y, k), part(x, k));
            crate::version::component_order_is_strict(part(x, k), part(y, k));
        }
    }
}

/// Whether a version begins with every component of a prefix.
pub open spec fn begins_with(version: Seq<char>, prefix: Seq<char>) -> bool {
    let have = crate::version::components_of(version);
    let want = crate::version::components_of(prefix);
    want.len() <= have.len() && forall|k: int| 0 <= k < want.len() ==> have[k] == #[trigger] want[k]
}

/// Whether a version is one of those asked for: any, or those that begin with a
/// prefix.
pub open spec fn asked_for(prefix: Option<Seq<char>>, version: Seq<char>) -> bool {
    match prefix {
        Some(p) => begins_with(version, p),
        None => true,
    }
}

/// A constraint accepts exactly the versions that begin with every component of
/// its prefix, and all versions where it has none.
pub proof fn constraints_accept_whole_components(c: ConstraintView, version: Seq<char>)
    ensures
        c.accepts(version) <==> asked_for(c.version, version),
{
    if let Some(prefix) = c.version {
        let want = crate::version::components_of(prefix);
        let have = crate::version::components_of(version);
        if c.accepts(version) {
            assert forall|k: int| 0 <= k < want.len() implies have[k] == #[trigger] want[k] by {
                assert(want[k] == have.subrange(0, want.len() as int)[k]);
            }
        }
        if begins_with(version, prefix) {
            assert(want =~= have.subrange(0, want.len() as int)) by {
                assert forall|k: int| 0 <= k < want.len() implies want[k] == have.subrange(
                    0,
                    want.len() as int,
                )[k] by {
                    assert(have[k] == want[k]);
                }
            }
        }
    }
}

/// A version with as many components as the prefix is accepted only where it has
/// the same components.
pub proof fn equally_long_versions_accept_their_like(
    attr: Seq<char>,
    prefix: Seq<char>,
    version: Seq<char>,
)
    requires
        crate::version::components_of(prefix).len() == crate::version::components_of(version).len(),
    ensures
        (ConstraintView { attr, version: Some(prefix) }).accepts(version)
            <==> crate::version::components_of(prefix) == crate::version::components_of(version),
{
    let c = ConstraintView { attr, version: Some(prefix) };
    let want = crate::version::components_of(prefix);
    let have = crate::version::components_of(version);
    constraints_accept_whole_components(c, version);
    if c.accepts(version) {
        assert forall|k: int| 0 <= k < want.len() implies want[k] == have[k] by {
            assert(have[k] == want[k]);
        }
        assert(want =~= have);
    }
}

/// Whether a text is written as this constraint: the attribute alone, or the
/// attribute, an `@` and the version.
pub open spec fn written_as(s: Seq<char>, c: ConstraintView) -> bool {
    &&& c.attr.len() > 0
    &&& !c.attr.contains('@')
    &&& match c.version {
        Some(version) => version.len() > 0 && s == c.attr.push('@') + version,
        None => s == c.attr,
    }
}

proof fn at_sign_divides(s: Seq<char>, i: int)
    requires
        0 <= i <= s.len(),
        forall|k: int| 0 <= k < i ==> #[trigger] s[k] != '@',
    ensures
        i <= crate::constraint::at_sign(s, i) <= s.len(),
        forall|k: int| 0 <= k < crate::constraint::at_sign(s, i) ==> #[trigger] s[k] != '@',
        crate::constraint::at_sign(s, i) < s.len() ==> s[crate::constraint::at_sign(s, i)] == '@',
    decreases s.len() - i,
{
    if i < s.len() && s[i] != '@' {
        at_sign_divides(s, i + 1);
    }
}

proof fn same_first_at_sign(s: Seq<char>, attr: Seq<char>, rest: Seq<char>, at: int)
    requires
        s == attr.push('@') + rest,
        !attr.contains('@'),
        0 <= at < s.len(),
        s[at] == '@',
        forall|k: int| 0 <= k < at ==> #[trigger] s[k] != '@',
    ensures
        at == attr.len(),
        s.take(at) == attr,
        s.skip(at + 1) == rest,
{
    let n = attr.len() as int;
    assert(s[n] == '@');
    if at < n {
        assert(s[at] == attr[at]);
        assert(attr.contains(attr[at]));
    }
    assert(s.take(at) =~= attr);
    assert(s.skip(at + 1) =~= rest);
}

/// A text is a constraint exactly where it is written as one, and then it is
/// that one. What ends in its first `@` lacks a version; what else is not a
/// constraint lacks an attribute.
pub proof fn parsing_reads_what_is_written(s: Seq<char>, c: ConstraintView, attr: Seq<char>)
    ensures
        crate::constraint::parsed(s) == Ok::<ConstraintView, Failure<Seq<char>>>(c)
            <==> written_as(s, c),
        crate::constraint::parsed(s) == Err::<ConstraintView, Failure<Seq<char>>>(
            Failure::NoVersion { attr },
        ) <==> !attr.contains('@') && s == attr.push('@'),
        crate::constraint::parsed(s) == Err::<ConstraintView, Failure<Seq<char>>>(
            Failure::NoAttribute { spec: attr },
        ) <==> attr == s && (s.len() == 0 || (s.len() > 1 && s[0] == '@')),
{
    at_sign_divides(s, 0);
    let at = crate::constraint::at_sign(s, 0);
    if at < s.len() {
        assert(s =~= s.take(at).push('@') + s.skip(at + 1));
        assert(!s.take(at).contains('@')) by {
            if s.take(at).contains('@') {
                let k = choose|k: int| 0 <= k < at && s.take(at)[k] == '@';
                assert(s[k] == '@');
            }
        }
        if at + 1 == s.len() {
            assert(s =~= s.take(at).push('@'));
        }
        if !c.attr.contains('@') && c.version is Some && s == c.attr.push('@') + c.version->0 {
            same_first_at_sign(s, c.attr, c.version->0, at);
        }
        if c.version is None && s == c.attr {
            assert(c.attr.contains(s[at]));
        }
        if !attr.contains('@') && s == attr.push('@') {
            assert(s =~= attr.push('@') + Seq::<char>::empty());
            same_first_at_sign(s, attr, Seq::empty(), at);
            assert(s.skip(at + 1).len() == 0);
        }
    } else {
        assert(!s.contains('@')) by {
            if s.contains('@') {
                let k = choose|k: int| 0 <= k < s.len() && s[k] == '@';
                assert(s[k] != '@');
            }
        }
        if c.version is Some && s == c.attr.push('@') + c.version->0 {
            assert(s[c.attr.len() as int] == '@');
        }
        if s == attr.push('@') {
            assert(s[attr.len() as int] == '@');
        }
        if s.len() > 1 {
            assert(s[0] != '@');
        }
    }
}

} // verus!
