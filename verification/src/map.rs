//! A map keyed by text that hands its entries out in key order.

use vstd::prelude::*;

use crate::text::{before, same};

verus! {

/// A map from text to values, held as entries sorted by key.
#[derive(Debug)]
pub struct StringMap<V> {
    entries: Vec<(String, V)>,
}

/// Whether the keys of these entries ascend strictly.
pub open spec fn ascending<V>(entries: Seq<(String, V)>) -> bool {
    forall|i: int, j: int|
        0 <= i < j < entries.len() ==> crate::text::precedes(
            #[trigger] entries[i].0@,
            #[trigger] entries[j].0@,
        )
}

/// Whether `key` is the key of one of these entries.
pub open spec fn has_key<V>(entries: Seq<(String, V)>, key: Seq<char>) -> bool {
    exists|i: int| 0 <= i < entries.len() && #[trigger] entries[i].0@ == key
}

/// The value of the entry with this key.
pub open spec fn value_of<V>(entries: Seq<(String, V)>, key: Seq<char>) -> V {
    entries[choose|i: int| 0 <= i < entries.len() && #[trigger] entries[i].0@ == key].1
}

/// The map that a sequence of entries with ascending keys stands for.
pub open spec fn map_of<V>(entries: Seq<(String, V)>) -> Map<Seq<char>, V> {
    Map::new(|key: Seq<char>| has_key(entries, key), |key: Seq<char>| value_of(entries, key))
}

/// Whether `entries` are all the entries of `map`, in ascending key order.
pub open spec fn lists<V>(entries: Seq<(String, V)>, map: Map<Seq<char>, V>) -> bool {
    &&& ascending(entries)
    &&& forall|i: int|
        0 <= i < entries.len() ==> map.contains_key(#[trigger] entries[i].0@)
            && map[entries[i].0@] == entries[i].1
    &&& forall|key: Seq<char>| #[trigger] map.contains_key(key) ==> has_key(entries, key)
}

impl<V> View for StringMap<V> {
    type V = Map<Seq<char>, V>;

    closed spec fn view(&self) -> Map<Seq<char>, V> {
        map_of(self.entries@)
    }
}

/// Ascending keys are distinct, so an entry is found under its own key.
pub proof fn entry_is_found<V>(entries: Seq<(String, V)>, i: int)
    requires
        ascending(entries),
        0 <= i < entries.len(),
    ensures
        has_key(entries, entries[i].0@),
        value_of(entries, entries[i].0@) == entries[i].1,
{
    let key = entries[i].0@;
    assert(entries[i].0@ == key);
    let j = choose|j: int| 0 <= j < entries.len() && #[trigger] entries[j].0@ == key;
    crate::text::precedes_is_irreflexive(key);
}

proof fn entries_list_their_map<V>(entries: Seq<(String, V)>)
    requires
        ascending(entries),
    ensures
        lists(entries, map_of(entries)),
{
    assert forall|i: int| 0 <= i < entries.len() implies map_of(entries).contains_key(
        #[trigger] entries[i].0@,
    ) && map_of(entries)[entries[i].0@] == entries[i].1 by {
        entry_is_found(entries, i);
    }
}

/// One more entry brings one more key.
pub proof fn one_more_key<V>(entries: Seq<(String, V)>, i: int, key: Seq<char>)
    requires
        0 <= i < entries.len(),
    ensures
        has_key(entries.take(i + 1), key) <==> has_key(entries.take(i), key) || key
            == entries[i].0@,
{
    let taken = entries.take(i);
    let now = entries.take(i + 1);
    if has_key(taken, key) {
        let k = choose|k: int| 0 <= k < taken.len() && #[trigger] taken[k].0@ == key;
        assert(now[k].0@ == key);
    }
    if has_key(now, key) {
        let k = choose|k: int| 0 <= k < now.len() && #[trigger] now[k].0@ == key;
        if k < i {
            assert(taken[k].0@ == key);
        }
    }
    if key == entries[i].0@ {
        assert(now[i].0@ == key);
    }
}

/// The keys of the entries before one precede its key.
pub proof fn earlier_key_precedes<V>(entries: Seq<(String, V)>, i: int, key: Seq<char>)
    requires
        ascending(entries),
        0 <= i < entries.len(),
        has_key(entries.take(i), key),
    ensures
        crate::text::precedes(key, entries[i].0@),
{
    let taken = entries.take(i);
    let k = choose|k: int| 0 <= k < taken.len() && #[trigger] taken[k].0@ == key;
    assert(crate::text::precedes(entries[k].0@, entries[i].0@));
}

/// The key of an entry is not the key of an earlier one.
pub proof fn key_is_new<V>(entries: Seq<(String, V)>, i: int)
    requires
        ascending(entries),
        0 <= i < entries.len(),
    ensures
        !has_key(entries.take(i), entries[i].0@),
{
    if has_key(entries.take(i), entries[i].0@) {
        earlier_key_precedes(entries, i, entries[i].0@);
        crate::text::precedes_is_irreflexive(entries[i].0@);
    }
}

/// The keys of these entries, in their order.
pub open spec fn keys<V>(entries: Seq<(String, V)>) -> Seq<Seq<char>> {
    entries.map_values(|e: (String, V)| e.0@)
}

/// The keys of a listing are those of the map, in ascending order.
pub proof fn listed_keys<V>(entries: Seq<(String, V)>, map: Map<Seq<char>, V>)
    requires
        lists(entries, map),
    ensures
        crate::text::orders(keys(entries), map.dom()),
{
    let all = keys(entries);
    assert forall|i: int, j: int| 0 <= i < j < all.len() implies crate::text::precedes(
        #[trigger] all[i],
        #[trigger] all[j],
    ) by {
        assert(crate::text::precedes(entries[i].0@, entries[j].0@));
    }
    assert forall|key: Seq<char>| #[trigger] all.contains(key) <==> map.dom().contains(key) by {
        if all.contains(key) {
            let k = choose|k: int| 0 <= k < all.len() && all[k] == key;
            assert(map.contains_key(entries[k].0@));
        }
        if map.contains_key(key) {
            let k = choose|k: int| 0 <= k < entries.len() && #[trigger] entries[k].0@ == key;
            assert(all[k] == key);
        }
    }
}

/// A listing of a map stands for that map.
pub proof fn listing_stands_for_map<V>(entries: Seq<(String, V)>, map: Map<Seq<char>, V>)
    requires
        lists(entries, map),
    ensures
        map_of(entries) == map,
{
    assert forall|key: Seq<char>| has_key(entries, key) <==> #[trigger] map.contains_key(key) by {
        if has_key(entries, key) {
            let k = choose|k: int| 0 <= k < entries.len() && #[trigger] entries[k].0@ == key;
            assert(map.contains_key(entries[k].0@));
        }
    }
    assert forall|key: Seq<char>| #[trigger] map.contains_key(key) implies value_of(entries, key)
        == map[key] by {
        let k = choose|k: int| 0 <= k < entries.len() && #[trigger] entries[k].0@ == key;
        assert(map[entries[k].0@] == entries[k].1);
    }
    assert(map_of(entries) =~= map);
}

/// A map has one ascending list of entries: two lists of it have the same
/// length, and the same key and value at each place.
pub proof fn listing_is_unique<V>(
    a: Seq<(String, V)>,
    b: Seq<(String, V)>,
    map: Map<Seq<char>, V>,
)
    requires
        lists(a, map),
        lists(b, map),
    ensures
        a.len() == b.len(),
        forall|i: int|
            0 <= i < a.len() ==> (#[trigger] a[i]).0@ == b[i].0@ && a[i].1 == b[i].1,
{
    listing_prefix(a, b, map, a.len() as int);
    listing_prefix(b, a, map, b.len() as int);
}

proof fn listing_prefix<V>(
    a: Seq<(String, V)>,
    b: Seq<(String, V)>,
    map: Map<Seq<char>, V>,
    n: int,
)
    requires
        lists(a, map),
        lists(b, map),
        0 <= n <= a.len(),
    ensures
        n <= b.len(),
        forall|i: int|
            0 <= i < n ==> (#[trigger] a[i]).0@ == b[i].0@ && a[i].1 == b[i].1,
    decreases n,
{
    if n > 0 {
        listing_prefix(a, b, map, n - 1);
        let k = a[n - 1].0@;
        assert(map.contains_key(k));
        let j = choose|j: int| 0 <= j < b.len() && #[trigger] b[j].0@ == k;
        if j < n - 1 {
            assert(a[j].0@ == b[j].0@);
            crate::text::precedes_is_irreflexive(k);
            assert(false);
        }
        if j > n - 1 {
            let l = b[n - 1].0@;
            assert(map.contains_key(l));
            let m = choose|m: int| 0 <= m < a.len() && #[trigger] a[m].0@ == l;
            assert(crate::text::precedes(b[n - 1].0@, b[j].0@));
            if m < n - 1 {
                assert(a[m].0@ == b[m].0@);
                crate::text::precedes_is_irreflexive(l);
            } else if m == n - 1 {
                crate::text::precedes_is_irreflexive(l);
            } else {
                assert(crate::text::precedes(a[n - 1].0@, a[m].0@));
                crate::text::precedes_is_transitive(k, l, k);
                crate::text::precedes_is_irreflexive(k);
            }
            assert(false);
        }
    }
}

proof fn insertion_keeps_order<V>(entries: Seq<(String, V)>, at: int, entry: (String, V))
    requires
        ascending(entries),
        0 <= at <= entries.len(),
        forall|i: int|
            0 <= i < at ==> crate::text::precedes(#[trigger] entries[i].0@, entry.0@),
        forall|i: int|
            at <= i < entries.len() ==> crate::text::precedes(entry.0@, #[trigger] entries[i].0@),
    ensures
        ascending(entries.insert(at, entry)),
        map_of(entries.insert(at, entry)) == map_of(entries).insert(entry.0@, entry.1),
        !has_key(entries, entry.0@),
{
    let new = entries.insert(at, entry);
    assert(forall|i: int| 0 <= i < at ==> new[i] == entries[i]);
    assert(forall|i: int| at < i < new.len() ==> new[i] == entries[i - 1]);
    assert(new[at] == entry);
    assert(ascending(new));
    if has_key(entries, entry.0@) {
        let i = choose|i: int| 0 <= i < entries.len() && #[trigger] entries[i].0@ == entry.0@;
        crate::text::precedes_is_irreflexive(entry.0@);
    }
    assert forall|key: Seq<char>| has_key(new, key) <==> has_key(entries, key) || key
        == entry.0@ by {
        if has_key(entries, key) {
            let i = choose|i: int| 0 <= i < entries.len() && #[trigger] entries[i].0@ == key;
            if i < at {
                assert(new[i].0@ == key);
            } else {
                assert(new[i + 1].0@ == key);
            }
        }
        if key == entry.0@ {
            assert(new[at].0@ == key);
        }
    }
    assert forall|key: Seq<char>| has_key(entries, key) implies value_of(new, key) == value_of(
        entries,
        key,
    ) by {
        let i = choose|i: int| 0 <= i < entries.len() && #[trigger] entries[i].0@ == key;
        entry_is_found(entries, i);
        if i < at {
            entry_is_found(new, i);
        } else {
            entry_is_found(new, i + 1);
        }
    }
    entry_is_found(new, at);
    assert(map_of(new) =~= map_of(entries).insert(entry.0@, entry.1));
}

impl<V> StringMap<V> {
    #[verifier::type_invariant]
    spec fn sorted(self) -> bool {
        ascending(self.entries@)
    }

    /// A map without entries.
    pub fn new() -> (r: StringMap<V>)
        ensures
            r@ == Map::<Seq<char>, V>::empty(),
    {
        let r = StringMap { entries: Vec::new() };
        assert(r@ =~= Map::<Seq<char>, V>::empty());
        r
    }

    /// Every entry, in ascending key order.
    pub fn entries(&self) -> (r: &Vec<(String, V)>)
        ensures
            lists(r@, self@),
    {
        proof {
            use_type_invariant(self);
            entries_list_their_map(self.entries@);
        }
        &self.entries
    }

    /// The first place whose key does not precede `key`.
    fn place(&self, key: &str) -> (at: usize)
        ensures
            at <= self.entries@.len(),
            forall|i: int|
                0 <= i < at ==> crate::text::precedes(#[trigger] self.entries@[i].0@, key@),
            at < self.entries@.len() ==> !crate::text::precedes(self.entries@[at as int].0@, key@),
    {
        let mut at: usize = 0;
        while at < self.entries.len() && before(self.entries[at].0.as_str(), key)
            invariant
                at <= self.entries@.len(),
                forall|i: int|
                    0 <= i < at ==> crate::text::precedes(#[trigger] self.entries@[i].0@, key@),
            decreases self.entries@.len() - at,
        {
            at = at + 1;
        }
        at
    }

    /// At the place of `key`, either the key stands there or all that follows
    /// comes after it.
    proof fn place_divides(entries: Seq<(String, V)>, key: Seq<char>, at: int)
        requires
            ascending(entries),
            0 <= at <= entries.len(),
            forall|i: int|
                0 <= i < at ==> crate::text::precedes(#[trigger] entries[i].0@, key),
            at < entries.len() ==> !crate::text::precedes(entries[at].0@, key),
        ensures
            at < entries.len() && entries[at].0@ == key ==> has_key(entries, key) && value_of(
                entries,
                key,
            ) == entries[at].1,
            !(at < entries.len() && entries[at].0@ == key) ==> !has_key(entries, key) && (forall|
                i: int,
            |
                at <= i < entries.len() ==> crate::text::precedes(
                    key,
                    #[trigger] entries[i].0@,
                )),
    {
        if at < entries.len() && entries[at].0@ == key {
            entry_is_found(entries, at);
        } else {
            if at < entries.len() {
                crate::text::precedes_is_total(entries[at].0@, key);
                assert forall|i: int| at <= i < entries.len() implies crate::text::precedes(
                    key,
                    #[trigger] entries[i].0@,
                ) by {
                    if i > at {
                        crate::text::precedes_is_transitive(key, entries[at].0@, entries[i].0@);
                    }
                }
            }
            if has_key(entries, key) {
                let i = choose|i: int| 0 <= i < entries.len() && #[trigger] entries[i].0@ == key;
                crate::text::precedes_is_irreflexive(key);
            }
        }
    }

    /// The value under a key.
    pub fn get(&self, key: &str) -> (r: Option<&V>)
        ensures
            r matches Some(v) ==> self@.contains_key(key@) && *v == self@[key@],
            r is None ==> !self@.contains_key(key@),
    {
        let at: usize = self.place(key);
        proof {
            use_type_invariant(self);
            Self::place_divides(self.entries@, key@, at as int);
        }
        if at < self.entries.len() && same(self.entries[at].0.as_str(), key) {
            Some(&self.entries[at].1)
        } else {
            None
        }
    }

    /// Whether a key is present.
    pub fn contains_key(&self, key: &str) -> (r: bool)
        ensures
            r == self@.contains_key(key@),
    {
        match self.get(key) {
            Some(_) => true,
            None => false,
        }
    }

    /// The number of entries.
    pub fn len(&self) -> (r: usize)
        ensures
            self@.dom().finite(),
            r == self@.dom().len(),
    {
        proof {
            use_type_invariant(self);
            let keys = self.entries@.map_values(|e: (String, V)| e.0@);
            assert(keys.no_duplicates()) by {
                assert forall|i: int, j: int|
                    0 <= i < keys.len() && 0 <= j < keys.len() && i != j implies keys[i]
                    != keys[j] by {
                    crate::text::precedes_is_irreflexive(keys[i]);
                    if i < j {
                        assert(crate::text::precedes(
                            self.entries@[i].0@,
                            self.entries@[j].0@,
                        ));
                    } else {
                        assert(crate::text::precedes(
                            self.entries@[j].0@,
                            self.entries@[i].0@,
                        ));
                    }
                }
            }
            keys.unique_seq_to_set();
            assert forall|k: Seq<char>| self@.dom().contains(k) <==> keys.to_set().contains(k) by {
                if self@.dom().contains(k) {
                    let i = choose|i: int|
                        0 <= i < self.entries@.len() && #[trigger] self.entries@[i].0@ == k;
                    assert(keys[i] == k);
                }
                if keys.to_set().contains(k) {
                    let i = choose|i: int| 0 <= i < keys.len() && keys[i] == k;
                    assert(self.entries@[i].0@ == k);
                }
            }
            assert(self@.dom() =~= keys.to_set());
        }
        self.entries.len()
    }

    /// Put a value under a key, giving back the value that was there.
    pub fn insert(&mut self, key: String, value: V) -> (r: Option<V>)
        ensures
            final(self)@ == old(self)@.insert(key@, value),
            r matches Some(v) ==> old(self)@.contains_key(key@) && v == old(self)@[key@],
            r is None ==> !old(self)@.contains_key(key@),
    {
        let at: usize = self.place(key.as_str());
        let present: bool = at < self.entries.len() && same(
            self.entries[at].0.as_str(),
            key.as_str(),
        );
        proof {
            use_type_invariant(&*self);
            Self::place_divides(self.entries@, key@, at as int);
        }
        let mut entries: Vec<(String, V)> = Vec::new();
        std::mem::swap(&mut entries, &mut self.entries);
        let ghost before_change = entries@;
        if present {
            let (_, old_value) = entries.remove(at);
            let ghost rest = entries@;
            proof {
                removal_keeps_order(before_change, at as int);
                removal_then_insertion(before_change, at as int, key, value);
            }
            entries.insert(at, (key, value));
            proof {
                assert(map_of(entries@) =~= map_of(before_change).insert(key@, value));
            }
            self.entries = entries;
            Some(old_value)
        } else {
            proof {
                insertion_keeps_order(before_change, at as int, (key, value));
            }
            entries.insert(at, (key, value));
            self.entries = entries;
            None
        }
    }

    /// Take a key out, giving back its value.
    pub fn remove(&mut self, key: &str) -> (r: Option<V>)
        ensures
            final(self)@ == old(self)@.remove(key@),
            r matches Some(v) ==> old(self)@.contains_key(key@) && v == old(self)@[key@],
            r is None ==> !old(self)@.contains_key(key@),
    {
        let at: usize = self.place(key);
        let present: bool = at < self.entries.len() && same(self.entries[at].0.as_str(), key);
        proof {
            use_type_invariant(&*self);
            Self::place_divides(self.entries@, key@, at as int);
        }
        if present {
            let mut entries: Vec<(String, V)> = Vec::new();
            std::mem::swap(&mut entries, &mut self.entries);
            let ghost before_change = entries@;
            proof {
                removal_keeps_order(before_change, at as int);
            }
            let (_, old_value) = entries.remove(at);
            self.entries = entries;
            Some(old_value)
        } else {
            assert(self@.remove(key@) =~= self@);
            None
        }
    }
}

proof fn removal_keeps_order<V>(entries: Seq<(String, V)>, at: int)
    requires
        ascending(entries),
        0 <= at < entries.len(),
    ensures
        ascending(entries.remove(at)),
        map_of(entries.remove(at)) == map_of(entries).remove(entries[at].0@),
{
    let key = entries[at].0@;
    let new = entries.remove(at);
    assert(forall|i: int| 0 <= i < at ==> new[i] == entries[i]);
    assert(forall|i: int| at <= i < new.len() ==> new[i] == entries[i + 1]);
    assert(ascending(new));
    assert forall|k: Seq<char>| has_key(new, k) <==> has_key(entries, k) && k != key by {
        if has_key(new, k) {
            let i = choose|i: int| 0 <= i < new.len() && #[trigger] new[i].0@ == k;
            crate::text::precedes_is_irreflexive(key);
            if i < at {
                assert(entries[i].0@ == k);
            } else {
                assert(entries[i + 1].0@ == k);
            }
        }
        if has_key(entries, k) && k != key {
            let i = choose|i: int| 0 <= i < entries.len() && #[trigger] entries[i].0@ == k;
            if i < at {
                assert(new[i].0@ == k);
            } else {
                assert(new[i - 1].0@ == k);
            }
        }
    }
    assert forall|k: Seq<char>| has_key(new, k) implies value_of(new, k) == value_of(
        entries,
        k,
    ) by {
        let i = choose|i: int| 0 <= i < new.len() && #[trigger] new[i].0@ == k;
        entry_is_found(new, i);
        if i < at {
            entry_is_found(entries, i);
        } else {
            entry_is_found(entries, i + 1);
        }
    }
    assert(map_of(new) =~= map_of(entries).remove(key));
}

proof fn removal_then_insertion<V>(entries: Seq<(String, V)>, at: int, key: String, value: V)
    requires
        ascending(entries),
        0 <= at < entries.len(),
        entries[at].0@ == key@,
    ensures
        ascending(entries.remove(at).insert(at, (key, value))),
        map_of(entries.remove(at).insert(at, (key, value))) == map_of(entries).insert(
            key@,
            value,
        ),
{
    let rest = entries.remove(at);
    removal_keeps_order(entries, at);
    assert forall|i: int| 0 <= i < at implies crate::text::precedes(
        #[trigger] rest[i].0@,
        key@,
    ) by {
        assert(rest[i] == entries[i]);
    }
    assert forall|i: int| at <= i < rest.len() implies crate::text::precedes(
        key@,
        #[trigger] rest[i].0@,
    ) by {
        assert(rest[i] == entries[i + 1]);
    }
    insertion_keeps_order(rest, at, (key, value));
    assert(map_of(entries).remove(key@).insert(key@, value) =~= map_of(entries).insert(
        key@,
        value,
    ));
}

} // verus!
