//! Strings as sequences of characters: reading, comparing and writing them.

use vstd::prelude::*;

use vstd::string::StringExecFns;
use vstd::string::StrSliceExecFns;

verus! {

/// Whether `a` sorts strictly before `b`: at the first position where they
/// differ `a` has the smaller character, or `a` is a proper prefix of `b`.
pub open spec fn precedes(a: Seq<char>, b: Seq<char>) -> bool
    decreases a.len(),
{
    if b.len() == 0 {
        false
    } else if a.len() == 0 {
        true
    } else if a[0] != b[0] {
        (a[0] as int) < (b[0] as int)
    } else {
        precedes(a.drop_first(), b.drop_first())
    }
}

/// No text precedes itself.
pub proof fn precedes_is_irreflexive(a: Seq<char>)
    ensures
        !precedes(a, a),
    decreases a.len(),
{
    if a.len() > 0 {
        precedes_is_irreflexive(a.drop_first());
    }
}

/// The order of texts is transitive.
pub proof fn precedes_is_transitive(a: Seq<char>, b: Seq<char>, c: Seq<char>)
    requires
        precedes(a, b),
        precedes(b, c),
    ensures
        precedes(a, c),
    decreases a.len(),
{
    if a.len() > 0 && b.len() > 0 && c.len() > 0 && a[0] == b[0] && b[0] == c[0] {
        precedes_is_transitive(a.drop_first(), b.drop_first(), c.drop_first());
    }
}

/// Two different texts are always ordered.
pub proof fn precedes_is_total(a: Seq<char>, b: Seq<char>)
    requires
        a != b,
    ensures
        precedes(a, b) || precedes(b, a),
    decreases a.len(),
{
    if a.len() == 0 || b.len() == 0 {
        assert(a.len() == 0 && b.len() == 0 ==> a =~= b);
    } else if a[0] == b[0] {
        if a.drop_first() == b.drop_first() {
            assert(a =~= seq![a[0]] + a.drop_first());
            assert(b =~= seq![b[0]] + b.drop_first());
        }
        precedes_is_total(a.drop_first(), b.drop_first());
    }
}

/// What a sequence of strings holds, string by string.
pub open spec fn texts(strings: Seq<String>) -> Seq<Seq<char>> {
    strings.map_values(|s: String| s@)
}

/// The characters of a string.
pub fn characters(s: &str) -> (r: Vec<char>)
    ensures
        r@ == s@,
{
    let mut out: Vec<char> = Vec::new();
    for c in it: s.chars()
        invariant
            out@ == it.seq().take(it.index()),
            it.seq() == s@,
    {
        out.push(c);
    }
    out
}

/// Whether two strings hold the same characters.
pub fn same(a: &str, b: &str) -> (r: bool)
    ensures
        r == (a@ == b@),
{
    a.to_owned() == b.to_owned()
}

/// Whether one string sorts strictly before another.
pub fn before(a: &str, b: &str) -> (r: bool)
    ensures
        r == precedes(a@, b@),
{
    let x: Vec<char> = characters(a);
    let y: Vec<char> = characters(b);
    let mut i: usize = 0;
    proof {
        assert(a@.skip(0) =~= a@);
        assert(b@.skip(0) =~= b@);
    }
    while i < x.len() && i < y.len()
        invariant
            i <= x@.len(),
            i <= y@.len(),
            x@ == a@,
            y@ == b@,
            precedes(a@, b@) == precedes(a@.skip(i as int), b@.skip(i as int)),
        decreases x@.len() - i,
    {
        if x[i] != y[i] {
            return x[i] < y[i];
        }
        proof {
            assert(a@.skip(i as int).drop_first() =~= a@.skip(i + 1));
            assert(b@.skip(i as int).drop_first() =~= b@.skip(i + 1));
        }
        i = i + 1;
    }
    i < y.len()
}

/// Whether a character is a decimal digit.
pub open spec fn is_digit(c: char) -> bool {
    '0' <= c && c <= '9'
}

/// The character that writes one decimal digit.
pub open spec fn digit(d: int) -> char {
    if d == 0 {
        '0'
    } else if d == 1 {
        '1'
    } else if d == 2 {
        '2'
    } else if d == 3 {
        '3'
    } else if d == 4 {
        '4'
    } else if d == 5 {
        '5'
    } else if d == 6 {
        '6'
    } else if d == 7 {
        '7'
    } else if d == 8 {
        '8'
    } else {
        '9'
    }
}

/// A natural number written in decimal, without leading zeros.
pub open spec fn decimal(n: nat) -> Seq<char>
    decreases n,
{
    if n < 10 {
        seq![digit(n as int)]
    } else {
        decimal(n / 10).push(digit((n % 10) as int))
    }
}

fn digit_text(d: u64) -> (r: &'static str)
    requires
        d < 10,
    ensures
        r@ == seq![digit(d as int)],
{
    proof {
        reveal_strlit("0");
        reveal_strlit("1");
        reveal_strlit("2");
        reveal_strlit("3");
        reveal_strlit("4");
        reveal_strlit("5");
        reveal_strlit("6");
        reveal_strlit("7");
        reveal_strlit("8");
        reveal_strlit("9");
    }
    if d == 0 {
        "0"
    } else if d == 1 {
        "1"
    } else if d == 2 {
        "2"
    } else if d == 3 {
        "3"
    } else if d == 4 {
        "4"
    } else if d == 5 {
        "5"
    } else if d == 6 {
        "6"
    } else if d == 7 {
        "7"
    } else if d == 8 {
        "8"
    } else {
        "9"
    }
}

/// Write a number in decimal.
pub fn number(n: u64) -> (r: String)
    ensures
        r@ == decimal(n as nat),
    decreases n,
{
    if n < 10 {
        digit_text(n).to_owned()
    } else {
        let mut out: String = number(n / 10);
        out.append(digit_text(n % 10));
        proof {
            assert(out@ =~= decimal((n / 10) as nat).push(digit((n % 10) as int)));
        }
        out
    }
}

/// Texts one after the other, with a separator between each two.
pub open spec fn separated(parts: Seq<Seq<char>>, separator: Seq<char>) -> Seq<char>
    decreases parts.len(),
{
    if parts.len() == 0 {
        Seq::empty()
    } else if parts.len() == 1 {
        parts[0]
    } else {
        separated(parts.drop_last(), separator) + separator + parts.last()
    }
}

/// Write strings one after the other, with a separator between each two.
pub fn join(parts: &Vec<String>, separator: &str) -> (r: String)
    ensures
        r@ == separated(texts(parts@), separator@),
{
    let ghost all = texts(parts@);
    let mut out: String = String::new();
    let mut i: usize = 0;
    while i < parts.len()
        invariant
            i <= parts@.len(),
            all == texts(parts@),
            out@ == separated(all.take(i as int), separator@),
        decreases parts@.len() - i,
    {
        proof {
            assert(all.take(i + 1).drop_last() =~= all.take(i as int));
            assert(all.take(i + 1).last() == parts@[i as int]@);
        }
        if i > 0 {
            out.append(separator);
        }
        out.append(parts[i].as_str());
        assert(i == 0 ==> out@ =~= parts@[0]@);
        i = i + 1;
    }
    assert(all.take(all.len() as int) =~= all);
    out
}

/// Whether texts ascend strictly.
pub open spec fn ascends(keys: Seq<Seq<char>>) -> bool {
    forall|i: int, j: int|
        0 <= i < j < keys.len() ==> precedes(#[trigger] keys[i], #[trigger] keys[j])
}

/// Whether these are all the texts of a set, in ascending order.
pub open spec fn orders(keys: Seq<Seq<char>>, set: Set<Seq<char>>) -> bool {
    &&& ascends(keys)
    &&& forall|key: Seq<char>| #[trigger] keys.contains(key) <==> set.contains(key)
}

/// A text that follows all of a set is the last of the set and itself.
pub proof fn order_grows(keys: Seq<Seq<char>>, set: Set<Seq<char>>, key: Seq<char>)
    requires
        orders(keys, set),
        forall|k: Seq<char>| #[trigger] set.contains(k) ==> precedes(k, key),
    ensures
        orders(keys.push(key), set.insert(key)),
{
    let more = keys.push(key);
    assert forall|i: int, j: int| 0 <= i < j < more.len() implies precedes(
        #[trigger] more[i],
        #[trigger] more[j],
    ) by {
        assert(keys.contains(keys[i]));
        if j < keys.len() {
            assert(precedes(keys[i], keys[j]));
        }
    }
    assert forall|k: Seq<char>| #[trigger] more.contains(k) <==> set.insert(key).contains(k) by {
        if more.contains(k) {
            let i = choose|i: int| 0 <= i < more.len() && more[i] == k;
            if i < keys.len() {
                assert(keys[i] == k);
                assert(keys.contains(k));
            }
        }
        if set.contains(k) {
            assert(keys.contains(k));
            let i = choose|i: int| 0 <= i < keys.len() && keys[i] == k;
            assert(more[i] == k);
        }
        assert(more[keys.len() as int] == key);
    }
}

/// A set of texts has one ascending order.
pub proof fn order_is_unique(a: Seq<Seq<char>>, b: Seq<Seq<char>>, set: Set<Seq<char>>)
    requires
        orders(a, set),
        orders(b, set),
    ensures
        a == b,
{
    order_prefix(a, b, set, a.len() as int);
    order_prefix(b, a, set, b.len() as int);
    assert(a =~= b);
}

proof fn order_prefix(a: Seq<Seq<char>>, b: Seq<Seq<char>>, set: Set<Seq<char>>, n: int)
    requires
        orders(a, set),
        orders(b, set),
        0 <= n <= a.len(),
    ensures
        n <= b.len(),
        forall|i: int| 0 <= i < n ==> #[trigger] a[i] == b[i],
    decreases n,
{
    if n > 0 {
        order_prefix(a, b, set, n - 1);
        let m = n - 1;
        assert(a.contains(a[m]));
        assert(b.contains(a[m]));
        let j = choose|j: int| 0 <= j < b.len() && b[j] == a[m];
        precedes_is_irreflexive(a[m]);
        if j < m {
            assert(a[j] == b[j]);
            assert(precedes(a[j], a[m]));
        }
        if j > m {
            assert(precedes(b[m], b[j]));
            assert(b.contains(b[m]));
            assert(a.contains(b[m]));
            let k = choose|k: int| 0 <= k < a.len() && a[k] == b[m];
            if k < m {
                assert(a[k] == b[k]);
                assert(precedes(b[k], b[m]));
                precedes_is_irreflexive(b[m]);
            } else if k > m {
                assert(precedes(a[m], a[k]));
                precedes_is_transitive(a[m], a[k], b[j]);
            }
        }
    }
}

/// Every finite set of texts has an ascending order.
pub proof fn order_exists(set: Set<Seq<char>>) -> (keys: Seq<Seq<char>>)
    requires
        set.finite(),
    ensures
        orders(keys, set),
    decreases set.len(),
{
    if set.len() == 0 {
        assert(set =~= Set::empty());
        Seq::empty()
    } else {
        let key = set.choose();
        let rest = set.remove(key);
        let below = rest.filter(|k: Seq<char>| precedes(k, key));
        let above = rest.filter(|k: Seq<char>| precedes(key, k));
        vstd::set_lib::lemma_len_subset(below, rest);
        vstd::set_lib::lemma_len_subset(above, rest);
        let first = order_exists(below);
        let last = order_exists(above);
        let keys = first.push(key) + last;
        let n = first.len() as int;
        assert forall|i: int, j: int| 0 <= i < j < keys.len() implies precedes(
            #[trigger] keys[i],
            #[trigger] keys[j],
        ) by {
            if i < n {
                assert(first.contains(first[i]));
            }
            if j > n {
                assert(last.contains(last[j - n - 1]));
            }
            if j < n {
                assert(precedes(first[i], first[j]));
            } else if i > n {
                assert(precedes(last[i - n - 1], last[j - n - 1]));
            } else if i < n && j > n {
                precedes_is_transitive(keys[i], key, keys[j]);
            }
        }
        assert forall|k: Seq<char>| #[trigger] keys.contains(k) <==> set.contains(k) by {
            if keys.contains(k) {
                let i = choose|i: int| 0 <= i < keys.len() && keys[i] == k;
                if i < n {
                    assert(first.contains(first[i]));
                } else if i > n {
                    assert(last.contains(last[i - n - 1]));
                }
            }
            if set.contains(k) {
                if k == key {
                    assert(keys[n] == k);
                } else {
                    precedes_is_total(k, key);
                    if precedes(k, key) {
                        assert(first.contains(k));
                        let i = choose|i: int| 0 <= i < first.len() && first[i] == k;
                        assert(keys[i] == k);
                    } else {
                        assert(last.contains(k));
                        let i = choose|i: int| 0 <= i < last.len() && last[i] == k;
                        assert(keys[n + 1 + i] == k);
                    }
                }
            }
        }
        keys
    }
}

} // verus!
