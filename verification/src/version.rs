//! Version strings: how they split into components, and how they order.
//!
//! Both follow the rules Nix itself applies to version strings. Dots and
//! dashes separate components and are not part of them, and a component is
//! either all digits or free of digits, so `1.12pre3` has the components `1`,
//! `12`, `pre` and `3`.

use vstd::prelude::*;

use vstd::string::StrSliceExecFns;

use crate::text::{before, characters};

verus! {

/// How one version stands to another.
#[derive(Clone, Copy, PartialEq, Eq, Structural, Debug)]
pub enum Order {
    Less,
    Equal,
    Greater,
}

/// Whether a character separates components.
pub open spec fn is_separator(c: char) -> bool {
    c == '.' || c == '-'
}

/// Whether two characters can stand in one component.
pub open spec fn joins(a: char, b: char) -> bool {
    !is_separator(a) && !is_separator(b) && crate::text::is_digit(a) == crate::text::is_digit(b)
}

/// Where the component that starts `s` ends, given that it reaches `i`.
pub open spec fn component_end(s: Seq<char>, i: int) -> int
    decreases s.len() - i,
{
    if 0 <= i < s.len() && joins(s[0], s[i]) {
        component_end(s, i + 1)
    } else {
        i
    }
}

proof fn component_end_bounds(s: Seq<char>, i: int)
    requires
        0 <= i <= s.len(),
    ensures
        i <= component_end(s, i) <= s.len(),
    decreases s.len() - i,
{
    if i < s.len() && joins(s[0], s[i]) {
        component_end_bounds(s, i + 1);
    }
}

/// The components of a version string, in order.
pub open spec fn components_of(s: Seq<char>) -> Seq<Seq<char>>
    decreases s.len(),
    via components_of_shrinks
{
    if s.len() == 0 {
        seq![]
    } else if is_separator(s[0]) {
        components_of(s.drop_first())
    } else {
        seq![s.take(component_end(s, 1))] + components_of(s.skip(component_end(s, 1)))
    }
}

#[via_fn]
proof fn components_of_shrinks(s: Seq<char>) {
    if s.len() > 0 {
        component_end_bounds(s, 1);
    }
}

/// Split a version string into its components.
pub fn components(version: &str) -> (r: Vec<String>)
    ensures
        crate::text::texts(r@) == components_of(version@),
{
    let chars: Vec<char> = characters(version);
    let ghost s = version@;
    let mut out: Vec<String> = Vec::new();
    let mut i: usize = 0;
    proof {
        assert(s.skip(0) =~= s);
        assert(crate::text::texts(out@) + components_of(s) =~= components_of(s));
    }
    while i < chars.len()
        invariant
            i <= chars@.len(),
            chars@ == s,
            s == version@,
            crate::text::texts(out@) + components_of(s.skip(i as int)) == components_of(s),
        decreases chars@.len() - i,
    {
        let ghost rest = s.skip(i as int);
        if chars[i] == '.' || chars[i] == '-' {
            proof {
                assert(rest.drop_first() =~= s.skip(i + 1));
            }
            i = i + 1;
        } else {
            let digits: bool = '0' <= chars[i] && chars[i] <= '9';
            let mut end: usize = i + 1;
            while end < chars.len() && chars[end] != '.' && chars[end] != '-' && ('0'
                <= chars[end] && chars[end] <= '9') == digits
                invariant
                    i < end <= chars@.len(),
                    chars@ == s,
                    rest == s.skip(i as int),
                    !is_separator(rest[0]),
                    digits == crate::text::is_digit(rest[0]),
                    component_end(rest, 1) == component_end(rest, end - i),
                decreases chars@.len() - end,
            {
                assert(rest[end - i] == s[end as int]);
                end = end + 1;
            }
            let piece: &str = version.substring_char(i, end);
            let ghost before_push = crate::text::texts(out@);
            out.push(piece.to_owned());
            proof {
                if end < chars@.len() {
                    assert(rest[end - i] == s[end as int]);
                }
                assert(component_end(rest, 1) == end - i);
                assert(rest.take(end - i) =~= s.subrange(i as int, end as int));
                assert(rest.skip(end - i) =~= s.skip(end as int));
                assert(crate::text::texts(out@) =~= before_push.push(piece@));
                assert(crate::text::texts(out@) + components_of(s.skip(end as int)) =~= before_push + (seq![
                    piece@,
                ] + components_of(s.skip(end as int))));
            }
            i = end;
        }
    }
    proof {
        assert(s.skip(i as int) =~= Seq::<char>::empty());
        assert(crate::text::texts(out@) + Seq::<Seq<char>>::empty() =~= crate::text::texts(out@));
    }
    out
}

/// Whether every character of `c` is a digit.
pub open spec fn all_digits(c: Seq<char>) -> bool {
    forall|i: int| 0 <= i < c.len() ==> crate::text::is_digit(#[trigger] c[i])
}

/// The number that a sequence of digits writes.
pub open spec fn number_of(c: Seq<char>) -> nat
    decreases c.len(),
{
    if c.len() == 0 {
        0
    } else {
        (10 * number_of(c.drop_last()) + (c.last() as int - '0' as int)) as nat
    }
}

/// The component that marks a pre-release.
pub open spec fn pre_release() -> Seq<char> {
    seq!['p', 'r', 'e']
}

/// The kinds of component in ascending order: the pre-release mark, nothing at
/// all, a word, a number.
pub open spec fn rank(c: Seq<char>) -> int {
    if c == pre_release() {
        0
    } else if c.len() == 0 {
        1
    } else if all_digits(c) {
        3
    } else {
        2
    }
}

/// Whether one component comes before another: by kind, then words
/// alphabetically and numbers by value.
pub open spec fn component_precedes(a: Seq<char>, b: Seq<char>) -> bool {
    if rank(a) != rank(b) {
        rank(a) < rank(b)
    } else if rank(a) == 3 {
        number_of(a) < number_of(b)
    } else if rank(a) == 2 {
        crate::text::precedes(a, b)
    } else {
        false
    }
}

/// The component at a place, or nothing where the version has ended.
pub open spec fn component_at(c: Seq<Seq<char>>, i: int) -> Seq<char> {
    if 0 <= i < c.len() {
        c[i]
    } else {
        Seq::<char>::empty()
    }
}

/// How two component lists order from place `i` on: by the first place where
/// they differ.
pub open spec fn order_from(a: Seq<Seq<char>>, b: Seq<Seq<char>>, i: int) -> Order
    decreases a.len() + b.len() - i,
{
    if i < 0 || (i >= a.len() && i >= b.len()) {
        Order::Equal
    } else if component_precedes(component_at(a, i), component_at(b, i)) {
        Order::Less
    } else if component_precedes(component_at(b, i), component_at(a, i)) {
        Order::Greater
    } else {
        order_from(a, b, i + 1)
    }
}

/// How two version strings order.
pub open spec fn order_of(a: Seq<char>, b: Seq<char>) -> Order {
    order_from(components_of(a), components_of(b), 0)
}

/// How two numbers order.
pub open spec fn number_order(a: int, b: int) -> Order {
    if a < b {
        Order::Less
    } else if a == b {
        Order::Equal
    } else {
        Order::Greater
    }
}

proof fn number_of_nonnegative_step(c: Seq<char>, i: int)
    requires
        all_digits(c),
        0 <= i < c.len(),
    ensures
        number_of(c.take(i + 1)) == 10 * number_of(c.take(i)) + (c[i] as int - '0' as int),
        0 <= c[i] as int - '0' as int <= 9,
{
    assert(c.take(i + 1).drop_last() =~= c.take(i));
    assert(c.take(i + 1).last() == c[i]);
    assert(crate::text::is_digit(c[i]));
}

/// Compare two digit sequences by the numbers they write, the first being at
/// least as long as the second.
fn number_order_long_first(a: &Vec<char>, b: &Vec<char>) -> (r: Order)
    requires
        all_digits(a@),
        all_digits(b@),
        a@.len() >= b@.len(),
    ensures
        r == number_order(number_of(a@) as int, number_of(b@) as int),
{
    let lead: usize = a.len() - b.len();
    let mut order: Order = Order::Equal;
    let mut i: usize = 0;
    while i < lead
        invariant
            i <= lead <= a@.len(),
            all_digits(a@),
            order == number_order(number_of(a@.take(i as int)) as int, 0),
        decreases lead - i,
    {
        proof {
            number_of_nonnegative_step(a@, i as int);
        }
        if order == Order::Equal && a[i] != '0' {
            order = Order::Greater;
        }
        i = i + 1;
    }
    let mut j: usize = 0;
    while j < b.len()
        invariant
            j <= b@.len(),
            lead + b@.len() == a.len(),
            all_digits(a@),
            all_digits(b@),
            order == number_order(
                number_of(a@.take(lead + j)) as int,
                number_of(b@.take(j as int)) as int,
            ),
        decreases b@.len() - j,
    {
        proof {
            number_of_nonnegative_step(a@, lead + j);
            number_of_nonnegative_step(b@, j as int);
        }
        if order == Order::Equal {
            if a[lead + j] < b[j] {
                order = Order::Less;
            } else if a[lead + j] > b[j] {
                order = Order::Greater;
            }
        }
        j = j + 1;
    }
    proof {
        assert(a@.take(a@.len() as int) =~= a@);
        assert(b@.take(b@.len() as int) =~= b@);
    }
    order
}

fn flip(order: Order) -> (r: Order)
    ensures
        r == flipped(order),
{
    match order {
        Order::Less => Order::Greater,
        Order::Equal => Order::Equal,
        Order::Greater => Order::Less,
    }
}

/// The order seen from the other side.
pub open spec fn flipped(order: Order) -> Order {
    match order {
        Order::Less => Order::Greater,
        Order::Equal => Order::Equal,
        Order::Greater => Order::Less,
    }
}

fn digits_only(c: &Vec<char>) -> (r: bool)
    ensures
        r == all_digits(c@),
{
    let mut i: usize = 0;
    while i < c.len()
        invariant
            i <= c@.len(),
            forall|k: int| 0 <= k < i ==> crate::text::is_digit(#[trigger] c@[k]),
        decreases c@.len() - i,
    {
        if !('0' <= c[i] && c[i] <= '9') {
            assert(!crate::text::is_digit(c@[i as int]));
            return false;
        }
        i = i + 1;
    }
    true
}

fn rank_of(c: &Vec<char>) -> (r: u8)
    ensures
        r == rank(c@),
{
    if c.len() == 3 && c[0] == 'p' && c[1] == 'r' && c[2] == 'e' {
        assert(c@ =~= pre_release());
        0
    } else {
        assert(c@ != pre_release());
        if c.len() == 0 {
            1
        } else if digits_only(c) {
            3
        } else {
            2
        }
    }
}

/// How two components order.
pub open spec fn component_order(a: Seq<char>, b: Seq<char>) -> Order {
    if component_precedes(a, b) {
        Order::Less
    } else if component_precedes(b, a) {
        Order::Greater
    } else {
        Order::Equal
    }
}

fn compare_components(a: &str, b: &str) -> (r: Order)
    ensures
        r == component_order(a@, b@),
{
    let x: Vec<char> = characters(a);
    let y: Vec<char> = characters(b);
    let rank_x: u8 = rank_of(&x);
    let rank_y: u8 = rank_of(&y);
    if rank_x < rank_y {
        Order::Less
    } else if rank_x > rank_y {
        Order::Greater
    } else if rank_x == 3 {
        if x.len() >= y.len() {
            number_order_long_first(&x, &y)
        } else {
            flip(number_order_long_first(&y, &x))
        }
    } else if rank_x == 2 {
        if before(a, b) {
            Order::Less
        } else if before(b, a) {
            Order::Greater
        } else {
            Order::Equal
        }
    } else {
        Order::Equal
    }
}

/// Compare two version strings.
pub fn compare(a: &str, b: &str) -> (r: Order)
    ensures
        r == order_of(a@, b@),
{
    let x: Vec<String> = components(a);
    let y: Vec<String> = components(b);
    let ghost cx = components_of(a@);
    let ghost cy = components_of(b@);
    let mut i: usize = 0;
    while i < x.len() || i < y.len()
        invariant
            crate::text::texts(x@) == cx,
            crate::text::texts(y@) == cy,
            cx == components_of(a@),
            cy == components_of(b@),
            i <= x@.len() || i <= y@.len(),
            order_of(a@, b@) == order_from(cx, cy, i as int),
        decreases x@.len() + y@.len() - i,
    {
        let p: &str = if i < x.len() {
            assert(cx[i as int] == x@[i as int]@);
            x[i].as_str()
        } else {
            proof {
                reveal_strlit("");
            }
            ""
        };
        let q: &str = if i < y.len() {
            assert(cy[i as int] == y@[i as int]@);
            y[i].as_str()
        } else {
            proof {
                reveal_strlit("");
            }
            ""
        };
        assert(p@ =~= component_at(cx, i as int));
        assert(q@ =~= component_at(cy, i as int));
        let order: Order = compare_components(p, q);
        if order != Order::Equal {
            return order;
        }
        i = i + 1;
    }
    Order::Equal
}

proof fn order_steps(a: Seq<Seq<char>>, b: Seq<Seq<char>>, i: int)
    requires
        0 <= i,
    ensures
        order_from(a, b, i) == if component_precedes(component_at(a, i), component_at(b, i)) {
            Order::Less
        } else if component_precedes(component_at(b, i), component_at(a, i)) {
            Order::Greater
        } else {
            order_from(a, b, i + 1)
        },
{
}

/// No two components come before each other.
pub proof fn component_order_is_strict(a: Seq<char>, b: Seq<char>)
    ensures
        !(component_precedes(a, b) && component_precedes(b, a)),
{
    if crate::text::precedes(a, b) && crate::text::precedes(b, a) {
        crate::text::precedes_is_transitive(a, b, a);
        crate::text::precedes_is_irreflexive(a);
    }
}

/// Whether neither of two components comes before the other.
spec fn level(a: Seq<char>, b: Seq<char>) -> bool {
    !component_precedes(a, b) && !component_precedes(b, a)
}

proof fn component_order_is_transitive(a: Seq<char>, b: Seq<char>, c: Seq<char>)
    ensures
        component_precedes(a, b) && component_precedes(b, c) ==> component_precedes(a, c),
        component_precedes(a, b) && level(b, c) ==> component_precedes(a, c),
        level(a, b) && component_precedes(b, c) ==> component_precedes(a, c),
        level(a, b) && level(b, c) ==> level(a, c),
{
    if crate::text::precedes(a, b) && crate::text::precedes(b, c) {
        crate::text::precedes_is_transitive(a, b, c);
    }
    if a != b {
        crate::text::precedes_is_total(a, b);
    }
    if b != c {
        crate::text::precedes_is_total(b, c);
    }
    component_order_is_strict(a, c);
}

proof fn order_flips_from(a: Seq<Seq<char>>, b: Seq<Seq<char>>, i: int)
    requires
        0 <= i,
    ensures
        order_from(b, a, i) == flipped(order_from(a, b, i)),
    decreases a.len() + b.len() - i,
{
    if i < a.len() || i < b.len() {
        component_order_is_strict(component_at(a, i), component_at(b, i));
        order_flips_from(a, b, i + 1);
    }
}

proof fn order_is_transitive_from(
    a: Seq<Seq<char>>,
    b: Seq<Seq<char>>,
    c: Seq<Seq<char>>,
    i: int,
)
    requires
        0 <= i,
        order_from(a, b, i) != Order::Greater,
        order_from(b, c, i) != Order::Greater,
    ensures
        order_from(a, c, i) != Order::Greater,
        order_from(a, c, i) == Order::Equal <==> (order_from(a, b, i) == Order::Equal && order_from(
            b,
            c,
            i,
        ) == Order::Equal),
    decreases a.len() + b.len() + c.len() - i,
{
    if i < a.len() || i < b.len() || i < c.len() {
        let x = component_at(a, i);
        let y = component_at(b, i);
        let z = component_at(c, i);
        order_steps(a, b, i);
        order_steps(b, c, i);
        order_steps(a, c, i);
        component_order_is_transitive(x, y, z);
        component_order_is_strict(x, y);
        component_order_is_strict(y, z);
        component_order_is_strict(x, z);
        if level(x, y) && level(y, z) {
            order_is_transitive_from(a, b, c, i + 1);
        }
    }
}

/// Comparing two versions the other way round gives the order seen from the
/// other side, so every version stands level with itself.
pub proof fn comparing_flips(a: Seq<char>, b: Seq<char>)
    ensures
        order_of(b, a) == flipped(order_of(a, b)),
        order_of(a, a) == Order::Equal,
{
    order_flips_from(components_of(a), components_of(b), 0);
    order_flips_from(components_of(a), components_of(a), 0);
}

/// Versions are ordered in a line: what is no newer than something no newer
/// than a version is no newer than that version, and stands level with it only
/// where all three stand level.
pub proof fn comparing_is_transitive(a: Seq<char>, b: Seq<char>, c: Seq<char>)
    requires
        order_of(a, b) != Order::Greater,
        order_of(b, c) != Order::Greater,
    ensures
        order_of(a, c) != Order::Greater,
        order_of(a, c) == Order::Equal <==> (order_of(a, b) == Order::Equal && order_of(b, c)
            == Order::Equal),
{
    order_is_transitive_from(components_of(a), components_of(b), components_of(c), 0);
}

} // verus!
