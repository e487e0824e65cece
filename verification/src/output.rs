//! Wording that answers have in common.

use vstd::prelude::*;

use vstd::string::{StrSliceExecFns, StringExecFns};

use crate::text::{characters, number};

verus! {

/// A count and its noun, with an `s` unless the count is one.
pub open spec fn counted(n: nat, noun: Seq<char>) -> Seq<char> {
    if n == 1 {
        crate::text::decimal(n) + " "@ + noun
    } else {
        crate::text::decimal(n) + " "@ + noun + "s"@
    }
}

/// Write a count and its noun.
pub fn plural(n: u64, noun: &str) -> (r: String)
    ensures
        r@ == counted(n as nat, noun@),
{
    let mut out: String = number(n);
    out.append(" ");
    out.append(noun);
    if n != 1 {
        out.append("s");
    }
    out
}

/// How many bytes a character takes in UTF-8.
pub open spec fn width(c: char) -> nat {
    if (c as int) < 0x80 {
        1
    } else if (c as int) < 0x800 {
        2
    } else if (c as int) < 0x10000 {
        3
    } else {
        4
    }
}

/// How many bytes a text takes in UTF-8.
pub open spec fn byte_length(s: Seq<char>) -> nat
    decreases s.len(),
{
    if s.len() == 0 {
        0
    } else {
        byte_length(s.drop_last()) + width(s.last())
    }
}

/// Whether the first `k` characters of a text take `n` bytes.
pub open spec fn cuts(s: Seq<char>, k: int, n: nat) -> bool {
    0 <= k <= s.len() && byte_length(s.take(k)) == n
}

/// How many bytes of a commit are shown.
pub const SHOWN: usize = 12;

/// The first twelve bytes of a commit, which is how a commit is shown, where
/// they are whole characters.
pub open spec fn shortened(rev: Seq<char>) -> Option<Seq<char>> {
    if exists|k: int| cuts(rev, k, SHOWN as nat) {
        Some(rev.take(choose|k: int| cuts(rev, k, SHOWN as nat)))
    } else {
        None
    }
}

proof fn longer_takes_more(s: Seq<char>, j: int, k: int)
    requires
        0 <= j < k <= s.len(),
    ensures
        byte_length(s.take(j)) < byte_length(s.take(k)),
    decreases k - j,
{
    assert(s.take(k).drop_last() =~= s.take(k - 1));
    if j < k - 1 {
        longer_takes_more(s, j, k - 1);
    }
}

/// A beginning of twelve bytes is what is shown.
pub proof fn cut_is_shown(rev: Seq<char>, k: int)
    requires
        cuts(rev, k, SHOWN as nat),
    ensures
        shortened(rev) == Some(rev.take(k)),
{
    let other = choose|j: int| cuts(rev, j, SHOWN as nat);
    if other < k {
        longer_takes_more(rev, other, k);
    }
    if k < other {
        longer_takes_more(rev, k, other);
    }
}

/// Shorten a commit to the twelve bytes that are shown of it. There is no such
/// short form of a text that has fewer, or a character across the cut.
pub fn short_rev(rev: &str) -> (r: Option<String>)
    ensures
        crate::constraint::optional_text(r) == shortened(rev@),
{
    let chars: Vec<char> = characters(rev);
    let mut k: usize = 0;
    let mut bytes: usize = 0;
    while k < chars.len() && bytes < SHOWN
        invariant
            k <= chars@.len(),
            chars@ == rev@,
            bytes == byte_length(rev@.take(k as int)),
            bytes <= SHOWN + 3,
            forall|j: int| 0 <= j < k ==> #[trigger] byte_length(rev@.take(j)) < SHOWN,
        decreases chars@.len() - k,
    {
        assert(rev@.take(k + 1).drop_last() =~= rev@.take(k as int));
        assert(rev@.take(k + 1).last() == chars@[k as int]);
        let c: char = chars[k];
        bytes = bytes + if '\u{80}' > c {
            1
        } else if '\u{800}' > c {
            2
        } else if '\u{10000}' > c {
            3
        } else {
            4
        };
        k = k + 1;
    }
    if bytes == SHOWN {
        proof {
            cut_is_shown(rev@, k as int);
        }
        Some(rev.substring_char(0, k).to_owned())
    } else {
        proof {
            if exists|j: int| cuts(rev@, j, SHOWN as nat) {
                let j = choose|j: int| cuts(rev@, j, SHOWN as nat);
                if k < j {
                    longer_takes_more(rev@, k as int, j);
                }
            }
        }
        None
    }
}

/// A line of an answer, of which one part stands out.
#[derive(Debug)]
pub struct Line {
    pub before: String,
    pub marked: String,
    pub after: String,
}

/// What a [`Line`] holds.
pub struct LineView {
    pub before: Seq<char>,
    pub marked: Seq<char>,
    pub after: Seq<char>,
}

impl View for Line {
    type V = LineView;

    open spec fn view(&self) -> LineView {
        LineView { before: self.before@, marked: self.marked@, after: self.after@ }
    }
}

} // verus!
