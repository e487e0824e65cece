//! Per-package pins.
//!
//! Each pin names one revision, and an update moves only the entries it names.
//! Every other pin stays exactly where it was, which is the whole point: a
//! single input moves everything at once, and that is why people end up not
//! updating at all.
//!
//! Within that contract, pins being added or updated resolve together, onto as
//! few revisions as their versions allow. Sharing never changes a resolved
//! version, only which revision serves it, and untouched pins are read as
//! revisions to share, never rewritten.

use vstd::prelude::*;

use vstd::string::StringExecFns;

use crate::constraint::{copy_optional, Constraint, ConstraintView};
use crate::error::{Error, Failure};
use crate::map::StringMap;
use crate::output::{plural, short_rev};
use crate::pin::{Pin, PinView};

verus! {

/// The lock file's name.
pub const LOCK_FILE: &'static str = "multiverse.lock";

/// The schema version of the lock file. It changes only where an older reader
/// could misread the file; a new optional field does not change it.
pub const LOCK_VERSION: u32 = 1;

/// The pins of a project.
#[derive(Debug)]
pub struct Lock {
    pub version: u32,
    /// Sorted by attribute, so that a new pin changes one place of the file.
    pub pins: StringMap<Pin>,
}

/// What a [`Lock`] holds.
pub struct LockView {
    pub version: u32,
    pub pins: Map<Seq<char>, PinView>,
}

impl View for Lock {
    type V = LockView;

    open spec fn view(&self) -> LockView {
        LockView { version: self.version, pins: crate::pin::pin_views(self.pins@) }
    }
}

/// The content of a lock file: the pins in the order in which the file has
/// them.
#[derive(Debug)]
pub struct LockFile {
    pub version: u32,
    pub pins: Vec<(String, Pin)>,
}

/// The map that entries make when they are entered one after the other: of two
/// entries with one key the later counts.
pub open spec fn gathered(entries: Seq<(String, Pin)>) -> Map<Seq<char>, Pin>
    decreases entries.len(),
{
    if entries.len() == 0 {
        Map::empty()
    } else {
        gathered(entries.drop_last()).insert(entries.last().0@, entries.last().1)
    }
}

impl Lock {
    /// A lock without pins.
    pub fn empty() -> (r: Lock)
        ensures
            r.version == LOCK_VERSION,
            r.pins@ == Map::<Seq<char>, Pin>::empty(),
    {
        Lock { version: LOCK_VERSION, pins: StringMap::new() }
    }

    /// The lock that a lock file holds, or an empty lock where there is no
    /// file yet. A file of another version is refused rather than guessed at.
    pub fn read(found: Option<LockFile>) -> (r: Result<Lock, Error>)
        ensures
            match (found, r) {
                (None, Ok(lock)) => lock.version == LOCK_VERSION && lock.pins@ == Map::<
                    Seq<char>,
                    Pin,
                >::empty(),
                (None, Err(_)) => false,
                (Some(file), Ok(lock)) => {
                    &&& file.version == LOCK_VERSION
                    &&& lock.version == LOCK_VERSION
                    &&& lock.pins@ == gathered(file.pins@)
                },
                (Some(file), Err(e)) => {
                    &&& file.version != LOCK_VERSION
                    &&& e@ == (Failure::<Seq<char>>::UnknownLockVersion { found: file.version })
                },
            },
    {
        match found {
            None => Ok(Lock::empty()),
            Some(file) => {
                if file.version != LOCK_VERSION {
                    return Err(Failure::UnknownLockVersion { found: file.version });
                }
                let mut pins: StringMap<Pin> = StringMap::new();
                let mut i: usize = 0;
                while i < file.pins.len()
                    invariant
                        i <= file.pins@.len(),
                        pins@ == gathered(file.pins@.take(i as int)),
                    decreases file.pins@.len() - i,
                {
                    proof {
                        assert(file.pins@.take(i + 1).drop_last() =~= file.pins@.take(i as int));
                        assert(file.pins@.take(i + 1).last() == file.pins@[i as int]);
                    }
                    pins.insert(file.pins[i].0.clone(), file.pins[i].1.clone());
                    i = i + 1;
                }
                assert(file.pins@.take(file.pins@.len() as int) =~= file.pins@);
                Ok(Lock { version: file.version, pins })
            },
        }
    }

    /// The content of the lock file for this lock: every pin, sorted by
    /// attribute.
    pub fn write(&self) -> (r: LockFile)
        ensures
            r.version == self.version,
            crate::map::lists(r.pins@, self.pins@),
    {
        let entries: &Vec<(String, Pin)> = self.pins.entries();
        let mut out: Vec<(String, Pin)> = Vec::new();
        let mut i: usize = 0;
        while i < entries.len()
            invariant
                i <= entries@.len(),
                out@ == entries@.take(i as int),
            decreases entries@.len() - i,
        {
            out.push((entries[i].0.clone(), entries[i].1.clone()));
            i = i + 1;
            assert(out@ =~= entries@.take(i as int));
        }
        assert(out@ =~= entries@);
        LockFile { version: self.version, pins: out }
    }
}

/// End the text of a lock file with a newline: it is a committed file that
/// shows up in review.
pub fn terminated(text: String) -> (r: String)
    ensures
        r@ == text@ + "\n"@,
{
    let mut out: String = text;
    out.append("\n");
    out
}

/// Where the lock file lives: at `explicit` if given, otherwise under its own
/// name in the working directory. No search up the tree: a pin file picked up
/// from a parent directory is one you did not know you were editing.
pub fn lock_path(explicit: Option<&str>) -> (r: String)
    ensures
        r@ == match explicit {
            Some(path) => path@,
            None => LOCK_FILE@,
        },
{
    match explicit {
        Some(path) => path.to_owned(),
        None => LOCK_FILE.to_owned(),
    }
}

proof fn gathered_has_every_entry(entries: Seq<(String, Pin)>)
    requires
        crate::map::ascending(entries),
    ensures
        forall|key: Seq<char>| #[trigger]
            gathered(entries).contains_key(key) <==> crate::map::has_key(entries, key),
        forall|i: int|
            0 <= i < entries.len() ==> gathered(entries)[(#[trigger] entries[i]).0@]
                == entries[i].1,
    decreases entries.len(),
{
    if entries.len() > 0 {
        let rest = entries.drop_last();
        let last = entries.last();
        let n = entries.len() - 1;
        assert forall|i: int, j: int| 0 <= i < j < rest.len() implies crate::text::precedes(
            #[trigger] rest[i].0@,
            #[trigger] rest[j].0@,
        ) by {
            assert(crate::text::precedes(entries[i].0@, entries[j].0@));
        }
        gathered_has_every_entry(rest);
        assert forall|key: Seq<char>| #[trigger]
            gathered(entries).contains_key(key) <==> crate::map::has_key(entries, key) by {
            assert(gathered(rest).contains_key(key) <==> crate::map::has_key(rest, key));
            if crate::map::has_key(rest, key) {
                let k = choose|k: int| 0 <= k < rest.len() && #[trigger] rest[k].0@ == key;
                assert(entries[k].0@ == key);
            }
            if crate::map::has_key(entries, key) {
                let k = choose|k: int| 0 <= k < entries.len() && #[trigger] entries[k].0@ == key;
                if k < n {
                    assert(rest[k].0@ == key);
                }
            }
            if key == last.0@ {
                assert(entries[n].0@ == key);
            }
        }
        assert forall|i: int| 0 <= i < entries.len() implies gathered(
            entries,
        )[(#[trigger] entries[i]).0@] == entries[i].1 by {
            if i < n {
                assert(rest[i] == entries[i]);
                assert(crate::text::precedes(entries[i].0@, entries[n].0@));
                crate::text::precedes_is_irreflexive(last.0@);
            }
        }
    }
}

/// Reading gives back what writing wrote: the entries that a lock writes,
/// entered one after the other, are the pins of the lock.
pub proof fn read_gives_back_what_write_wrote(
    entries: Seq<(String, Pin)>,
    pins: Map<Seq<char>, Pin>,
)
    requires
        crate::map::lists(entries, pins),
    ensures
        gathered(entries) == pins,
{
    gathered_has_every_entry(entries);
    assert forall|key: Seq<char>| #[trigger] gathered(entries).contains_key(
        key,
    ) <==> pins.contains_key(key) by {
        if crate::map::has_key(entries, key) {
            let k = choose|k: int| 0 <= k < entries.len() && #[trigger] entries[k].0@ == key;
            assert(pins.contains_key(entries[k].0@));
        }
    }
    assert forall|key: Seq<char>| pins.contains_key(key) implies #[trigger] gathered(entries)[key]
        == pins[key] by {
        let k = choose|k: int| 0 <= k < entries.len() && #[trigger] entries[k].0@ == key;
        assert(gathered(entries)[entries[k].0@] == entries[k].1);
    }
    assert(gathered(entries) =~= pins);
}

/// What a pin asks for: its attribute, inside the prefix it was added with.
pub open spec fn constraint_of(pins: Map<Seq<char>, PinView>, attr: Seq<char>) -> ConstraintView {
    ConstraintView { attr, version: pins[attr].constraint }
}

/// The pinned attributes, in order.
pub open spec fn attributes(pins: Map<Seq<char>, PinView>) -> Seq<Seq<char>> {
    choose|attrs: Seq<Seq<char>>| crate::text::orders(attrs, pins.dom())
}

/// What the pins ask for, in order of attribute.
pub open spec fn constraints_of(pins: Map<Seq<char>, PinView>) -> Seq<ConstraintView> {
    attributes(pins).map_values(|attr: Seq<char>| constraint_of(pins, attr))
}

/// Every pinned attribute is asked for once.
pub proof fn constraints_are_distinct(pins: Map<Seq<char>, PinView>, attrs: Seq<Seq<char>>)
    requires
        crate::text::orders(attrs, pins.dom()),
    ensures
        attributes(pins) == attrs,
        crate::pin::attrs_distinct(constraints_of(pins)),
        forall|attr: Seq<char>| #[trigger]
            crate::pin::asks_for(constraints_of(pins), attr) <==> pins.contains_key(attr),
        forall|attr: Seq<char>| #[trigger]
            pins.contains_key(attr) ==> crate::pin::asking(constraints_of(pins), attr)
                == constraint_of(pins, attr),
{
    crate::text::order_is_unique(attributes(pins), attrs, pins.dom());
    let cs = constraints_of(pins);
    assert forall|i: int, j: int| 0 <= i < j < cs.len() implies (#[trigger] cs[i]).attr != (
    #[trigger] cs[j]).attr by {
        assert(crate::text::precedes(attrs[i], attrs[j]));
        crate::text::precedes_is_irreflexive(attrs[i]);
    }
    assert forall|attr: Seq<char>| #[trigger] crate::pin::asks_for(cs, attr) implies pins.contains_key(
        attr,
    ) by {
        let i = choose|i: int| 0 <= i < cs.len() && (#[trigger] cs[i]).attr == attr;
        assert(attrs[i] == attr);
        assert(attrs.contains(attr));
    }
    assert forall|attr: Seq<char>| #[trigger] pins.contains_key(attr) implies crate::pin::asks_for(
        cs,
        attr,
    ) && crate::pin::asking(cs, attr) == constraint_of(pins, attr) by {
        assert(attrs.contains(attr));
        let i = choose|i: int| 0 <= i < attrs.len() && attrs[i] == attr;
        assert(cs[i].attr == attr);
        let k = choose|k: int| 0 <= k < cs.len() && (#[trigger] cs[k]).attr == attr;
        assert(cs[k] == constraint_of(pins, attrs[k]));
    }
}

impl Pin {
    /// What the pin of this attribute asks for.
    pub fn asks(&self, attr: &str) -> (r: Constraint)
        ensures
            r@ == (ConstraintView { attr: attr@, version: self@.constraint }),
    {
        Constraint { attr: attr.to_owned(), version: copy_optional(&self.constraint) }
    }
}

impl Lock {
    /// What the pins ask for, in order of attribute.
    pub fn constraints(&self) -> (r: Vec<Constraint>)
        ensures
            crate::solve::constraint_views(r@) == constraints_of(self@.pins),
            crate::pin::attrs_distinct(constraints_of(self@.pins)),
            forall|attr: Seq<char>| #[trigger]
                crate::pin::asks_for(constraints_of(self@.pins), attr)
                    <==> self@.pins.contains_key(attr),
    {
        let entries: &Vec<(String, Pin)> = self.pins.entries();
        let mut out: Vec<Constraint> = Vec::new();
        let mut i: usize = 0;
        while i < entries.len()
            invariant
                i <= entries@.len(),
                out@.len() == i,
                forall|k: int|
                    0 <= k < i ==> (#[trigger] out@[k])@ == (ConstraintView {
                        attr: entries@[k].0@,
                        version: entries@[k].1@.constraint,
                    }),
            decreases entries@.len() - i,
        {
            out.push(entries[i].1.asks(entries[i].0.as_str()));
            i = i + 1;
        }
        proof {
            let pins = self@.pins;
            let attrs = crate::map::keys(entries@);
            crate::map::listed_keys(entries@, self.pins@);
            assert(pins.dom() =~= self.pins@.dom());
            constraints_are_distinct(pins, attrs);
            assert forall|k: int| 0 <= k < entries@.len() implies (#[trigger] out@[k])@
                == constraint_of(pins, attrs[k]) by {
                assert(self.pins@.contains_key(entries@[k].0@));
                assert(self.pins@[entries@[k].0@] == entries@[k].1);
            }
            assert(crate::solve::constraint_views(out@) =~= constraints_of(pins));
        }
        out
    }
}

/// The revisions that the pins name.
pub open spec fn revisions(pins: Map<Seq<char>, PinView>) -> Set<Seq<char>> {
    Set::new(|rev: Seq<char>| names(pins, rev))
}

/// Whether a pin names a revision.
pub open spec fn names(pins: Map<Seq<char>, PinView>, rev: Seq<char>) -> bool {
    exists|attr: Seq<char>| #[trigger] pins.contains_key(attr) && pins[attr].rev == rev
}

/// How many pins there are, and how many revisions they name.
pub open spec fn footprint_of(pins: Map<Seq<char>, PinView>) -> Seq<char> {
    "lock: "@ + crate::output::counted(pins.dom().len(), "pin"@) + " on "@
        + crate::output::counted(revisions(pins).len(), "revision"@)
}

/// The pins on their revisions at a glance, to be shown after anything that
/// changed the lock. Left out for a single pin, where it could only state the
/// obvious.
pub fn footprint(lock: &Lock) -> (r: Option<String>)
    ensures
        lock@.pins.dom().finite(),
        revisions(lock@.pins).finite(),
        crate::constraint::optional_text(r) == if lock@.pins.dom().len() < 2 {
            None
        } else {
            Some(footprint_of(lock@.pins))
        },
{
    let ghost pins = lock@.pins;
    let entries: &Vec<(String, Pin)> = lock.pins.entries();
    let mut revs: StringMap<bool> = StringMap::new();
    let mut i: usize = 0;
    while i < entries.len()
        invariant
            i <= entries@.len(),
            pins == lock@.pins,
            crate::map::lists(entries@, lock.pins@),
            forall|rev: Seq<char>| #[trigger]
                revs@.contains_key(rev) ==> names(pins, rev),
            forall|k: int| 0 <= k < i ==> revs@.contains_key((#[trigger] entries@[k]).1.rev@),
        decreases entries@.len() - i,
    {
        proof {
            let attr = entries@[i as int].0@;
            assert(lock.pins@.contains_key(attr));
            assert(lock.pins@[attr] == entries@[i as int].1);
            assert(pins.contains_key(attr));
        }
        revs.insert(entries[i].1.rev.clone(), true);
        i = i + 1;
    }
    let pinned: usize = lock.pins.len();
    let named: usize = revs.len();
    proof {
        assert(pins.dom() =~= lock.pins@.dom());
        assert forall|rev: Seq<char>| names(pins, rev) implies #[trigger] revs@.contains_key(
            rev,
        ) by {
            let attr = choose|attr: Seq<char>| #[trigger]
                pins.contains_key(attr) && pins[attr].rev == rev;
            assert(lock.pins@.contains_key(attr));
            let k = choose|k: int| 0 <= k < entries@.len() && #[trigger] entries@[k].0@ == attr;
            assert(lock.pins@[entries@[k].0@] == entries@[k].1);
            assert(revs@.contains_key(entries@[k].1.rev@));
        }
        assert(revisions(pins) =~= revs@.dom());
    }
    if pinned < 2 {
        return None;
    }
    let mut out: String = "lock: ".to_owned();
    out.append(plural(pinned as u64, "pin").as_str());
    out.append(" on ");
    out.append(plural(named as u64, "revision").as_str());
    Some(out)
}

/// One line of the listing of a lock.
#[derive(Debug)]
pub struct Row {
    pub attr: String,
    pub version: String,
    pub date: String,
    /// The short form of the revision.
    pub revision: String,
}

/// Whether a row shows the pin of its attribute.
pub open spec fn shows(row: Row, pins: Map<Seq<char>, PinView>) -> bool {
    let pin = pins[row.attr@];
    &&& row.version@ == pin.version
    &&& row.date@ == pin.date
    &&& Some(row.revision@) == crate::output::shortened(pin.rev)
}

/// Whether every pin names a commit that has a short form.
pub open spec fn all_showable(pins: Map<Seq<char>, PinView>) -> bool {
    forall|attr: Seq<char>| #[trigger]
        pins.contains_key(attr) ==> crate::output::shortened(pins[attr].rev) is Some
}

/// Every pin in a row of its own, in order of attribute.
pub fn list(lock: &Lock) -> (r: Vec<Row>)
    requires
        all_showable(lock@.pins),
    ensures
        crate::text::orders(r@.map_values(|row: Row| row.attr@), lock@.pins.dom()),
        forall|i: int| 0 <= i < r@.len() ==> shows(#[trigger] r@[i], lock@.pins),
{
    let ghost pins = lock@.pins;
    let entries: &Vec<(String, Pin)> = lock.pins.entries();
    let mut out: Vec<Row> = Vec::new();
    let mut i: usize = 0;
    while i < entries.len()
        invariant
            i <= entries@.len(),
            out@.len() == i,
            pins == lock@.pins,
            all_showable(pins),
            crate::map::lists(entries@, lock.pins@),
            forall|k: int|
                0 <= k < i ==> (#[trigger] out@[k]).attr@ == entries@[k].0@ && shows(out@[k], pins),
        decreases entries@.len() - i,
    {
        proof {
            let attr = entries@[i as int].0@;
            assert(lock.pins@.contains_key(attr));
            assert(lock.pins@[attr] == entries@[i as int].1);
            assert(pins.contains_key(attr));
        }
        let pin: &Pin = &entries[i].1;
        if let Some(revision) = short_rev(pin.rev.as_str()) {
            out.push(
                Row {
                    attr: entries[i].0.clone(),
                    version: pin.version.clone(),
                    date: pin.date.clone(),
                    revision,
                },
            );
        }
        i = i + 1;
    }
    proof {
        crate::map::listed_keys(entries@, lock.pins@);
        assert(out@.map_values(|row: Row| row.attr@) =~= crate::map::keys(entries@));
        assert(pins.dom() =~= lock.pins@.dom());
    }
    out
}

/// No lock names more revisions than it has pins.
pub proof fn pins_name_no_more_revisions_than_there_are_pins(pins: Map<Seq<char>, PinView>)
    requires
        pins.dom().finite(),
    ensures
        revisions(pins).finite(),
        revisions(pins).len() <= pins.dom().len(),
    decreases pins.dom().len(),
{
    if pins.dom().len() == 0 {
        assert(pins.dom() =~= Set::empty());
        assert(revisions(pins) =~= Set::empty());
    } else {
        let attr = pins.dom().choose();
        let rest = pins.remove(attr);
        pins_name_no_more_revisions_than_there_are_pins(rest);
        let rev = pins[attr].rev;
        assert forall|other: Seq<char>| names(pins, other) <==> #[trigger] names(rest, other)
            || other == rev by {
            if names(pins, other) {
                let a = choose|a: Seq<char>| #[trigger] pins.contains_key(a) && pins[a].rev == other;
                assert(a != attr ==> rest.contains_key(a));
            }
            if names(rest, other) {
                let a = choose|a: Seq<char>| #[trigger] rest.contains_key(a) && rest[a].rev == other;
                assert(pins.contains_key(a));
            }
            if other == rev {
                assert(pins.contains_key(attr));
            }
        }
        assert(revisions(pins) =~= revisions(rest).insert(rev));
    }
}

} // verus!
