//! The index: the revisions in order, and for each attribute the stretches of
//! revisions that shipped each of its versions.

use vstd::prelude::*;

use vstd::string::StringExecFns;

use crate::error::{Error, Failure};
use crate::map::StringMap;
use crate::output::short_rev;
use crate::text::characters;

verus! {

/// One revision as the index stores it. Its place in the index is its offset.
#[derive(Debug)]
pub struct Commit {
    pub rev: String,
    pub label: String,
    pub date: String,
    /// The hash that fetching needs. A revision without one is known, but
    /// cannot be materialised yet.
    pub nar_hash: Option<String>,
}

/// A revision as the answers name it.
#[derive(Debug)]
pub struct Revision {
    pub off: i64,
    pub rev: String,
    pub label: String,
    pub date: String,
}

/// A closed range of offsets throughout which an attribute had one version.
#[derive(Debug)]
pub struct Run {
    pub version: String,
    pub first: i64,
    pub last: i64,
}

/// What a [`Commit`] holds.
pub struct CommitView {
    pub rev: Seq<char>,
    pub label: Seq<char>,
    pub date: Seq<char>,
    pub fetchable: bool,
}

/// What a [`Revision`] holds.
pub struct RevisionView {
    pub off: int,
    pub rev: Seq<char>,
    pub label: Seq<char>,
    pub date: Seq<char>,
}

/// What a [`Run`] holds.
pub struct RunView {
    pub version: Seq<char>,
    pub first: int,
    pub last: int,
}

impl View for Commit {
    type V = CommitView;

    open spec fn view(&self) -> CommitView {
        CommitView {
            rev: self.rev@,
            label: self.label@,
            date: self.date@,
            fetchable: self.nar_hash is Some,
        }
    }
}

impl View for Revision {
    type V = RevisionView;

    open spec fn view(&self) -> RevisionView {
        RevisionView {
            off: self.off as int,
            rev: self.rev@,
            label: self.label@,
            date: self.date@,
        }
    }
}

impl View for Run {
    type V = RunView;

    open spec fn view(&self) -> RunView {
        RunView { version: self.version@, first: self.first as int, last: self.last as int }
    }
}

impl Clone for Run {
    fn clone(&self) -> (r: Run)
        ensures
            r == *self,
    {
        Run { version: self.version.clone(), first: self.first, last: self.last }
    }
}

impl RunView {
    /// Whether the run reaches over an offset.
    pub open spec fn contains(self, off: int) -> bool {
        self.first <= off <= self.last
    }
}

/// What a sequence of runs holds, run by run.
pub open spec fn run_views(runs: Seq<Run>) -> Seq<RunView> {
    runs.map_values(|r: Run| r@)
}

/// What an [`Index`] holds.
pub struct IndexView {
    /// Every revision, by offset.
    pub commits: Seq<CommitView>,
    /// How many of the revisions the runs speak of.
    pub covered: nat,
    /// The runs of each attribute.
    pub runs: Map<Seq<char>, Seq<RunView>>,
}

/// Whether every run is a range of offsets below `covered`.
pub open spec fn runs_fit(runs: Seq<RunView>, covered: nat) -> bool {
    forall|i: int|
        0 <= i < runs.len() ==> 0 <= (#[trigger] runs[i]).first <= runs[i].last < covered
}

impl IndexView {
    /// Whether the runs stay within what is covered, and that within what is
    /// there.
    pub open spec fn valid(self) -> bool {
        &&& self.commits.len() <= i64::MAX
        &&& self.covered <= self.commits.len()
        &&& forall|attr: Seq<char>| #[trigger]
            self.runs.contains_key(attr) ==> runs_fit(self.runs[attr], self.covered)
    }

    /// The runs of an attribute: none where it was never in the index.
    pub open spec fn runs_of(self, attr: Seq<char>) -> Seq<RunView> {
        if self.runs.contains_key(attr) {
            self.runs[attr]
        } else {
            Seq::<RunView>::empty()
        }
    }

    /// Whether the revision at an offset exists and can be fetched.
    pub open spec fn materialisable(self, off: int) -> bool {
        0 <= off < self.commits.len() && self.commits[off].fetchable
    }

    /// The revision at an offset.
    pub open spec fn revision(self, off: int) -> RevisionView {
        RevisionView {
            off,
            rev: self.commits[off].rev,
            label: self.commits[off].label,
            date: self.commits[off].date,
        }
    }

    /// Whether `off` is the newest offset from `first` to `last` that can be
    /// fetched.
    pub open spec fn newest_in(self, first: int, last: int, off: int) -> bool {
        &&& first <= off <= last
        &&& self.materialisable(off)
        &&& forall|o: int| off < o <= last ==> !#[trigger] self.materialisable(o)
    }

    /// Whether nothing from `first` to `last` can be fetched.
    pub open spec fn none_in(self, first: int, last: int) -> bool {
        forall|o: int| first <= o <= last ==> !#[trigger] self.materialisable(o)
    }

    /// Whether the commit at an offset begins with this prefix.
    pub open spec fn has_prefix(self, off: int, prefix: Seq<char>) -> bool {
        prefix.is_prefix_of(self.commits[off].rev)
    }

    /// Whether `off` is the newest revision whose commit begins with this
    /// prefix.
    pub open spec fn found_by_prefix(self, prefix: Seq<char>, off: int) -> bool {
        &&& 0 <= off < self.commits.len()
        &&& self.has_prefix(off, prefix)
        &&& forall|o: int| off < o < self.commits.len() ==> !#[trigger] self.has_prefix(o, prefix)
    }
}

/// The whole index, in memory.
#[derive(Debug)]
pub struct Index {
    commits: Vec<Commit>,
    covered: usize,
    runs: StringMap<Vec<Run>>,
}

impl View for Index {
    type V = IndexView;

    closed spec fn view(&self) -> IndexView {
        index_view(self.commits@, self.covered as nat, self.runs@)
    }
}

/// The index made of these parts.
pub open spec fn index_view(
    commits: Seq<Commit>,
    covered: nat,
    runs: Map<Seq<char>, Vec<Run>>,
) -> IndexView {
    IndexView {
        commits: commits.map_values(|c: Commit| c@),
        covered,
        runs: runs.map_values(|r: Vec<Run>| run_views(r@)),
    }
}

/// Whether text `a` begins with text `prefix`.
fn starts_with(a: &str, prefix: &str) -> (r: bool)
    ensures
        r == prefix@.is_prefix_of(a@),
{
    let x: Vec<char> = characters(a);
    let p: Vec<char> = characters(prefix);
    if p.len() > x.len() {
        return false;
    }
    let mut i: usize = 0;
    while i < p.len()
        invariant
            i <= p@.len() <= x@.len(),
            x@ == a@,
            p@ == prefix@,
            forall|k: int| 0 <= k < i ==> p@[k] == x@[k],
        decreases p@.len() - i,
    {
        if p[i] != x[i] {
            assert(a@.subrange(0, prefix@.len() as int)[i as int] == x@[i as int]);
            return false;
        }
        i = i + 1;
    }
    true
}

/// Whether every run fits below `covered`.
fn fit(runs: &Vec<Run>, covered: usize) -> (r: bool)
    requires
        covered <= i64::MAX,
    ensures
        r == runs_fit(run_views(runs@), covered as nat),
{
    let mut i: usize = 0;
    while i < runs.len()
        invariant
            i <= runs@.len(),
            covered <= i64::MAX,
            forall|k: int|
                0 <= k < i ==> 0 <= (#[trigger] run_views(runs@)[k]).first <= run_views(
                    runs@,
                )[k].last < covered,
        decreases runs@.len() - i,
    {
        let first: i64 = runs[i].first;
        let last: i64 = runs[i].last;
        assert(run_views(runs@)[i as int] == runs@[i as int]@);
        if first < 0 || last < first || last >= covered as i64 {
            return false;
        }
        i = i + 1;
    }
    true
}

impl Index {
    #[verifier::type_invariant]
    spec fn consistent(self) -> bool {
        index_view(self.commits@, self.covered as nat, self.runs@).valid()
    }

    /// An index of these revisions and runs, where the runs speak of the first
    /// `covered` revisions.
    pub fn new(commits: Vec<Commit>, covered: usize, runs: StringMap<Vec<Run>>) -> (r: Result<
        Index,
        Error,
    >)
        ensures
            r is Ok <==> index_view(commits@, covered as nat, runs@).valid(),
            r matches Ok(index) ==> index@ == index_view(commits@, covered as nat, runs@),
            r matches Err(e) ==> match e@ {
                Failure::TooManyRevisions => commits@.len() > i64::MAX,
                Failure::CoversTooMuch => commits@.len() <= i64::MAX && covered > commits@.len(),
                Failure::RunOutOfRange { attr } => {
                    &&& commits@.len() <= i64::MAX
                    &&& covered <= commits@.len()
                    &&& runs@.contains_key(attr)
                    &&& !runs_fit(run_views(runs@[attr]@), covered as nat)
                    &&& forall|other: Seq<char>| #[trigger]
                        runs@.contains_key(other) && crate::text::precedes(other, attr)
                            ==> runs_fit(run_views(runs@[other]@), covered as nat)
                },
                _ => false,
            },
    {
        let ghost view = index_view(commits@, covered as nat, runs@);
        if commits.len() as u64 > i64::MAX as u64 {
            return Err(Failure::TooManyRevisions);
        }
        if covered > commits.len() {
            return Err(Failure::CoversTooMuch);
        }
        let entries: &Vec<(String, Vec<Run>)> = runs.entries();
        let mut i: usize = 0;
        while i < entries.len()
            invariant
                i <= entries@.len(),
                crate::map::lists(entries@, runs@),
                view == index_view(commits@, covered as nat, runs@),
                covered <= commits@.len() <= i64::MAX,
                forall|k: int|
                    0 <= k < i ==> runs_fit(
                        run_views((#[trigger] entries@[k]).1@),
                        covered as nat,
                    ),
            decreases entries@.len() - i,
        {
            if !fit(&entries[i].1, covered) {
                let attr: String = entries[i].0.clone();
                proof {
                    assert(runs@[attr@] == entries@[i as int].1);
                    assert(view.runs.contains_key(attr@));
                    assert(view.runs[attr@] == run_views(runs@[attr@]@));
                    assert forall|other: Seq<char>| #[trigger]
                        runs@.contains_key(other) && crate::text::precedes(
                            other,
                            attr@,
                        ) implies runs_fit(run_views(runs@[other]@), covered as nat) by {
                        let k = choose|k: int|
                            0 <= k < entries@.len() && #[trigger] entries@[k].0@ == other;
                        if k == i {
                            crate::text::precedes_is_irreflexive(other);
                        }
                        if k > i {
                            crate::text::precedes_is_transitive(other, attr@, other);
                            crate::text::precedes_is_irreflexive(other);
                        }
                        assert(entries@[k].1 == runs@[other]);
                    }
                }
                return Err(Failure::RunOutOfRange { attr });
            }
            i = i + 1;
        }
        proof {
            assert forall|attr: Seq<char>| #[trigger]
                view.runs.contains_key(attr) implies runs_fit(view.runs[attr], view.covered) by {
                assert(runs@.contains_key(attr));
                let k = choose|k: int|
                    0 <= k < entries@.len() && #[trigger] entries@[k].0@ == attr;
                assert(entries@[k].1 == runs@[attr]);
                assert(view.runs[attr] == run_views(runs@[attr]@));
            }
        }
        Ok(Index { commits, covered, runs })
    }

    /// The runs of an attribute, in index order; none where the attribute was
    /// never in the index.
    pub fn runs_of(&self, attr: &str) -> (r: Vec<Run>)
        ensures
            self@.valid(),
            run_views(r@) == self@.runs_of(attr@),
    {
        proof {
            use_type_invariant(self);
        }
        match self.runs.get(attr) {
            Some(runs) => {
                let mut out: Vec<Run> = Vec::new();
                let mut i: usize = 0;
                while i < runs.len()
                    invariant
                        i <= runs@.len(),
                        out@ == runs@.take(i as int),
                    decreases runs@.len() - i,
                {
                    out.push(runs[i].clone());
                    i = i + 1;
                    assert(out@ =~= runs@.take(i as int));
                }
                assert(out@ =~= runs@);
                out
            },
            None => {
                let out: Vec<Run> = Vec::new();
                assert(run_views(out@) =~= Seq::<RunView>::empty());
                out
            },
        }
    }

    /// The revision at an offset.
    pub fn revision(&self, off: i64) -> (r: Option<Revision>)
        ensures
            self@.valid(),
            r is Some <==> 0 <= off < self@.commits.len(),
            r matches Some(revision) ==> revision@ == self@.revision(off as int),
    {
        proof {
            use_type_invariant(self);
        }
        if off < 0 || off as u64 >= self.commits.len() as u64 {
            None
        } else {
            Some(self.revision_at(off))
        }
    }

    /// The revision at an offset that the index is known to hold.
    pub fn revision_at(&self, off: i64) -> (r: Revision)
        requires
            0 <= off < self@.commits.len(),
        ensures
            r@ == self@.revision(off as int),
    {
        assert(off < self.commits.len());
        let commit: &Commit = &self.commits[off as usize];
        Revision {
            off,
            rev: commit.rev.clone(),
            label: commit.label.clone(),
            date: commit.date.clone(),
        }
    }

    /// The newest revision whose commit begins with `prefix`.
    pub fn revision_by_prefix(&self, prefix: &str) -> (r: Option<Revision>)
        ensures
            self@.valid(),
            r matches Some(revision) ==> {
                &&& self@.found_by_prefix(prefix@, revision.off as int)
                &&& revision@ == self@.revision(revision.off as int)
            },
            r is None ==> forall|o: int|
                0 <= o < self@.commits.len() ==> !#[trigger] self@.has_prefix(o, prefix@),
    {
        proof {
            use_type_invariant(self);
        }
        let mut i: usize = self.commits.len();
        while i > 0
            invariant
                i <= self.commits@.len(),
                self@.valid(),
                forall|o: int|
                    i <= o < self@.commits.len() ==> !#[trigger] self@.has_prefix(o, prefix@),
            decreases i,
        {
            i = i - 1;
            let commit: &Commit = &self.commits[i];
            if starts_with(commit.rev.as_str(), prefix) {
                assert(self@.has_prefix(i as int, prefix@));
                return Some(self.revision_at(i as i64));
            }
        }
        None
    }

    /// The newest offset from `first` to `last` whose revision can be fetched.
    pub fn newest_materialisable_in(&self, first: i64, last: i64) -> (r: Option<i64>)
        ensures
            self@.valid(),
            r matches Some(off) ==> self@.newest_in(first as int, last as int, off as int),
            r is None ==> self@.none_in(first as int, last as int),
    {
        proof {
            use_type_invariant(self);
        }
        let len: i64 = self.commits.len() as i64;
        let mut i: i64 = if last < len {
            last
        } else {
            len - 1
        };
        while i >= first && i >= 0
            invariant
                i < len,
                len == self.commits.len(),
                self@.valid(),
                i <= last,
                forall|o: int| i < o <= last ==> !#[trigger] self@.materialisable(o),
            decreases i + 1,
        {
            assert(self@.commits[i as int] == self.commits@[i as int]@);
            if self.commits[i as usize].nar_hash.is_some() {
                return Some(i);
            }
            i = i - 1;
        }
        None
    }

    /// The newest offset that the runs speak of, or -1 where they speak of
    /// none.
    pub fn covered_tip(&self) -> (r: i64)
        ensures
            self@.valid(),
            r == self@.covered - 1,
    {
        proof {
            use_type_invariant(self);
        }
        self.covered as i64 - 1
    }
}

impl Run {
    /// The run of a version. One whose end is left open is current: it ends at
    /// the newest revision that the index covers.
    pub fn closed(version: String, first: i64, last: Option<i64>, covered: usize) -> (r: Run)
        requires
            covered <= i64::MAX,
        ensures
            r@ == (RunView {
                version: version@,
                first: first as int,
                last: match last {
                    Some(off) => off as int,
                    None => covered - 1,
                },
            }),
    {
        let last: i64 = match last {
            Some(off) => off,
            None => covered as i64 - 1,
        };
        Run { version, first, last }
    }
}

impl Commit {
    /// A revision, labelled with its date and the short form of its commit;
    /// nothing where the commit has no short form.
    pub fn labelled(rev: String, date: String, nar_hash: Option<String>) -> (r: Option<Commit>)
        ensures
            match crate::output::shortened(rev@) {
                Some(short) => r is Some && r->0@ == (CommitView {
                    rev: rev@,
                    label: date@ + "-"@ + short,
                    date: date@,
                    fetchable: nar_hash is Some,
                }),
                None => r is None,
            },
    {
        match short_rev(rev.as_str()) {
            Some(short) => {
                let mut label: String = date.clone();
                label.append("-");
                label.append(short.as_str());
                Some(Commit { rev, label, date, nar_hash })
            },
            None => None,
        }
    }
}

} // verus!
