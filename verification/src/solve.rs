//! One revision that satisfies several constraints at once.
//!
//! Composing versions from different revisions gives a closure with two libcs
//! in it: fine for a leaf program, wrong for anything that links. Solving
//! inverts the question to one revision, one standard environment. Where there
//! is no such revision, the answer says which two constraints never
//! overlapped.

use vstd::prelude::*;

use vstd::string::StringExecFns;

use crate::constraint::{copy_optional, Constraint, ConstraintView};
use crate::error::{Error, Failure};
use crate::index::{Index, IndexView, Revision};
use crate::output::{plural, short_rev, Line, LineView};
use crate::resolve::{spans_for, versions_at};
use crate::span::{copy_spans, count, intersect, Span};

verus! {

/// The revisions that satisfy every constraint.
#[derive(Debug)]
pub struct Solution {
    /// How many there are.
    pub revisions: i64,
    /// The oldest of them.
    pub first: Revision,
    /// The newest of them.
    pub last: Revision,
    /// What the newest of them ships of each wanted attribute.
    pub versions: Vec<(String, String)>,
    /// All of them.
    pub spans: Vec<Span>,
}

/// Where one of several incompatible constraints was satisfied.
#[derive(Debug)]
pub struct Report {
    pub attr: String,
    pub version: Option<String>,
    /// The constraint in words.
    pub described: String,
    /// How many revisions satisfy it.
    pub revisions: i64,
    /// The oldest and the newest of them.
    pub ends: Option<(Revision, Revision)>,
    /// Whether the newest of them is the newest the index covers.
    pub current: bool,
}

/// Why nothing satisfies all constraints.
#[derive(Debug)]
pub struct Conflict {
    /// Every constraint on its own.
    pub reports: Vec<Report>,
    /// The places of the first two constraints that never overlapped. There
    /// need not be two: three constraints can have nothing in common while
    /// each overlaps each other one.
    pub disjoint: Option<(usize, usize)>,
}

/// The answer to a solve.
#[derive(Debug)]
pub enum Answer {
    Satisfiable(Solution),
    Unsatisfiable(Conflict),
}

/// What a sequence of constraints holds, constraint by constraint.
pub open spec fn constraint_views(constraints: Seq<Constraint>) -> Seq<ConstraintView> {
    constraints.map_values(|c: Constraint| c@)
}

/// What these texts mean as constraints, where each of them is one.
pub open spec fn meant(specs: Seq<Seq<char>>) -> Seq<ConstraintView> {
    specs.map_values(|s: Seq<char>| crate::constraint::parsed(s)->Ok_0)
}

/// What is wrong with the first of these texts that is not a constraint.
pub open spec fn parse_failure(specs: Seq<Seq<char>>) -> Option<Failure<Seq<char>>>
    decreases specs.len(),
{
    if specs.len() == 0 {
        None
    } else {
        match parse_failure(specs.drop_last()) {
            Some(e) => Some(e),
            None => match crate::constraint::parsed(specs.last()) {
                Ok(_) => None,
                Err(e) => Some(e),
            },
        }
    }
}

/// The first of these constraints whose attribute was never in the index.
pub open spec fn index_failure(index: IndexView, constraints: Seq<ConstraintView>) -> Option<
    Failure<Seq<char>>,
>
    decreases constraints.len(),
{
    if constraints.len() == 0 {
        None
    } else {
        match index_failure(index, constraints.drop_last()) {
            Some(e) => Some(e),
            None => if index.runs_of(constraints.last().attr).len() == 0 {
                Some(Failure::NotIndexed { attr: constraints.last().attr })
            } else {
                None
            },
        }
    }
}

/// Why a solve has no answer at all.
pub open spec fn solve_failure(index: IndexView, specs: Seq<Seq<char>>) -> Option<
    Failure<Seq<char>>,
> {
    match parse_failure(specs) {
        Some(e) => Some(e),
        None => if specs.len() == 0 {
            Some(Failure::NoConstraints)
        } else {
            index_failure(index, meant(specs))
        },
    }
}

/// The offsets whose revisions satisfy a constraint.
pub open spec fn satisfying(index: IndexView, c: ConstraintView) -> Set<int> {
    Set::new(|off: int| crate::resolve::satisfied(index, c, off))
}

/// Whether the revision at an offset satisfies every constraint.
pub open spec fn satisfies_all(
    index: IndexView,
    constraints: Seq<ConstraintView>,
    off: int,
) -> bool {
    forall|i: int|
        0 <= i < constraints.len() ==> crate::resolve::satisfied(
            index,
            #[trigger] constraints[i],
            off,
        )
}

/// The offsets whose revisions satisfy every constraint.
pub open spec fn common(index: IndexView, constraints: Seq<ConstraintView>) -> Set<int> {
    Set::new(|off: int| satisfies_all(index, constraints, off))
}

/// Whether a revision of the index is the oldest of a set of offsets.
pub open spec fn is_oldest(index: IndexView, offs: Set<int>, r: Revision) -> bool {
    &&& offs.contains(r.off as int)
    &&& r@ == index.revision(r.off as int)
    &&& forall|o: int| #[trigger] offs.contains(o) ==> r.off <= o
}

/// Whether a revision of the index is the newest of a set of offsets.
pub open spec fn is_newest(index: IndexView, offs: Set<int>, r: Revision) -> bool {
    &&& offs.contains(r.off as int)
    &&& r@ == index.revision(r.off as int)
    &&& forall|o: int| #[trigger] offs.contains(o) ==> o <= r.off
}

impl Solution {
    /// Whether this solves the constraints.
    pub open spec fn solves(
        self,
        index: IndexView,
        constraints: Seq<ConstraintView>,
    ) -> bool {
        let offs = common(index, constraints);
        &&& crate::span::merged(self.spans@)
        &&& forall|off: int| #[trigger]
            crate::span::covers(self.spans@, off) <==> satisfies_all(index, constraints, off)
        &&& self.spans@.len() > 0
        &&& offs.finite()
        &&& self.revisions == offs.len()
        &&& is_oldest(index, offs, self.first)
        &&& is_newest(index, offs, self.last)
        &&& self.versions@.len() == constraints.len()
        &&& forall|i: int|
            0 <= i < constraints.len() ==> {
                &&& (#[trigger] self.versions@[i]).0@ == constraints[i].attr
                &&& self.versions@[i].1@ == crate::resolve::version_or_unknown(
                    crate::resolve::shipped(index, constraints[i].attr, self.last.off as int),
                )
            }
    }
}

impl Report {
    /// Whether this is what there is to say of a constraint on its own.
    pub open spec fn reports(self, index: IndexView, c: ConstraintView) -> bool {
        let offs = satisfying(index, c);
        &&& self.attr@ == c.attr
        &&& crate::constraint::optional_text(self.version) == c.version
        &&& self.described@ == c.described()
        &&& offs.finite()
        &&& self.revisions == offs.len()
        &&& match self.ends {
            Some((oldest, newest)) => {
                &&& is_oldest(index, offs, oldest)
                &&& is_newest(index, offs, newest)
                &&& self.current == (newest.off >= index.covered - 1)
            },
            None => offs.len() == 0 && !self.current,
        }
    }
}

/// Whether two constraints have no revision in common.
pub open spec fn never_overlap(index: IndexView, a: ConstraintView, b: ConstraintView) -> bool {
    forall|off: int|
        !(#[trigger] crate::resolve::satisfied(index, a, off) && crate::resolve::satisfied(
            index,
            b,
            off,
        ))
}

/// Whether the constraints at two places, in order, have no revision in
/// common.
pub open spec fn disjoint_at(
    index: IndexView,
    constraints: Seq<ConstraintView>,
    i: int,
    j: int,
) -> bool {
    0 <= i < j < constraints.len() && never_overlap(index, constraints[i], constraints[j])
}

impl Conflict {
    /// Whether this is why the constraints have no solution.
    pub open spec fn explains(
        self,
        index: IndexView,
        constraints: Seq<ConstraintView>,
    ) -> bool {
        &&& forall|off: int| !#[trigger] satisfies_all(index, constraints, off)
        &&& self.reports@.len() == constraints.len()
        &&& forall|i: int|
            0 <= i < constraints.len() ==> (#[trigger] self.reports@[i]).reports(
                index,
                constraints[i],
            )
        &&& match self.disjoint {
            Some((i, j)) => {
                &&& disjoint_at(index, constraints, i as int, j as int)
                &&& forall|p: int, q: int| #[trigger]
                    disjoint_at(index, constraints, p, q) ==> i < p || (i == p && j <= q)
            },
            None => forall|p: int, q: int| !#[trigger] disjoint_at(index, constraints, p, q),
        }
    }

    /// What nothing ever had, in words.
    pub open spec fn subject_text(self) -> Seq<char> {
        if self.reports@.len() == 1 {
            self.reports@[0].described@
        } else if self.reports@.len() == 2 {
            "both"@
        } else {
            "all of these"@
        }
    }

    /// What nothing ever had, in words.
    pub fn subject(&self) -> (r: String)
        ensures
            r@ == self.subject_text(),
    {
        if self.reports.len() == 1 {
            self.reports[0].described.clone()
        } else if self.reports.len() == 2 {
            "both".to_owned()
        } else {
            "all of these".to_owned()
        }
    }
}

impl Solution {
    /// How many revisions there are, and the dates they reach from and to.
    pub fn headline(&self) -> (r: String)
        requires
            self.revisions >= 0,
        ensures
            r@ == crate::output::counted(self.revisions as nat, "revision"@) + " · "@
                + self.first.date@ + " .. "@ + self.last.date@,
    {
        let mut out: String = plural(self.revisions as u64, "revision");
        out.append(" · ");
        out.append(self.first.date.as_str());
        out.append(" .. ");
        out.append(self.last.date.as_str());
        out
    }

    /// The newest revision and its date; nothing where its commit has no short
    /// form.
    pub fn newest(&self) -> (r: Option<Line>)
        ensures
            match crate::output::shortened(self.last.rev@) {
                Some(short) => r is Some && r->0@ == (LineView {
                    before: "newest: "@,
                    marked: short,
                    after: " ("@ + self.last.date@ + ")"@,
                }),
                None => r is None,
            },
    {
        match short_rev(self.last.rev.as_str()) {
            Some(short) => {
                let mut after: String = " (".to_owned();
                after.append(self.last.date.as_str());
                after.append(")");
                Some(Line { before: "newest: ".to_owned(), marked: short, after })
            },
            None => None,
        }
    }

    /// The flake input that takes the newest revision.
    pub fn flake_input(&self) -> (r: String)
        ensures
            r@ == "  inputs.nixpkgs.url = \"github:NixOS/nixpkgs/"@ + self.last.rev@ + "\";"@,
    {
        let mut out: String = "  inputs.nixpkgs.url = \"github:NixOS/nixpkgs/".to_owned();
        out.append(self.last.rev.as_str());
        out.append("\";");
        out
    }
}

impl Report {
    /// From when to when the constraint was satisfied, in words.
    pub open spec fn range_text(self) -> (Seq<char>, Seq<char>) {
        match self.ends {
            None => ("never existed"@, Seq::empty()),
            Some((oldest, newest)) => (
                oldest.date@,
                if self.current {
                    "current"@
                } else {
                    newest.date@
                },
            ),
        }
    }

    /// From when to when the constraint was satisfied, in words.
    pub fn range(&self) -> (r: (String, String))
        ensures
            (r.0@, r.1@) == self.range_text(),
    {
        match &self.ends {
            None => ("never existed".to_owned(), String::new()),
            Some((oldest, newest)) => (
                oldest.date.clone(),
                if self.current {
                    "current".to_owned()
                } else {
                    newest.date.clone()
                },
            ),
        }
    }
}

impl Conflict {
    /// Say what nothing ever had.
    pub fn outcome(&self) -> (r: String)
        ensures
            r@ == "no revision ever had "@ + self.subject_text(),
    {
        let mut out: String = "no revision ever had ".to_owned();
        out.append(self.subject().as_str());
        out
    }

    /// The two constraints that are named, in words.
    pub open spec fn culprits_text(self) -> Option<(Seq<char>, Seq<char>)> {
        match self.disjoint {
            Some((i, j)) => Some(
                (self.reports@[i as int].described@, self.reports@[j as int].described@),
            ),
            None => None,
        }
    }

    /// The two constraints that are named, in words.
    pub fn culprits(&self) -> (r: Option<(String, String)>)
        requires
            self.disjoint matches Some((i, j)) ==> i < self.reports@.len() && j
                < self.reports@.len(),
        ensures
            match r {
                Some((a, b)) => self.culprits_text() == Some((a@, b@)),
                None => self.culprits_text() is None,
            },
    {
        match self.disjoint {
            Some((i, j)) => Some(
                (self.reports[i].described.clone(), self.reports[j].described.clone()),
            ),
            None => None,
        }
    }

    /// Say which two constraints never overlapped.
    pub fn reason(&self) -> (r: Option<String>)
        requires
            self.disjoint matches Some((i, j)) ==> i < self.reports@.len() && j
                < self.reports@.len(),
        ensures
            crate::constraint::optional_text(r) == match self.culprits_text() {
                Some((a, b)) => Some("  "@ + a + " and "@ + b + " never overlapped"@),
                None => None,
            },
    {
        match self.culprits() {
            Some((a, b)) => {
                let mut out: String = "  ".to_owned();
                out.append(a.as_str());
                out.append(" and ");
                out.append(b.as_str());
                out.append(" never overlapped");
                Some(out)
            },
            None => None,
        }
    }
}

/// Parse every text as a constraint.
pub fn parse_all(specs: &[String]) -> (r: Result<Vec<Constraint>, Error>)
    ensures
        match r {
            Ok(constraints) => {
                &&& parse_failure(crate::text::texts(specs@)) is None
                &&& constraint_views(constraints@) == meant(crate::text::texts(specs@))
            },
            Err(e) => parse_failure(crate::text::texts(specs@)) == Some(e@),
        },
{
    let ghost all = crate::text::texts(specs@);
    let mut out: Vec<Constraint> = Vec::new();
    let mut i: usize = 0;
    while i < specs.len()
        invariant
            i <= specs@.len(),
            all == crate::text::texts(specs@),
            parse_failure(all.take(i as int)) is None,
            constraint_views(out@) == meant(all.take(i as int)),
        decreases specs@.len() - i,
    {
        proof {
            assert(all.take(i + 1).drop_last() =~= all.take(i as int));
            assert(all.take(i + 1).last() == specs@[i as int]@);
        }
        match Constraint::parse(specs[i].as_str()) {
            Ok(c) => {
                let ghost before = out@;
                out.push(c);
                proof {
                    assert(constraint_views(out@) =~= constraint_views(before).push(c@));
                    assert(meant(all.take(i + 1)) =~= meant(all.take(i as int)).push(c@));
                }
            },
            Err(e) => {
                proof {
                    failure_persists(all, i + 1);
                }
                return Err(e);
            },
        }
        i = i + 1;
    }
    proof {
        assert(all.take(all.len() as int) =~= all);
    }
    Ok(out)
}

proof fn failure_persists(specs: Seq<Seq<char>>, n: int)
    requires
        0 <= n <= specs.len(),
        parse_failure(specs.take(n)) is Some,
    ensures
        parse_failure(specs) == parse_failure(specs.take(n)),
    decreases specs.len() - n,
{
    if n < specs.len() {
        assert(specs.take(n + 1).drop_last() =~= specs.take(n));
        failure_persists(specs, n + 1);
    } else {
        assert(specs.take(n) =~= specs);
    }
}

proof fn index_failure_persists(index: IndexView, constraints: Seq<ConstraintView>, n: int)
    requires
        0 <= n <= constraints.len(),
        index_failure(index, constraints.take(n)) is Some,
    ensures
        index_failure(index, constraints) == index_failure(index, constraints.take(n)),
    decreases constraints.len() - n,
{
    if n < constraints.len() {
        assert(constraints.take(n + 1).drop_last() =~= constraints.take(n));
        index_failure_persists(index, constraints, n + 1);
    } else {
        assert(constraints.take(n) =~= constraints);
    }
}

/// Whether `spans` are the merged spans of a constraint.
pub open spec fn are_spans_of(index: IndexView, c: ConstraintView, spans: Seq<Span>) -> bool {
    &&& crate::span::merged(spans)
    &&& forall|off: int| #[trigger]
        crate::span::covers(spans, off) <==> crate::resolve::satisfied(index, c, off)
}

/// The spans of every constraint.
fn spans_of_all(index: &Index, constraints: &Vec<Constraint>) -> (r: Result<Vec<Vec<Span>>, Error>)
    ensures
        index@.valid(),
        match r {
            Ok(each) => {
                &&& index_failure(index@, constraint_views(constraints@)) is None
                &&& each@.len() == constraints@.len()
                &&& forall|i: int|
                    0 <= i < each@.len() ==> are_spans_of(
                        index@,
                        constraints@[i]@,
                        (#[trigger] each@[i])@,
                    )
            },
            Err(e) => index_failure(index@, constraint_views(constraints@)) == Some(e@),
        },
{
    let _ = index.covered_tip();
    let ghost all = constraint_views(constraints@);
    let mut each: Vec<Vec<Span>> = Vec::new();
    let mut i: usize = 0;
    while i < constraints.len()
        invariant
            i <= constraints@.len(),
            index@.valid(),
            all == constraint_views(constraints@),
            index_failure(index@, all.take(i as int)) is None,
            each@.len() == i,
            forall|k: int|
                0 <= k < i ==> are_spans_of(index@, constraints@[k]@, (#[trigger] each@[k])@),
        decreases constraints@.len() - i,
    {
        proof {
            assert(all.take(i + 1).drop_last() =~= all.take(i as int));
            assert(all.take(i + 1).last() == constraints@[i as int]@);
        }
        match spans_for(index, &constraints[i]) {
            Ok(spans) => {
                each.push(spans);
            },
            Err(e) => {
                proof {
                    index_failure_persists(index@, all, i + 1);
                }
                return Err(e);
            },
        }
        i = i + 1;
    }
    proof {
        assert(all.take(all.len() as int) =~= all);
    }
    Ok(each)
}

/// Spans that cover only offsets of the index lie within it.
proof fn spans_are_in_range(spans: Seq<Span>, covered: nat)
    requires
        crate::span::merged(spans),
        forall|off: int| #[trigger] crate::span::covers(spans, off) ==> 0 <= off < covered,
    ensures
        forall|i: int|
            0 <= i < spans.len() ==> 0 <= (#[trigger] spans[i]).0 && spans[i].1 < covered,
{
    assert forall|i: int| 0 <= i < spans.len() implies 0 <= (#[trigger] spans[i]).0 && spans[i].1
        < covered by {
        assert(crate::span::spans_over(spans[i], spans[i].0 as int));
        assert(crate::span::spans_over(spans[i], spans[i].1 as int));
        assert(crate::span::covers(spans, spans[i].0 as int));
        assert(crate::span::covers(spans, spans[i].1 as int));
    }
}

proof fn spans_of_are_countable(index: IndexView, c: ConstraintView, spans: Seq<Span>)
    requires
        index.valid(),
        are_spans_of(index, c, spans),
    ensures
        crate::span::countable(spans),
        forall|i: int|
            0 <= i < spans.len() ==> 0 <= (#[trigger] spans[i]).0 && spans[i].1 < index.covered,
{
    assert forall|off: int| #[trigger] crate::span::covers(spans, off) implies 0 <= off
        < index.covered by {
        crate::resolve::satisfying_offset_is_covered(index, c, off);
    }
    spans_are_in_range(spans, index.covered);
    crate::span::ordered_is_countable(spans, index.covered as int);
}

/// The ends of merged spans are the oldest and the newest offset they cover.
proof fn ends_are_extreme(spans: Seq<Span>)
    requires
        crate::span::merged(spans),
        spans.len() > 0,
    ensures
        crate::span::covers(spans, spans[0].0 as int),
        crate::span::covers(spans, spans.last().1 as int),
        forall|off: int| #[trigger]
            crate::span::covers(spans, off) ==> spans[0].0 <= off <= spans.last().1,
{
    assert(crate::span::spans_over(spans[0], spans[0].0 as int));
    assert(crate::span::spans_over(spans[spans.len() - 1], spans.last().1 as int));
    assert forall|off: int| #[trigger] crate::span::covers(spans, off) implies spans[0].0 <= off
        <= spans.last().1 by {
        let i = choose|i: int|
            0 <= i < spans.len() && #[trigger] crate::span::spans_over(spans[i], off);
        if i > 0 {
            assert(spans[0].1 + 1 < spans[i].0);
        }
        if i < spans.len() - 1 {
            assert(spans[i].1 + 1 < spans[spans.len() - 1].0);
        }
    }
}

/// How many revisions satisfy each constraint.
fn counts_of_all(index: &Index, constraints: &Vec<Constraint>, each: &Vec<Vec<Span>>) -> (r: Vec<
    i64,
>)
    requires
        index@.valid(),
        each@.len() == constraints@.len(),
        forall|i: int|
            0 <= i < each@.len() ==> are_spans_of(
                index@,
                constraints@[i]@,
                (#[trigger] each@[i])@,
            ),
    ensures
        r@.len() == each@.len(),
        forall|i: int| 0 <= i < r@.len() ==> #[trigger] r@[i] == crate::span::total(each@[i]@),
{
    let mut out: Vec<i64> = Vec::new();
    let mut i: usize = 0;
    while i < each.len()
        invariant
            i <= each@.len(),
            index@.valid(),
            each@.len() == constraints@.len(),
            forall|k: int|
                0 <= k < each@.len() ==> are_spans_of(
                    index@,
                    constraints@[k]@,
                    (#[trigger] each@[k])@,
                ),
            out@.len() == i,
            forall|k: int| 0 <= k < i ==> #[trigger] out@[k] == crate::span::total(each@[k]@),
        decreases each@.len() - i,
    {
        proof {
            spans_of_are_countable(index@, constraints@[i as int]@, each@[i as int]@);
        }
        out.push(count(each[i].as_slice()));
        i = i + 1;
    }
    out
}

/// The places of these counts, smallest count first: an empty intersection
/// then shows sooner.
fn narrowest_first(counts: &Vec<i64>) -> (order: Vec<usize>)
    ensures
        order@.len() == counts@.len(),
        forall|k: int| 0 <= k < order@.len() ==> (#[trigger] order@[k]) < counts@.len(),
        forall|i: usize| i < counts@.len() ==> #[trigger] order@.contains(i),
        forall|a: int, b: int|
            0 <= a < b < order@.len() ==> counts@[order@[a] as int] <= counts@[order@[b] as int],
{
    let mut order: Vec<usize> = Vec::new();
    let mut i: usize = 0;
    while i < counts.len()
        invariant
            i <= counts@.len(),
            order@.len() == i,
            forall|k: int| 0 <= k < order@.len() ==> (#[trigger] order@[k]) < i,
            forall|k: usize| k < i ==> #[trigger] order@.contains(k),
            forall|a: int, b: int|
                0 <= a < b < order@.len() ==> counts@[order@[a] as int]
                    <= counts@[order@[b] as int],
        decreases counts@.len() - i,
    {
        let mut at: usize = 0;
        while at < order.len() && counts[order[at]] <= counts[i]
            invariant
                at <= order@.len(),
                i < counts@.len(),
                forall|k: int| 0 <= k < order@.len() ==> (#[trigger] order@[k]) < i,
                forall|k: int| 0 <= k < at ==> counts@[order@[k] as int] <= counts@[i as int],
            decreases order@.len() - at,
        {
            at = at + 1;
        }
        let ghost before = order@;
        order.insert(at, i);
        proof {
            assert(forall|k: int| 0 <= k < at ==> order@[k] == before[k]);
            assert(forall|k: int| at < k < order@.len() ==> order@[k] == before[k - 1]);
            assert(order@[at as int] == i);
            assert forall|k: usize| k < i + 1 implies #[trigger] order@.contains(k) by {
                if k < i {
                    assert(before.contains(k));
                    let m = choose|m: int| 0 <= m < before.len() && before[m] == k;
                    if m < at {
                        assert(order@[m] == k);
                    } else {
                        assert(order@[m + 1] == k);
                    }
                }
            }
        }
        i = i + 1;
    }
    order
}

/// Whether every one of these span sets covers an offset.
spec fn all_cover(each: Seq<Vec<Span>>, off: int) -> bool {
    forall|i: int| 0 <= i < each.len() ==> crate::span::covers((#[trigger] each[i])@, off)
}

/// What all of several span sets have in common.
fn intersect_all(each: &Vec<Vec<Span>>, order: &Vec<usize>) -> (r: Vec<Span>)
    requires
        each@.len() > 0,
        order@.len() == each@.len(),
        forall|k: int| 0 <= k < order@.len() ==> (#[trigger] order@[k]) < each@.len(),
        forall|i: usize| i < each@.len() ==> #[trigger] order@.contains(i),
        forall|i: int| 0 <= i < each@.len() ==> crate::span::merged((#[trigger] each@[i])@),
    ensures
        crate::span::merged(r@),
        forall|off: int| #[trigger] crate::span::covers(r@, off) <==> all_cover(each@, off),
{
    let n: usize = each.len();
    let mut out: Vec<Span> = copy_spans(&each[order[0]]);
    let mut k: usize = 1;
    while k < order.len()
        invariant
            1 <= k <= order@.len(),
            order@.len() == each@.len(),
            forall|m: int| 0 <= m < order@.len() ==> (#[trigger] order@[m]) < each@.len(),
            forall|i: int| 0 <= i < each@.len() ==> crate::span::merged((#[trigger] each@[i])@),
            crate::span::merged(out@),
            forall|off: int| #[trigger]
                crate::span::covers(out@, off) <==> forall|m: int|
                    0 <= m < k ==> crate::span::covers(each@[(#[trigger] order@[m]) as int]@, off),
        decreases order@.len() - k,
    {
        let ghost before = out@;
        let next: &Vec<Span> = &each[order[k]];
        out = intersect(out.as_slice(), next.as_slice());
        assert forall|off: int| #[trigger] crate::span::covers(out@, off) <==> forall|m: int|
            0 <= m < k + 1 ==> crate::span::covers(
                each@[(#[trigger] order@[m]) as int]@,
                off,
            ) by {
            assert(crate::span::covers(out@, off) <==> crate::span::covers(before, off)
                && crate::span::covers(each@[order@[k as int] as int]@, off));
        }
        k = k + 1;
    }
    assert forall|off: int| #[trigger] crate::span::covers(out@, off) <==> all_cover(
        each@,
        off,
    ) by {
        if crate::span::covers(out@, off) {
            assert forall|i: int| 0 <= i < each@.len() implies crate::span::covers(
                (#[trigger] each@[i])@,
                off,
            ) by {
                assert(i < n);
                assert(order@.contains(i as usize));
                let m = choose|m: int| 0 <= m < order@.len() && order@[m] == i as usize;
                assert(order@[m] as int == i);
            }
        }
        if all_cover(each@, off) {
            assert forall|m: int| 0 <= m < k implies crate::span::covers(
                each@[(#[trigger] order@[m]) as int]@,
                off,
            ) by {
                assert(crate::span::covers(each@[order@[m] as int]@, off));
            }
        }
    }
    out
}

/// The places of the first two constraints that have no revision in common.
fn first_disjoint(index: &Index, constraints: &Vec<Constraint>, each: &Vec<Vec<Span>>) -> (r:
    Option<(usize, usize)>)
    requires
        each@.len() == constraints@.len(),
        forall|i: int|
            0 <= i < each@.len() ==> are_spans_of(
                index@,
                constraints@[i]@,
                (#[trigger] each@[i])@,
            ),
    ensures
        r matches Some((i, j)) ==> {
            &&& disjoint_at(index@, constraint_views(constraints@), i as int, j as int)
            &&& forall|p: int, q: int| #[trigger]
                disjoint_at(index@, constraint_views(constraints@), p, q) ==> i < p || (i == p && j
                    <= q)
        },
        r is None ==> forall|p: int, q: int| !#[trigger]
            disjoint_at(index@, constraint_views(constraints@), p, q),
{
    let ghost all = constraint_views(constraints@);
    let mut i: usize = 0;
    while i < each.len()
        invariant
            i <= each@.len(),
            each@.len() == constraints@.len(),
            all == constraint_views(constraints@),
            forall|k: int|
                0 <= k < each@.len() ==> are_spans_of(
                    index@,
                    constraints@[k]@,
                    (#[trigger] each@[k])@,
                ),
            forall|p: int, q: int| p < i ==> !#[trigger] disjoint_at(index@, all, p, q),
        decreases each@.len() - i,
    {
        let mut j: usize = i + 1;
        while j < each.len()
            invariant
                i < j <= each@.len(),
                each@.len() == constraints@.len(),
                all == constraint_views(constraints@),
                forall|k: int|
                    0 <= k < each@.len() ==> are_spans_of(
                        index@,
                        constraints@[k]@,
                        (#[trigger] each@[k])@,
                    ),
                forall|p: int, q: int|
                    p < i || (p == i && q < j) ==> !#[trigger] disjoint_at(index@, all, p, q),
            decreases each@.len() - j,
        {
            assert(are_spans_of(index@, all[i as int], each@[i as int]@));
            assert(are_spans_of(index@, all[j as int], each@[j as int]@));
            let shared: Vec<Span> = intersect(each[i].as_slice(), each[j].as_slice());
            if shared.len() == 0 {
                assert forall|off: int| !(#[trigger] crate::resolve::satisfied(
                    index@,
                    all[i as int],
                    off,
                ) && crate::resolve::satisfied(index@, all[j as int], off)) by {
                    if crate::resolve::satisfied(index@, all[i as int], off)
                        && crate::resolve::satisfied(index@, all[j as int], off) {
                        assert(crate::span::covers(each@[i as int]@, off));
                        assert(crate::span::covers(each@[j as int]@, off));
                        assert(crate::span::covers(shared@, off));
                    }
                }
                assert(disjoint_at(index@, all, i as int, j as int));
                return Some((i, j));
            }
            proof {
                let off = shared@[0].0 as int;
                assert(crate::span::spans_over(shared@[0], off));
                assert(crate::span::covers(shared@, off));
                assert(crate::span::covers(each@[i as int]@, off));
                assert(crate::span::covers(each@[j as int]@, off));
                assert(crate::resolve::satisfied(index@, all[i as int], off));
                assert(crate::resolve::satisfied(index@, all[j as int], off));
                assert(!disjoint_at(index@, all, i as int, j as int));
            }
            j = j + 1;
        }
        i = i + 1;
    }
    None
}

/// What there is to say of one constraint on its own.
fn report_on(index: &Index, constraint: &Constraint, spans: &Vec<Span>) -> (r: Report)
    requires
        index@.valid(),
        are_spans_of(index@, constraint@, spans@),
    ensures
        r.reports(index@, constraint@),
{
    let ghost offs = satisfying(index@, constraint@);
    proof {
        spans_of_are_countable(index@, constraint@, spans@);
        crate::span::count_is_number_of_offsets(spans@);
        assert(crate::span::offsets(spans@) =~= offs);
    }
    let revisions: i64 = count(spans.as_slice());
    if spans.len() == 0 {
        assert(offs.len() == 0);
        return Report {
            attr: constraint.attr.clone(),
            version: copy_optional(&constraint.version),
            described: constraint.describe(),
            revisions,
            ends: None,
            current: false,
        };
    }
    proof {
        ends_are_extreme(spans@);
        assert(spans@[0].0 <= spans@[0].1);
    }
    let first: Revision = index.revision_at(spans[0].0);
    let last: Revision = index.revision_at(spans[spans.len() - 1].1);
    proof {
        assert forall|o: int| #[trigger] offs.contains(o) implies first.off <= o && o
            <= last.off by {
            assert(crate::span::covers(spans@, o));
        }
        assert(offs.contains(first.off as int));
        assert(offs.contains(last.off as int));
    }
    let current: bool = last.off >= index.covered_tip();
    Report {
        attr: constraint.attr.clone(),
        version: copy_optional(&constraint.version),
        described: constraint.describe(),
        revisions,
        ends: Some((first, last)),
        current,
    }
}

/// Say why nothing satisfies the constraints: which two never overlapped, and
/// where each of them was satisfied.
fn unsatisfiable(index: &Index, constraints: &Vec<Constraint>, each: &Vec<Vec<Span>>) -> (r:
    Conflict)
    requires
        index@.valid(),
        each@.len() == constraints@.len(),
        forall|i: int|
            0 <= i < each@.len() ==> are_spans_of(
                index@,
                constraints@[i]@,
                (#[trigger] each@[i])@,
            ),
        forall|off: int| !#[trigger]
            satisfies_all(index@, constraint_views(constraints@), off),
    ensures
        r.explains(index@, constraint_views(constraints@)),
{
    let mut reports: Vec<Report> = Vec::new();
    let mut i: usize = 0;
    while i < constraints.len()
        invariant
            i <= constraints@.len(),
            index@.valid(),
            each@.len() == constraints@.len(),
            forall|k: int|
                0 <= k < each@.len() ==> are_spans_of(
                    index@,
                    constraints@[k]@,
                    (#[trigger] each@[k])@,
                ),
            reports@.len() == i,
            forall|k: int|
                0 <= k < i ==> (#[trigger] reports@[k]).reports(index@, constraints@[k]@),
        decreases constraints@.len() - i,
    {
        assert(are_spans_of(index@, constraints@[i as int]@, each@[i as int]@));
        reports.push(report_on(index, &constraints[i], &each[i]));
        i = i + 1;
    }
    let disjoint: Option<(usize, usize)> = first_disjoint(index, constraints, each);
    Conflict { reports, disjoint }
}

/// Find every revision that satisfies all of several constraints, or say why
/// there is none.
pub fn solve(index: &Index, specs: &[String]) -> (r: Result<Answer, Error>)
    ensures
        index@.valid(),
        match r {
            Ok(Answer::Satisfiable(solution)) => {
                &&& solve_failure(index@, crate::text::texts(specs@)) is None
                &&& solution.solves(index@, meant(crate::text::texts(specs@)))
            },
            Ok(Answer::Unsatisfiable(conflict)) => {
                &&& solve_failure(index@, crate::text::texts(specs@)) is None
                &&& conflict.explains(index@, meant(crate::text::texts(specs@)))
            },
            Err(e) => solve_failure(index@, crate::text::texts(specs@)) == Some(e@),
        },
{
    let _ = index.covered_tip();
    let constraints: Vec<Constraint> = match parse_all(specs) {
        Ok(constraints) => constraints,
        Err(e) => {
            return Err(e);
        },
    };
    let ghost all = meant(crate::text::texts(specs@));
    assert(all.len() == constraints@.len());
    assert(forall|i: int| 0 <= i < all.len() ==> all[i] == constraints@[i]@) by {
        assert forall|i: int| 0 <= i < all.len() implies all[i] == constraints@[i]@ by {
            assert(constraint_views(constraints@)[i] == constraints@[i]@);
        }
    }
    if constraints.len() == 0 {
        return Err(Failure::NoConstraints);
    }
    let each: Vec<Vec<Span>> = match spans_of_all(index, &constraints) {
        Ok(each) => each,
        Err(e) => {
            return Err(e);
        },
    };
    let counts: Vec<i64> = counts_of_all(index, &constraints, &each);
    let order: Vec<usize> = narrowest_first(&counts);
    assert forall|i: int| 0 <= i < each@.len() implies crate::span::merged(
        (#[trigger] each@[i])@,
    ) by {
        assert(are_spans_of(index@, constraints@[i]@, each@[i]@));
    }
    let spans: Vec<Span> = intersect_all(&each, &order);
    assert forall|off: int| #[trigger] crate::span::covers(spans@, off) <==> satisfies_all(
        index@,
        all,
        off,
    ) by {
        if all_cover(each@, off) {
            assert forall|i: int| 0 <= i < all.len() implies crate::resolve::satisfied(
                index@,
                #[trigger] all[i],
                off,
            ) by {
                assert(are_spans_of(index@, constraints@[i]@, each@[i]@));
                assert(crate::span::covers(each@[i]@, off));
            }
        }
        if satisfies_all(index@, all, off) {
            assert forall|i: int| 0 <= i < each@.len() implies crate::span::covers(
                (#[trigger] each@[i])@,
                off,
            ) by {
                assert(are_spans_of(index@, constraints@[i]@, each@[i]@));
                assert(crate::resolve::satisfied(index@, all[i], off));
            }
        }
    }
    if spans.len() == 0 {
        assert forall|off: int| !#[trigger] satisfies_all(index@, all, off) by {
            assert(!crate::span::covers(spans@, off));
        }
        return Ok(Answer::Unsatisfiable(unsatisfiable(index, &constraints, &each)));
    }
    let ghost offs = common(index@, all);
    proof {
        assert forall|off: int| #[trigger] crate::span::covers(spans@, off) implies 0 <= off
            < index@.covered by {
            assert(satisfies_all(index@, all, off));
            assert(crate::resolve::satisfied(index@, all[0], off));
            crate::resolve::satisfying_offset_is_covered(index@, all[0], off);
        }
        spans_are_in_range(spans@, index@.covered);
        crate::span::ordered_is_countable(spans@, index@.covered as int);
        crate::span::count_is_number_of_offsets(spans@);
        assert(crate::span::offsets(spans@) =~= offs);
        ends_are_extreme(spans@);
        assert(spans@[0].0 <= spans@[0].1);
    }
    let revisions: i64 = count(spans.as_slice());
    let first: Revision = index.revision_at(spans[0].0);
    let last: Revision = index.revision_at(spans[spans.len() - 1].1);
    proof {
        assert forall|o: int| #[trigger] offs.contains(o) implies first.off <= o && o
            <= last.off by {
            assert(crate::span::covers(spans@, o));
        }
        assert(offs.contains(first.off as int));
        assert(offs.contains(last.off as int));
    }
    let versions: Vec<(String, String)> = versions_at(index, &constraints, last.off);
    let solution: Solution = Solution { revisions, first, last, versions, spans };
    assert(solution.solves(index@, all));
    Ok(Answer::Satisfiable(solution))
}

/// There is one solution at most: any two agree on every field.
pub proof fn solution_is_unique(
    index: IndexView,
    constraints: Seq<ConstraintView>,
    a: Solution,
    b: Solution,
)
    requires
        a.solves(index, constraints),
        b.solves(index, constraints),
    ensures
        a.revisions == b.revisions,
        a.first@ == b.first@,
        a.last@ == b.last@,
        a.spans@ == b.spans@,
        a.versions@.len() == b.versions@.len(),
        forall|i: int|
            0 <= i < a.versions@.len() ==> (#[trigger] a.versions@[i]).0@ == b.versions@[i].0@
                && a.versions@[i].1@ == b.versions@[i].1@,
{
    let offs = common(index, constraints);
    assert forall|off: int| #[trigger] crate::span::covers(a.spans@, off) <==> crate::span::covers(
        b.spans@,
        off,
    ) by {
        assert(crate::span::covers(b.spans@, off) <==> satisfies_all(index, constraints, off));
    }
    crate::span::merged_spans_are_unique(a.spans@, b.spans@);
    assert(offs.contains(a.first.off as int) && offs.contains(b.first.off as int));
    assert(offs.contains(a.last.off as int) && offs.contains(b.last.off as int));
    assert forall|i: int| 0 <= i < a.versions@.len() implies (#[trigger] a.versions@[i]).0@
        == b.versions@[i].0@ && a.versions@[i].1@ == b.versions@[i].1@ by {
        assert(b.versions@[i].0@ == constraints[i].attr);
    }
}

/// Constraints are never both satisfiable and not.
pub proof fn answers_exclude_each_other(
    index: IndexView,
    constraints: Seq<ConstraintView>,
    solution: Solution,
    conflict: Conflict,
)
    requires
        solution.solves(index, constraints),
    ensures
        !conflict.explains(index, constraints),
{
    assert(common(index, constraints).contains(solution.last.off as int));
    assert(satisfies_all(index, constraints, solution.last.off as int));
}

/// Where two constraints have no solution, they are the two that are named.
pub proof fn two_in_conflict_are_named(
    index: IndexView,
    constraints: Seq<ConstraintView>,
    conflict: Conflict,
)
    requires
        constraints.len() == 2,
        conflict.explains(index, constraints),
    ensures
        conflict.disjoint == Some((0usize, 1usize)),
{
    assert forall|off: int|
        !(#[trigger] crate::resolve::satisfied(index, constraints[0], off)
            && crate::resolve::satisfied(index, constraints[1], off)) by {
        assert(!satisfies_all(index, constraints, off));
    }
    assert(disjoint_at(index, constraints, 0, 1));
}

/// One more constraint never lets in another revision.
pub proof fn more_constraints_narrow(
    index: IndexView,
    constraints: Seq<ConstraintView>,
    c: ConstraintView,
)
    ensures
        common(index, constraints.push(c)) == common(index, constraints).intersect(
            satisfying(index, c),
        ),
{
    let more = constraints.push(c);
    assert forall|off: int| common(index, more).contains(off) <==> common(
        index,
        constraints,
    ).intersect(satisfying(index, c)).contains(off) by {
        if satisfies_all(index, more, off) {
            assert(crate::resolve::satisfied(index, more[constraints.len() as int], off));
            assert forall|i: int| 0 <= i < constraints.len() implies crate::resolve::satisfied(
                index,
                #[trigger] constraints[i],
                off,
            ) by {
                assert(more[i] == constraints[i]);
                assert(crate::resolve::satisfied(index, more[i], off));
            }
        }
        if satisfies_all(index, constraints, off) && crate::resolve::satisfied(index, c, off) {
            assert forall|i: int| 0 <= i < more.len() implies crate::resolve::satisfied(
                index,
                #[trigger] more[i],
                off,
            ) by {
                if i < constraints.len() {
                    assert(more[i] == constraints[i]);
                    assert(crate::resolve::satisfied(index, constraints[i], off));
                }
            }
        }
    }
    assert(common(index, more) =~= common(index, constraints).intersect(satisfying(index, c)));
}

} // verus!
