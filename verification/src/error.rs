//! What can go wrong, and the sentence that says so.

use vstd::prelude::*;

use vstd::string::StringExecFns;

use crate::lock::LOCK_VERSION;
use crate::text::number;

verus! {

/// A failure, with the texts that it names.
#[derive(Debug)]
pub enum Failure<T> {
    /// A constraint ends in an `@` with nothing after it.
    NoVersion { attr: T },
    /// A constraint has nothing before the `@`, or is empty.
    NoAttribute { spec: T },
    /// The attribute was never in the index.
    NotIndexed { attr: T },
    /// Revisions satisfy the constraint, but none of them can be fetched.
    NotFetchable,
    /// A solve without constraints.
    NoConstraints,
    /// The attribute is known, but no version of it matches.
    NeverExisted { wanted: T },
    /// One attribute in two constraints of one command.
    GivenTwice { attr: T },
    /// The attribute has no pin in the lock.
    NotPinned { attr: T },
    /// The lock holds no pins at all.
    NoPins,
    /// An update that names neither a package nor all of them.
    NothingNamed,
    /// The lock file is of a version this reader does not know.
    UnknownLockVersion { found: u32 },
    /// A run of this attribute lies outside the revisions of its index.
    RunOutOfRange { attr: T },
    /// An index that claims to cover more revisions than it holds.
    CoversTooMuch,
    /// An index with more revisions than offsets can number.
    TooManyRevisions,
}

/// A failure as the library returns it.
pub type Error = Failure<String>;

impl View for Failure<String> {
    type V = Failure<Seq<char>>;

    open spec fn view(&self) -> Failure<Seq<char>> {
        match *self {
            Failure::NoVersion { attr } => Failure::NoVersion { attr: attr@ },
            Failure::NoAttribute { spec } => Failure::NoAttribute { spec: spec@ },
            Failure::NotIndexed { attr } => Failure::NotIndexed { attr: attr@ },
            Failure::NotFetchable => Failure::NotFetchable,
            Failure::NoConstraints => Failure::NoConstraints,
            Failure::NeverExisted { wanted } => Failure::NeverExisted { wanted: wanted@ },
            Failure::GivenTwice { attr } => Failure::GivenTwice { attr: attr@ },
            Failure::NotPinned { attr } => Failure::NotPinned { attr: attr@ },
            Failure::NoPins => Failure::NoPins,
            Failure::NothingNamed => Failure::NothingNamed,
            Failure::UnknownLockVersion { found } => Failure::UnknownLockVersion { found },
            Failure::RunOutOfRange { attr } => Failure::RunOutOfRange { attr: attr@ },
            Failure::CoversTooMuch => Failure::CoversTooMuch,
            Failure::TooManyRevisions => Failure::TooManyRevisions,
        }
    }
}

/// The sentence for a failure, about a lock file of this name.
pub open spec fn message_of(failure: Failure<Seq<char>>, file: Seq<char>) -> Seq<char> {
    match failure {
        Failure::NoVersion { attr } => attr + "@ has no version after the @. Write "@ + attr
            + " for any version, or "@ + attr + "@3.8 for a version."@,
        Failure::NoAttribute { spec } => spec + " has no attribute before the @"@,
        Failure::NotIndexed { attr } => attr
            + " is not in the index, so nothing can satisfy it."@,
        Failure::NotFetchable =>
            "every revision satisfying this has no narHash yet, so none of them can be fetched. Run tools/add-narhashes.sh, or wait for the next index build."@,
        Failure::NoConstraints => "give at least one constraint, e.g. python3@3.8"@,
        Failure::NeverExisted { wanted } => "no revision ever had "@ + wanted,
        Failure::GivenTwice { attr } => attr + " is given more than once"@,
        Failure::NotPinned { attr } => attr + " is not pinned in "@ + file,
        Failure::NoPins => file + " has no pins"@,
        Failure::NothingNamed => "name a package to update, or pass --all to move every pin"@,
        Failure::UnknownLockVersion { found } => file + " is version "@ + crate::text::decimal(found as nat)
            + ", and this mvs understands version "@ + crate::text::decimal(LOCK_VERSION as nat)
            + ". Update multiverse."@,
        Failure::RunOutOfRange { attr } => "a run of "@ + attr
            + " lies outside the revisions of the index"@,
        Failure::CoversTooMuch => "the index covers more revisions than it holds"@,
        Failure::TooManyRevisions => "the index holds more revisions than can be numbered"@,
    }
}

impl Failure<String> {
    /// The sentence for this failure, about a lock file of this name.
    pub fn message(&self, file: &str) -> (r: String)
        ensures
            r@ == message_of(self@, file@),
    {
        match self {
            Failure::NoVersion { attr } => {
                let mut out: String = attr.clone();
                out.append("@ has no version after the @. Write ");
                out.append(attr.as_str());
                out.append(" for any version, or ");
                out.append(attr.as_str());
                out.append("@3.8 for a version.");
                out
            },
            Failure::NoAttribute { spec } => {
                let mut out: String = spec.clone();
                out.append(" has no attribute before the @");
                out
            },
            Failure::NotIndexed { attr } => {
                let mut out: String = attr.clone();
                out.append(" is not in the index, so nothing can satisfy it.");
                out
            },
            Failure::NotFetchable => {
                "every revision satisfying this has no narHash yet, so none of them can be fetched. Run tools/add-narhashes.sh, or wait for the next index build.".to_owned()
            },
            Failure::NoConstraints => {
                "give at least one constraint, e.g. python3@3.8".to_owned()
            },
            Failure::NeverExisted { wanted } => {
                let mut out: String = "no revision ever had ".to_owned();
                out.append(wanted.as_str());
                out
            },
            Failure::GivenTwice { attr } => {
                let mut out: String = attr.clone();
                out.append(" is given more than once");
                out
            },
            Failure::NotPinned { attr } => {
                let mut out: String = attr.clone();
                out.append(" is not pinned in ");
                out.append(file);
                out
            },
            Failure::NoPins => {
                let mut out: String = file.to_owned();
                out.append(" has no pins");
                out
            },
            Failure::NothingNamed => {
                "name a package to update, or pass --all to move every pin".to_owned()
            },
            Failure::UnknownLockVersion { found } => {
                let mut out: String = file.to_owned();
                out.append(" is version ");
                out.append(number(*found as u64).as_str());
                out.append(", and this mvs understands version ");
                out.append(number(LOCK_VERSION as u64).as_str());
                out.append(". Update multiverse.");
                out
            },
            Failure::RunOutOfRange { attr } => {
                let mut out: String = "a run of ".to_owned();
                out.append(attr.as_str());
                out.append(" lies outside the revisions of the index");
                out
            },
            Failure::CoversTooMuch => {
                "the index covers more revisions than it holds".to_owned()
            },
            Failure::TooManyRevisions => {
                "the index holds more revisions than can be numbered".to_owned()
            },
        }
    }
}

} // verus!
