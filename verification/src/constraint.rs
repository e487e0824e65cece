//! What a caller asks for: an attribute, and perhaps the versions it may have.

use vstd::prelude::*;

use vstd::string::{StrSliceExecFns, StringExecFns};

use crate::error::{Error, Failure};
use crate::text::characters;
use crate::version::components;

verus! {

/// A wanted attribute, and optionally the version prefix it must match.
#[derive(Debug)]
pub struct Constraint {
    pub attr: String,
    pub version: Option<String>,
}

/// What a [`Constraint`] holds.
pub struct ConstraintView {
    pub attr: Seq<char>,
    pub version: Option<Seq<char>>,
}

/// What an optional string holds.
pub open spec fn optional_text(s: Option<String>) -> Option<Seq<char>> {
    match s {
        Some(t) => Some(t@),
        None => None,
    }
}

/// A copy of an optional string.
pub fn copy_optional(s: &Option<String>) -> (r: Option<String>)
    ensures
        r == *s,
{
    match s {
        Some(t) => Some(t.clone()),
        None => None,
    }
}

impl View for Constraint {
    type V = ConstraintView;

    open spec fn view(&self) -> ConstraintView {
        ConstraintView { attr: self.attr@, version: optional_text(self.version) }
    }
}

/// The place of the first `@` at or after `i`, or the length where there is
/// none.
pub open spec fn at_sign(s: Seq<char>, i: int) -> int
    decreases s.len() - i,
{
    if 0 <= i < s.len() && s[i] != '@' {
        at_sign(s, i + 1)
    } else {
        i
    }
}

/// What `attr` or `attr@version` means as a constraint.
pub open spec fn parsed(s: Seq<char>) -> Result<ConstraintView, Failure<Seq<char>>> {
    let at = at_sign(s, 0);
    if at < s.len() && at + 1 == s.len() {
        Err(Failure::NoVersion { attr: s.take(at) })
    } else if at == 0 {
        Err(Failure::NoAttribute { spec: s })
    } else if at < s.len() {
        Ok(ConstraintView { attr: s.take(at), version: Some(s.skip(at + 1)) })
    } else {
        Ok(ConstraintView { attr: s, version: None })
    }
}

impl ConstraintView {
    /// Whether a version satisfies the constraint's prefix.
    pub open spec fn accepts(self, version: Seq<char>) -> bool {
        match self.version {
            Some(prefix) => crate::version::components_of(prefix).is_prefix_of(crate::version::components_of(version)),
            None => true,
        }
    }

    /// The constraint in words.
    pub open spec fn described(self) -> Seq<char> {
        match self.version {
            Some(prefix) => self.attr + " "@ + prefix + ".x"@,
            None => self.attr,
        }
    }
}

impl Constraint {
    /// Parse `attr` or `attr@version`.
    pub fn parse(spec: &str) -> (r: Result<Constraint, Error>)
        ensures
            match r {
                Ok(c) => parsed(spec@) == Ok::<ConstraintView, Failure<Seq<char>>>(c@),
                Err(e) => parsed(spec@) == Err::<ConstraintView, Failure<Seq<char>>>(e@),
            },
    {
        let chars: Vec<char> = characters(spec);
        let mut at: usize = 0;
        while at < chars.len() && chars[at] != '@'
            invariant
                at <= chars@.len(),
                chars@ == spec@,
                at_sign(spec@, 0) == at_sign(spec@, at as int),
            decreases chars@.len() - at,
        {
            at = at + 1;
        }
        if at < chars.len() && at + 1 == chars.len() {
            return Err(Failure::NoVersion { attr: spec.substring_char(0, at).to_owned() });
        }
        if at == 0 {
            return Err(Failure::NoAttribute { spec: spec.to_owned() });
        }
        if at < chars.len() {
            let attr: String = spec.substring_char(0, at).to_owned();
            let version: String = spec.substring_char(at + 1, chars.len()).to_owned();
            Ok(Constraint { attr, version: Some(version) })
        } else {
            Ok(Constraint { attr: spec.to_owned(), version: None })
        }
    }

    /// The constraint in words: the attribute, and the versions it may have.
    pub fn describe(&self) -> (r: String)
        ensures
            r@ == self@.described(),
    {
        match &self.version {
            Some(v) => {
                let mut out: String = self.attr.clone();
                out.append(" ");
                out.append(v.as_str());
                out.append(".x");
                out
            },
            None => self.attr.clone(),
        }
    }

    /// Whether a version satisfies the constraint's prefix.
    pub fn admits(&self, version: &str) -> (r: bool)
        ensures
            r == self@.accepts(version@),
    {
        match &self.version {
            Some(prefix) => matches(version, prefix.as_str()),
            None => true,
        }
    }

    /// A copy of the constraint.
    pub fn copy(&self) -> (r: Constraint)
        ensures
            r == *self,
    {
        Constraint { attr: self.attr.clone(), version: copy_optional(&self.version) }
    }
}

/// Whether `version` satisfies a prefix.
///
/// Matched component by component rather than by characters, which is the
/// difference between `3.1` meaning 3.1.x and it also matching 3.10 to 3.13.
pub fn matches(version: &str, prefix: &str) -> (r: bool)
    ensures
        r == crate::version::components_of(prefix@).is_prefix_of(crate::version::components_of(version@)),
{
    let wanted: Vec<String> = components(prefix);
    let have: Vec<String> = components(version);
    let ghost w = crate::version::components_of(prefix@);
    let ghost h = crate::version::components_of(version@);
    if wanted.len() > have.len() {
        assert(crate::text::texts(wanted@).len() == wanted@.len());
        assert(crate::text::texts(have@).len() == have@.len());
        return false;
    }
    let mut i: usize = 0;
    while i < wanted.len()
        invariant
            i <= wanted@.len() <= have@.len(),
            crate::text::texts(wanted@) == w,
            crate::text::texts(have@) == h,
            w == crate::version::components_of(prefix@),
            h == crate::version::components_of(version@),
            forall|k: int| 0 <= k < i ==> w[k] == h[k],
        decreases wanted@.len() - i,
    {
        assert(w[i as int] == wanted@[i as int]@);
        assert(h[i as int] == have@[i as int]@);
        if wanted[i] != have[i] {
            assert(h.subrange(0, w.len() as int)[i as int] == h[i as int]);
            return false;
        }
        i = i + 1;
    }
    assert(w =~= h.subrange(0, w.len() as int));
    true
}

proof fn at_sign_is_first(s: Seq<char>, i: int, at: int)
    requires
        0 <= i <= at <= s.len(),
        forall|k: int| 0 <= k < at ==> #[trigger] s[k] != '@',
        at < s.len() ==> s[at] == '@',
    ensures
        at_sign(s, i) == at,
    decreases at - i,
{
    if i < at {
        at_sign_is_first(s, i + 1, at);
    }
}

/// Parsing gives back what was written: an attribute, which holds no `@`, and
/// a version, joined by an `@`; or the attribute alone.
pub proof fn parsing_gives_back_what_was_written(attr: Seq<char>, version: Seq<char>)
    requires
        attr.len() > 0,
        !attr.contains('@'),
        version.len() > 0,
    ensures
        parsed(attr + "@"@ + version) == Ok::<ConstraintView, Failure<Seq<char>>>(
            (ConstraintView { attr, version: Some(version) }),
        ),
        parsed(attr) == Ok::<ConstraintView, Failure<Seq<char>>>(
            (ConstraintView { attr, version: None }),
        ),
{
    reveal_strlit("@");
    let s = attr + "@"@ + version;
    let n = attr.len() as int;
    assert forall|k: int| 0 <= k < n implies #[trigger] s[k] != '@' && attr[k] != '@' by {
        assert(attr.contains(attr[k]));
        assert(s[k] == attr[k]);
    }
    assert(s[n] == '@');
    at_sign_is_first(s, 0, n);
    assert(s.take(n) =~= attr);
    assert(s.skip(n + 1) =~= version);
    assert forall|k: int| 0 <= k < n implies #[trigger] attr[k] != '@' by {
        assert(attr.contains(attr[k]));
    }
    at_sign_is_first(attr, 0, n);
}

/// A version satisfies itself as a prefix, and what satisfies a prefix
/// satisfies every prefix of that prefix.
pub proof fn prefixes_nest(attr: Seq<char>, version: Seq<char>, prefix: Seq<char>, shorter: Seq<char>)
    ensures
        (ConstraintView { attr, version: Some(version) }).accepts(version),
        (ConstraintView { attr, version: Some(prefix) }).accepts(version) && (ConstraintView {
            attr,
            version: Some(shorter),
        }).accepts(prefix) ==> (ConstraintView { attr, version: Some(shorter) }).accepts(version),
{
    let v = crate::version::components_of(version);
    let p = crate::version::components_of(prefix);
    let s = crate::version::components_of(shorter);
    assert(v =~= v.subrange(0, v.len() as int));
    if p.is_prefix_of(v) && s.is_prefix_of(p) {
        assert(s =~= v.subrange(0, s.len() as int)) by {
            assert forall|i: int| 0 <= i < s.len() implies s[i] == v[i] by {
                assert(s[i] == p.subrange(0, s.len() as int)[i]);
                assert(p[i] == v.subrange(0, p.len() as int)[i]);
            }
        }
    }
}

} // verus!
