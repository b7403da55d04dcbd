//! Version specifiers and sets of them.

use std::hash::{Hash, Hasher};
use std::str::FromStr;

use vstd::prelude::*;

use crate::canonical;
use crate::chars;
use crate::clause::{self, Operator};
use crate::matching;
use crate::text;
use crate::version::{self, Version};

verus! {

/// The error of a text that is not a version specifier. Holds the text.
#[derive(Debug, Clone, PartialEq, Eq)]
pub struct InvalidSpecifier(pub String);

impl InvalidSpecifier {
    /// The message of this error.
    pub fn to_string(&self) -> (r: String)
        ensures
            r@ == "Invalid specifier: '"@ + self.0@ + "'"@,
    {
        let mut out = chars::copy("Invalid specifier: '");
        out.push_str(&self.0);
        out.push_str("'");
        out
    }
}

/// What a specifier says.
#[verifier::ext_equal]
pub struct SpecifierSpec {
    /// The operator.
    pub operator: Operator,
    /// The version or pattern after the operator.
    pub version: Seq<char>,
    /// Whether pre-releases are admitted, where that was set.
    pub prereleases: Option<bool>,
}

/// A version specifier, such as `>=1.2.3`, `==1.0.*` or `~=2.2`.
#[derive(Debug)]
pub struct Specifier {
    /// The operator.
    operator: Operator,
    /// The version or pattern after the operator, as it was written.
    version: String,
    /// Whether pre-releases are admitted, where that was set.
    prereleases: Option<bool>,
}

impl View for Specifier {
    type V = SpecifierSpec;

    closed spec fn view(&self) -> SpecifierSpec {
        SpecifierSpec {
            operator: self.operator,
            version: self.version@,
            prereleases: self.prereleases,
        }
    }
}

// --- What a specifier means. ---

/// The text of a specifier: the operator and the version.
pub open spec fn clause_text(s: SpecifierSpec) -> Seq<char> {
    s.operator.spelling() + s.version
}

/// Whether the text of a specifier says that specifier.
pub open spec fn is_specifier(s: SpecifierSpec) -> bool {
    clause::read_clause(clause_text(s)) == Some((s.operator, s.version))
}

/// Whether a specifier admits pre-releases where nothing else is asked for. What was set comes
/// first. Otherwise `!=` and patterns admit none, and the other specifiers admit them where
/// their own version is a pre-release. Nothing is known where that version is none.
pub open spec fn policy(s: SpecifierSpec) -> Option<bool> {
    if s.prereleases is Some {
        s.prereleases
    } else if s.operator == Operator::NotEqual {
        Some(false)
    } else if s.operator == Operator::Equal && text::ends_with(s.version, clause::star()) {
        Some(false)
    } else {
        match version::parse_version(s.version) {
            Some(v) => Some(version::is_prerelease(v)),
            None => None,
        }
    }
}

/// What was asked for, or else what holds without asking.
pub open spec fn asked_or(asked: Option<bool>, otherwise: Option<bool>) -> Option<bool> {
    if asked is Some {
        asked
    } else {
        otherwise
    }
}

/// Whether a text says a version that is a pre-release.
pub open spec fn is_prerelease_text(item: Seq<char>) -> bool {
    version::parse_version(item) matches Some(v) && version::is_prerelease(v)
}

/// Whether a text says a version that is a final release.
pub open spec fn is_final_text(item: Seq<char>) -> bool {
    version::parse_version(item) matches Some(v) && !version::is_prerelease(v)
}

/// Whether the operator admits what a text says. A text that is no version is never admitted.
pub open spec fn matches_text(s: SpecifierSpec, item: Seq<char>) -> bool {
    version::parse_version(item) matches Some(v) && matching::admits(s.operator, v, s.version)
}

/// Whether a specifier contains what a text says.
pub open spec fn contains(s: SpecifierSpec, item: Seq<char>, prereleases: Option<bool>) -> bool {
    &&& matches_text(s, item)
    &&& !(asked_or(prereleases, policy(s)) == Some(false) && is_prerelease_text(item))
}

/// Whether all of some specifiers match a text.
pub open spec fn matches_all(specs: Seq<SpecifierSpec>, item: Seq<char>) -> bool {
    forall|i: int| 0 <= i < specs.len() ==> matches_text(#[trigger] specs[i], item)
}

/// The place of the first text that says a final release; the length where none does.
pub open spec fn first_final(items: Seq<Seq<char>>) -> nat
    decreases items.len(),
{
    if items.len() == 0 || is_final_text(items[0]) {
        0
    } else {
        1 + first_final(items.skip(1))
    }
}

/// Texts without those that say a pre-release.
pub open spec fn without_prereleases(items: Seq<Seq<char>>) -> Seq<Seq<char>> {
    items.filter(|item: Seq<char>| !is_prerelease_text(item))
}

/// What is left of matched items: all of them where pre-releases are admitted, and those that
/// are no pre-releases where they are not. Where nothing is known, pre-releases, and texts that
/// are no versions before the first final release, are held back: they are left only if there
/// is no final release.
pub open spec fn apply_policy(matched: Seq<Seq<char>>, effective: Option<bool>) -> Seq<Seq<char>> {
    match effective {
        Some(true) => matched,
        Some(false) => without_prereleases(matched),
        None => if first_final(matched) == matched.len() {
            matched
        } else {
            without_prereleases(matched.skip(first_final(matched) as int))
        },
    }
}

/// The policy of a specifier for filtering: what was set, or admission where the version of
/// the specifier is a pre-release.
pub open spec fn filter_policy(s: SpecifierSpec) -> Option<bool> {
    if s.prereleases is Some {
        s.prereleases
    } else if policy(s) == Some(true) {
        Some(true)
    } else {
        None
    }
}

/// The items that a specifier contains, in their order, under a policy for pre-releases.
pub open spec fn filtered(
    s: SpecifierSpec,
    items: Seq<Seq<char>>,
    prereleases: Option<bool>,
) -> Seq<Seq<char>> {
    apply_policy(
        items.filter(|item: Seq<char>| contains(s, item, Some(true))),
        asked_or(prereleases, filter_policy(s)),
    )
}

/// The operator and the canonical text of the version. Versions after `===` and patterns stay
/// as they are; zeros at the end of a release matter only for `~=`.
pub open spec fn canonical_clause(s: SpecifierSpec) -> (Operator, Seq<char>) {
    if s.operator == Operator::Arbitrary || text::ends_with(s.version, clause::star()) {
        (s.operator, s.version)
    } else {
        (
            s.operator,
            canonical::canonicalize(s.version, s.operator != Operator::Compatible),
        )
    }
}

/// Texts of the machine as texts.
pub open spec fn texts(items: Seq<&str>) -> Seq<Seq<char>> {
    items.map_values(|t: &str| t@)
}

/// What a text says as a version, if it says one.
fn coerce_version(item: &str) -> (r: Option<Version>)
    ensures
        match r {
            Some(v) => version::parse_version(item@) == Some(v@),
            None => version::parse_version(item@) is None,
        },
{
    match Version::parse(item) {
        Ok(v) => Some(v),
        Err(_) => None,
    }
}

/// Whether a text says a version that is a pre-release.
pub(crate) fn says_prerelease(item: &str) -> (r: bool)
    ensures
        r == is_prerelease_text(item@),
{
    match coerce_version(item) {
        Some(v) => v.is_prerelease(),
        None => false,
    }
}

/// Whether a text says a version that is a final release.
fn says_final(item: &str) -> (r: bool)
    ensures
        r == is_final_text(item@),
{
    match coerce_version(item) {
        Some(v) => !v.is_prerelease(),
        None => false,
    }
}

/// The place of the first final release among the items.
fn find_final(items: &Vec<&str>) -> (r: usize)
    ensures
        r == first_final(texts(items@)),
        r <= items@.len(),
{
    let ghost all = texts(items@);
    let mut i: usize = 0;
    assert(all.skip(0) =~= all);
    while i < items.len()
        invariant
            i <= items@.len(),
            all == texts(items@),
            first_final(all) == i + first_final(all.skip(i as int)),
        decreases items@.len() - i,
    {
        assert(all.skip(i as int)[0] == items@[i as int]@);
        if says_final(items[i]) {
            return i;
        }
        assert(all.skip(i as int).skip(1) =~= all.skip(i + 1));
        i += 1;
    }
    i
}

/// The items from a place on without those that say a pre-release.
fn drop_prereleases<'a>(items: &Vec<&'a str>, from: usize) -> (r: Vec<&'a str>)
    requires
        from <= items@.len(),
    ensures
        texts(r@) == without_prereleases(texts(items@).skip(from as int)),
{
    let ghost all = texts(items@).skip(from as int);
    let ghost pred = |item: Seq<char>| !is_prerelease_text(item);
    let mut out: Vec<&'a str> = Vec::new();
    let mut i: usize = from;
    proof {
        reveal(Seq::filter);
        assert(texts(out@) =~= all.take(0).filter(pred));
    }
    while i < items.len()
        invariant
            from <= i <= items@.len(),
            all == texts(items@).skip(from as int),
            pred == (|item: Seq<char>| !is_prerelease_text(item)),
            texts(out@) == all.take(i - from).filter(pred),
        decreases items@.len() - i,
    {
        let item = items[i];
        assert(all[i - from] == item@);
        proof {
            reveal(Seq::filter);
            assert(all.take(i - from + 1).drop_last() =~= all.take(i - from));
            assert(all.take(i - from + 1).last() == item@);
        }
        if !says_prerelease(item) {
            out.push(item);
            assert(texts(out@) =~= all.take(i - from).filter(pred).push(item@));
        }
        i += 1;
    }
    assert(all.take(i - from) =~= all);
    out
}

/// What is left of matched items under a policy for pre-releases.
pub(crate) fn apply_prereleases_filter<'a>(
    matched: Vec<&'a str>,
    effective: Option<bool>,
) -> (r: Vec<&'a str>)
    ensures
        texts(r@) == apply_policy(texts(matched@), effective),
{
    match effective {
        Some(true) => matched,
        Some(false) => {
            assert(texts(matched@).skip(0) =~= texts(matched@));
            drop_prereleases(&matched, 0)
        },
        None => {
            let first: usize = find_final(&matched);
            if first == matched.len() {
                matched
            } else {
                drop_prereleases(&matched, first)
            }
        },
    }
}

impl Specifier {
    /// What holds of every specifier: its text says it.
    #[verifier::type_invariant]
    spec fn well_formed(self) -> bool {
        is_specifier(self@)
    }

    /// Reads a specifier. White space around its parts does not matter.
    pub fn parse(spec: &str) -> (r: Result<Specifier, InvalidSpecifier>)
        ensures
            match r {
                Ok(s) => clause::read_clause(spec@) == Some((s@.operator, s@.version))
                    && s@.prereleases is None && is_specifier(s@),
                Err(e) => clause::read_clause(spec@) is None && e.0@ == spec@,
            },
    {
        let cs = chars::chars_of(spec);
        match clause::split_clause(&cs) {
            Some((operator, v)) => {
                proof {
                    clause::law_clause_text(spec@);
                }
                let version = chars::string_of(v);
                Ok(Specifier { operator, version, prereleases: None })
            },
            None => Err(InvalidSpecifier(chars::copy(spec))),
        }
    }

    /// The same specifier with another policy for pre-releases. `None` goes back to what holds
    /// without one.
    pub fn with_prereleases(self, value: Option<bool>) -> (r: Specifier)
        ensures
            r@ == (SpecifierSpec { prereleases: value, ..self@ }),
    {
        proof {
            use_type_invariant(&self);
        }
        let Specifier { operator, version, prereleases: _ } = self;
        Specifier { operator, version, prereleases: value }
    }

    /// The operator.
    pub fn operator(&self) -> (r: &str)
        ensures
            r@ == self@.operator.spelling(),
    {
        self.operator.as_str()
    }

    /// The version or pattern after the operator.
    pub fn version(&self) -> (r: &str)
        ensures
            r@ == self@.version,
    {
        self.version.as_str()
    }

    /// Whether pre-releases are admitted where nothing else is asked for.
    pub fn prereleases(&self) -> (r: Option<bool>)
        ensures
            r == policy(self@),
    {
        if self.prereleases.is_some() {
            return self.prereleases;
        }
        if self.operator == Operator::NotEqual {
            return Some(false);
        }
        if self.operator == Operator::Equal && chars::ends_with(
            &chars::chars_of(&self.version),
            ".*",
        ) {
            return Some(false);
        }
        match coerce_version(&self.version) {
            Some(v) => Some(v.is_prerelease()),
            None => None,
        }
    }

    /// Whether the operator admits what a text says.
    fn matches(&self, item: &str) -> (r: bool)
        ensures
            r == matches_text(self@, item@),
    {
        match coerce_version(item) {
            Some(v) => matching::operator_match(self.operator, &v, &self.version),
            None => false,
        }
    }

    /// Whether a version satisfies this specifier. `prereleases` asks for a policy for
    /// pre-releases; `None` takes that of the specifier. A text that is no version never
    /// satisfies a specifier.
    pub fn contains(&self, item: &str, prereleases: Option<bool>) -> (r: bool)
        ensures
            r == contains(self@, item@, prereleases),
    {
        let effective = if prereleases.is_some() {
            prereleases
        } else {
            self.prereleases()
        };
        let excluded = match effective {
            Some(p) => !p && says_prerelease(item),
            None => false,
        };
        !excluded && self.matches(item)
    }

    /// The items that satisfy this specifier, in their order, under a policy for pre-releases.
    pub fn filter<'a>(&self, items: &[&'a str], prereleases: Option<bool>) -> (r: Vec<&'a str>)
        ensures
            texts(r@) == filtered(self@, texts(items@), prereleases),
    {
        let effective = if prereleases.is_some() {
            prereleases
        } else if self.prereleases.is_some() {
            self.prereleases
        } else {
            match self.prereleases() {
                Some(true) => Some(true),
                _ => None,
            }
        };
        let ghost all = texts(items@);
        let ghost pred = |item: Seq<char>| contains(self@, item, Some(true));
        let mut matched: Vec<&'a str> = Vec::new();
        let mut i: usize = 0;
        proof {
            reveal(Seq::filter);
            assert(texts(matched@) =~= all.take(0).filter(pred));
        }
        while i < items.len()
            invariant
                i <= items@.len(),
                all == texts(items@),
                pred == (|item: Seq<char>| contains(self@, item, Some(true))),
                texts(matched@) == all.take(i as int).filter(pred),
            decreases items@.len() - i,
        {
            let item = items[i];
            assert(all[i as int] == item@);
            proof {
                reveal(Seq::filter);
                assert(all.take(i + 1).drop_last() =~= all.take(i as int));
                assert(all.take(i + 1).last() == item@);
            }
            if self.contains(item, Some(true)) {
                matched.push(item);
                assert(texts(matched@) =~= all.take(i as int).filter(pred).push(item@));
            }
            i += 1;
        }
        assert(all.take(i as int) =~= all);
        apply_prereleases_filter(matched, effective)
    }

    /// The canonical text of the version.
    fn canonical_version(&self) -> (r: String)
        ensures
            r@ == canonical_clause(self@).1,
    {
        if self.operator == Operator::Arbitrary || chars::ends_with(
            &chars::chars_of(&self.version),
            ".*",
        ) {
            return chars::copy(&self.version);
        }
        matching::canonicalize_version(&self.version, self.operator != Operator::Compatible)
    }

    /// The text of this specifier: the operator and the version, with nothing between them.
    pub fn to_string(&self) -> (r: String)
        ensures
            r@ == clause_text(self@),
            is_specifier(self@),
    {
        proof {
            use_type_invariant(self);
        }
        let mut out = chars::copy(self.operator.as_str());
        out.push_str(&self.version);
        out
    }

    /// The operator and the canonical text of the version, which equal specifiers share.
    pub fn key_text(&self) -> (r: String)
        ensures
            r@ == canonical_clause(self@).0.spelling() + canonical_clause(self@).1,
    {
        let mut out = chars::copy(self.operator.as_str());
        out.push_str(&self.canonical_version());
        out
    }
}

impl Clone for Specifier {
    fn clone(&self) -> (r: Specifier)
        ensures
            r@ == self@,
    {
        proof {
            use_type_invariant(self);
        }
        Specifier {
            operator: self.operator,
            version: chars::copy(&self.version),
            prereleases: self.prereleases,
        }
    }
}

impl FromStr for Specifier {
    type Err = InvalidSpecifier;

    fn from_str(s: &str) -> (r: Result<Specifier, InvalidSpecifier>)
        ensures
            match r {
                Ok(p) => clause::read_clause(s@) == Some((p@.operator, p@.version))
                    && p@.prereleases is None,
                Err(e) => clause::read_clause(s@) is None && e.0@ == s@,
            },
    {
        Specifier::parse(s)
    }
}

/// Whether two specifiers are the same but for how their versions are written and for their
/// policies.
pub open spec fn same_clause(a: SpecifierSpec, b: SpecifierSpec) -> bool {
    canonical_clause(a) == canonical_clause(b)
}

impl PartialEq for Specifier {
    fn eq(&self, other: &Specifier) -> (r: bool) {
        self.operator == other.operator && chars::same_text(
            &self.canonical_version(),
            &other.canonical_version(),
        )
    }
}

impl vstd::std_specs::cmp::PartialEqSpecImpl for Specifier {
    open spec fn obeys_eq_spec() -> bool {
        true
    }

    open spec fn eq_spec(&self, other: &Specifier) -> bool {
        same_clause(self@, other@)
    }
}

impl Eq for Specifier {

}

impl Hash for Specifier {
    fn hash<H: Hasher>(&self, state: &mut H) {
        self.key_text().hash(state);
    }
}

} // verus!
