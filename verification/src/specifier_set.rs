//! Sets of version specifiers.

use std::hash::{Hash, Hasher};
use std::str::FromStr;

use vstd::prelude::*;

use crate::chars;
use crate::clause;
use crate::order::{self, Sign};
use crate::specifiers::{self, InvalidSpecifier, Specifier, SpecifierSpec};
use crate::text;
use crate::text_set;

verus! {

/// What a set of specifiers says.
#[verifier::ext_equal]
pub struct SpecifierSetSpec {
    /// The specifiers, in the order in which they were written.
    pub specs: Seq<SpecifierSpec>,
    /// Whether pre-releases are admitted, where that was set.
    pub prereleases: Option<bool>,
}

/// A set of version specifiers, such as `>=1.0,!=1.1,<2.0`. A version satisfies the set where
/// it satisfies all of them.
#[derive(Debug)]
pub struct SpecifierSet {
    /// The specifiers, in the order in which they were written.
    specs: Vec<Specifier>,
    /// Whether pre-releases are admitted, where that was set.
    prereleases: Option<bool>,
}

/// Specifiers as what they say.
pub open spec fn views(specs: Seq<Specifier>) -> Seq<SpecifierSpec> {
    specs.map_values(|s: Specifier| s@)
}

impl View for SpecifierSet {
    type V = SpecifierSetSpec;

    closed spec fn view(&self) -> SpecifierSetSpec {
        SpecifierSetSpec { specs: views(self.specs@), prereleases: self.prereleases }
    }
}

// --- What a set means. ---

/// The comma, as a character to split at.
pub open spec fn comma() -> Seq<char> {
    seq![',']
}

/// The specifiers that some texts say, with empty texts left out. Where a text says none, it
/// is the error; of several such texts the first is.
pub open spec fn read_all(pieces: Seq<Seq<char>>) -> Result<Seq<SpecifierSpec>, Seq<char>>
    decreases pieces.len(),
{
    if pieces.len() == 0 {
        Ok(Seq::empty())
    } else {
        match read_all(pieces.drop_last()) {
            Ok(l) => {
                let t = text::trim(pieces.last());
                if t.len() == 0 {
                    Ok(l)
                } else {
                    match clause::read_clause(t) {
                        Some((operator, version)) => Ok(
                            l.push(SpecifierSpec { operator, version, prereleases: None }),
                        ),
                        None => Err(t),
                    }
                }
            },
            Err(e) => Err(e),
        }
    }
}

/// The specifiers that a text says, with commas between them.
pub open spec fn read_set(s: Seq<char>) -> Result<Seq<SpecifierSpec>, Seq<char>> {
    read_all(text::split(s, comma()))
}

/// Whether some specifier of a set admits pre-releases.
pub open spec fn some_admits(specs: Seq<SpecifierSpec>) -> bool {
    exists|i: int|
        0 <= i < specs.len() && specifiers::policy(#[trigger] specs[i]) == Some(true)
}

/// Whether a set admits pre-releases where nothing else is asked for: what was set, or
/// admission where one of its specifiers admits them.
pub open spec fn policy(s: SpecifierSetSpec) -> Option<bool> {
    if s.prereleases is Some {
        s.prereleases
    } else if some_admits(s.specs) {
        Some(true)
    } else {
        None
    }
}

/// Whether all of a set matches a text. An empty set matches every text.
pub open spec fn matches_all(s: SpecifierSetSpec, item: Seq<char>) -> bool {
    specifiers::matches_all(s.specs, item)
}

/// Whether a set contains what a text says. Pre-releases are left out unless they are admitted.
pub open spec fn contains(s: SpecifierSetSpec, item: Seq<char>, prereleases: Option<bool>) -> bool {
    &&& matches_all(s, item)
    &&& specifiers::asked_or(prereleases, policy(s)) != Some(true)
        ==> !specifiers::is_prerelease_text(item)
}

/// The items that all of a set matches, in their order, under a policy for pre-releases.
pub open spec fn filtered(
    s: SpecifierSetSpec,
    items: Seq<Seq<char>>,
    prereleases: Option<bool>,
) -> Seq<Seq<char>> {
    specifiers::apply_policy(
        items.filter(|item: Seq<char>| matches_all(s, item)),
        specifiers::asked_or(prereleases, policy(s)),
    )
}

/// Specifiers in the order of their texts with one more put in behind those that come before
/// it or have the same text.
pub open spec fn put(l: Seq<SpecifierSpec>, x: SpecifierSpec) -> Seq<SpecifierSpec>
    decreases l.len(),
{
    if l.len() == 0 || order::compare_text(
        specifiers::clause_text(l.last()),
        specifiers::clause_text(x),
    ) <= 0 {
        l.push(x)
    } else {
        put(l.drop_last(), x).push(l.last())
    }
}

/// Specifiers in the order of their texts. Those with the same text stay in their order.
pub open spec fn sorted(l: Seq<SpecifierSpec>) -> Seq<SpecifierSpec>
    decreases l.len(),
{
    if l.len() == 0 {
        l
    } else {
        put(sorted(l.drop_last()), l.last())
    }
}

/// Whether one of some specifiers is the same as another.
pub open spec fn has_same(l: Seq<SpecifierSpec>, x: SpecifierSpec) -> bool {
    exists|i: int| 0 <= i < l.len() && specifiers::same_clause(#[trigger] l[i], x)
}

/// Specifiers without those that are the same as an earlier one.
pub open spec fn distinct(l: Seq<SpecifierSpec>) -> Seq<SpecifierSpec>
    decreases l.len(),
{
    if l.len() == 0 {
        l
    } else {
        let d = distinct(l.drop_last());
        if has_same(d, l.last()) {
            d
        } else {
            d.push(l.last())
        }
    }
}

/// The specifiers of a set in canonical form: in the order of their texts, without those that
/// are the same as an earlier one.
pub open spec fn canonical(l: Seq<SpecifierSpec>) -> Seq<SpecifierSpec> {
    distinct(sorted(l))
}

/// The texts of specifiers.
pub open spec fn clause_texts(l: Seq<SpecifierSpec>) -> Seq<Seq<char>> {
    l.map_values(|s: SpecifierSpec| specifiers::clause_text(s))
}

/// The text of a set: the texts of its specifiers in canonical form, with commas between them.
pub open spec fn set_text(l: Seq<SpecifierSpec>) -> Seq<char> {
    text::join(clause_texts(canonical(l)), comma())
}

/// Whether each of some specifiers is the same as one of some others.
pub open spec fn within(l: Seq<SpecifierSpec>, m: Seq<SpecifierSpec>) -> bool {
    forall|i: int| 0 <= i < l.len() ==> has_same(m, #[trigger] l[i])
}

/// Whether two sets are equal: each specifier of either is the same as one of the other.
pub open spec fn same_set(a: SpecifierSetSpec, b: SpecifierSetSpec) -> bool {
    within(a.specs, b.specs) && within(b.specs, a.specs)
}

/// The operators and canonical versions of some specifiers.
pub open spec fn key_texts(l: Seq<SpecifierSpec>) -> Seq<Seq<char>> {
    l.map_values(
        |s: SpecifierSpec|
            specifiers::canonical_clause(s).0.spelling() + specifiers::canonical_clause(s).1,
    )
}

/// A text that equal sets share: the operators and canonical versions of the specifiers, in
/// order, each once, with commas between them.
pub open spec fn key_text(l: Seq<SpecifierSpec>) -> Seq<char> {
    text::join(text_set::ordered(key_texts(l)), comma())
}

/// Whether specifiers are those of a set: they can be written with commas between them.
pub open spec fn is_list(l: Seq<SpecifierSpec>) -> bool {
    forall|i: int| 0 <= i < l.len() ==> is_member(#[trigger] l[i])
}

/// Whether a specifier can be one of a set: it is read back from its text, the text holds no
/// comma, and no policy for pre-releases was set for it alone.
pub open spec fn is_member(s: SpecifierSpec) -> bool {
    specifiers::is_specifier(s) && !specifiers::clause_text(s).contains(',') && s.prereleases is None
}

// --- The set. ---

/// Copies of specifiers.
fn copy_specs(specs: &[Specifier]) -> (r: Vec<Specifier>)
    ensures
        views(r@) == views(specs@),
{
    let mut out: Vec<Specifier> = Vec::new();
    let mut i: usize = 0;
    while i < specs.len()
        invariant
            i <= specs@.len(),
            views(out@) == views(specs@).take(i as int),
        decreases specs@.len() - i,
    {
        let x = specs[i].clone();
        let ghost before = views(out@);
        out.push(x);
        assert(views(out@) =~= before.push(x@));
        assert(views(specs@).take(i + 1) =~= before.push(views(specs@)[i as int]));
        i += 1;
    }
    assert(views(specs@).take(i as int) =~= views(specs@));
    out
}

/// How the texts of two specifiers compare.
fn compare_specs(a: &Specifier, b: &Specifier) -> (r: Sign)
    ensures
        r == order::sign(
            order::compare_text(specifiers::clause_text(a@), specifiers::clause_text(b@)),
        ),
{
    chars::compare_text(
        &chars::chars_of(&a.to_string()),
        &chars::chars_of(&b.to_string()),
    )
}

/// Puts a specifier in behind those that come before it or have the same text.
fn put_spec(out: &mut Vec<Specifier>, x: Specifier)
    ensures
        views(final(out)@) == put(views(old(out)@), x@),
{
    let mut n: usize = out.len();
    let ghost all = views(out@);
    let ghost before = out@;
    assert(all.take(n as int) =~= all);
    assert(put(all, x@) =~= put(all.take(n as int), x@) + all.skip(n as int));
    while n > 0 && compare_specs(&out[n - 1], &x) == Sign::After
        invariant
            n <= out@.len(),
            out@ == before,
            all == views(out@),
            put(all, x@) == put(all.take(n as int), x@) + all.skip(n as int),
        decreases n,
    {
        proof {
            let l = all.take(n as int);
            assert(l.drop_last() =~= all.take(n - 1));
            assert(l.last() == out@[n - 1]@);
            assert(put(l, x@) == put(all.take(n - 1), x@).push(l.last()));
            assert(put(all.take(n - 1), x@).push(l.last()) + all.skip(n as int) =~= put(
                all.take(n - 1),
                x@,
            ) + all.skip(n - 1));
        }
        n -= 1;
    }
    proof {
        let l = all.take(n as int);
        if n > 0 {
            assert(l.last() == out@[n - 1]@);
        }
        assert(put(l, x@) == l.push(x@));
    }
    let ghost y = x@;
    out.insert(n, x);
    assert(views(out@) =~= all.take(n as int).push(y) + all.skip(n as int));
}

/// Whether one of some specifiers is the same as another.
fn find_same(l: &Vec<Specifier>, x: &Specifier) -> (r: bool)
    ensures
        r == has_same(views(l@), x@),
{
    let mut i: usize = 0;
    while i < l.len()
        invariant
            i <= l@.len(),
            forall|j: int|
                0 <= j < i ==> !specifiers::same_clause(#[trigger] views(l@)[j], x@),
        decreases l@.len() - i,
    {
        assert(views(l@)[i as int] == l@[i as int]@);
        if l[i] == *x {
            return true;
        }
        i += 1;
    }
    false
}

/// A clause that is read from a text without commas has none.
pub proof fn lemma_member(t: Seq<char>)
    requires
        clause::read_clause(t) is Some,
        !t.contains(','),
    ensures
        ({
            let (operator, version) = clause::read_clause(t).unwrap();
            is_member(SpecifierSpec { operator, version, prereleases: None })
        }),
{
    let (operator, version) = clause::read_clause(t).unwrap();
    clause::law_clause_text(t);
    let s = operator.spelling() + version;
    if s.contains(',') {
        let i = choose|i: int| 0 <= i < s.len() && s[i] == ',';
        if i < operator.spelling().len() {
            assert(operator.spelling()[i] == ',');
            clause::lemma_spelling_chars(operator, ',');
        } else {
            assert(version[i - operator.spelling().len()] == ',');
            clause::lemma_clause_within(t, ',');
        }
    }
}

impl SpecifierSet {
    /// What holds of every set: its specifiers can be written with commas between them.
    #[verifier::type_invariant]
    spec fn well_formed(self) -> bool {
        is_list(self@.specs)
    }

    /// Reads a set of specifiers with commas between them. Empty pieces do not count, so that
    /// an empty text is the set that admits everything.
    pub fn parse(specifiers: &str) -> (r: Result<SpecifierSet, InvalidSpecifier>)
        ensures
            match r {
                Ok(s) => read_set(specifiers@) == Ok::<Seq<SpecifierSpec>, Seq<char>>(s@.specs)
                    && s@.prereleases is None && is_list(s@.specs),
                Err(e) => read_set(specifiers@) == Err::<Seq<SpecifierSpec>, Seq<char>>(e.0@),
            },
    {
        let cs = chars::chars_of(specifiers);
        let marks = [','];
        assert(marks@ =~= comma());
        let pieces = chars::split(&cs, &marks);
        let ghost all = text::split(specifiers@, comma());
        let mut specs: Vec<Specifier> = Vec::new();
        let mut i: usize = 0;
        proof {
            text::lemma_split_parts(specifiers@, comma());
            assert(views(specs@) =~= Seq::empty());
        }
        while i < pieces.len()
            invariant
                i <= pieces@.len(),
                chars::views(pieces@) == all,
                all == text::split(specifiers@, comma()),
                forall|j: int, k: int|
                    0 <= j < all.len() && 0 <= k < all[j].len() ==> !comma().contains(
                        #[trigger] all[j][k],
                    ),
                read_all(all.take(i as int)) == Ok::<Seq<SpecifierSpec>, Seq<char>>(views(specs@)),
                is_list(views(specs@)),
            decreases pieces@.len() - i,
        {
            let trimmed = chars::trim(pieces[i]);
            proof {
                assert(pieces@[i as int]@ == all[i as int]);
                assert(all.take(i + 1).drop_last() =~= all.take(i as int));
                assert(all.take(i + 1).last() == all[i as int]);
                if read_all(all.take(i + 1)) is Err {
                    lemma_first_error(all, i + 1);
                }
            }
            if trimmed.len() > 0 {
                let t = chars::string_of(trimmed);
                match Specifier::parse(&t) {
                    Ok(s) => {
                        proof {
                            if t@.contains(',') {
                                text::lemma_trim_within(all[i as int], ',');
                                let k = choose|k: int|
                                    0 <= k < all[i as int].len() && all[i as int][k] == ',';
                                assert(comma()[0] == ',');
                                assert(comma().contains(all[i as int][k]));
                            }
                            lemma_member(t@);
                        }
                        let ghost before = views(specs@);
                        let ghost x = s@;
                        specs.push(s);
                        assert(views(specs@) =~= before.push(x));
                        assert forall|j: int| 0 <= j < views(specs@).len() implies is_member(
                            #[trigger] views(specs@)[j],
                        ) by {
                            if j < before.len() {
                                assert(is_member(before[j]));
                            }
                        }
                    },
                    Err(e) => {
                        return Err(e);
                    },
                }
            }
            i += 1;
        }
        assert(all.take(i as int) =~= all);
        Ok(SpecifierSet { specs, prereleases: None })
    }

    /// The same set with another policy for pre-releases. `None` goes back to what holds
    /// without one.
    pub fn with_prereleases(self, value: Option<bool>) -> (r: SpecifierSet)
        ensures
            r@ == (SpecifierSetSpec { prereleases: value, ..self@ }),
    {
        proof {
            use_type_invariant(&self);
        }
        let SpecifierSet { specs, prereleases: _ } = self;
        SpecifierSet { specs, prereleases: value }
    }

    /// The specifiers, in the order in which they were written.
    pub fn specifiers(&self) -> (r: &[Specifier])
        ensures
            views(r@) == self@.specs,
    {
        &self.specs
    }

    /// The number of specifiers.
    pub fn len(&self) -> (r: usize)
        ensures
            r == self@.specs.len(),
    {
        self.specs.len()
    }

    /// Whether there are no specifiers.
    pub fn is_empty(&self) -> (r: bool)
        ensures
            r == (self@.specs.len() == 0),
    {
        self.specs.len() == 0
    }

    /// Whether pre-releases are admitted where nothing else is asked for.
    pub fn prereleases(&self) -> (r: Option<bool>)
        ensures
            r == policy(self@),
    {
        if self.prereleases.is_some() {
            return self.prereleases;
        }
        let mut i: usize = 0;
        while i < self.specs.len()
            invariant
                i <= self.specs@.len(),
                self.prereleases is None,
                forall|j: int|
                    0 <= j < i ==> specifiers::policy(#[trigger] self@.specs[j]) != Some(true),
            decreases self.specs@.len() - i,
        {
            assert(self@.specs[i as int] == self.specs@[i as int]@);
            if let Some(true) = self.specs[i].prereleases() {
                return Some(true);
            }
            i += 1;
        }
        None
    }

    /// Whether every specifier matches an item.
    fn matches_all(&self, item: &str) -> (r: bool)
        ensures
            r == matches_all(self@, item@),
    {
        let mut i: usize = 0;
        while i < self.specs.len()
            invariant
                i <= self.specs@.len(),
                forall|j: int|
                    0 <= j < i ==> specifiers::matches_text(#[trigger] self@.specs[j], item@),
            decreases self.specs@.len() - i,
        {
            assert(self@.specs[i as int] == self.specs@[i as int]@);
            if !self.specs[i].contains(item, Some(true)) {
                return false;
            }
            i += 1;
        }
        true
    }

    /// Whether a version satisfies every specifier of the set. `prereleases` asks for a policy
    /// for pre-releases; `None` takes that of the set.
    pub fn contains(&self, item: &str, prereleases: Option<bool>) -> (r: bool)
        ensures
            r == contains(self@, item@, prereleases),
    {
        let effective = if prereleases.is_some() {
            prereleases
        } else {
            self.prereleases()
        };
        let admitted = match effective {
            Some(p) => p,
            None => false,
        };
        if !admitted && specifiers::says_prerelease(item) {
            return false;
        }
        self.matches_all(item)
    }

    /// The items that satisfy every specifier, in their order, under a policy for
    /// pre-releases.
    pub fn filter<'a>(&self, items: &[&'a str], prereleases: Option<bool>) -> (r: Vec<&'a str>)
        ensures
            specifiers::texts(r@) == filtered(self@, specifiers::texts(items@), prereleases),
    {
        let effective = if prereleases.is_some() {
            prereleases
        } else {
            self.prereleases()
        };
        let ghost all = specifiers::texts(items@);
        let ghost pred = |item: Seq<char>| matches_all(self@, item);
        let mut matched: Vec<&'a str> = Vec::new();
        let mut i: usize = 0;
        proof {
            reveal(Seq::filter);
            assert(specifiers::texts(matched@) =~= all.take(0).filter(pred));
        }
        while i < items.len()
            invariant
                i <= items@.len(),
                all == specifiers::texts(items@),
                pred == (|item: Seq<char>| matches_all(self@, item)),
                specifiers::texts(matched@) == all.take(i as int).filter(pred),
            decreases items@.len() - i,
        {
            let item = items[i];
            assert(all[i as int] == item@);
            proof {
                reveal(Seq::filter);
                assert(all.take(i + 1).drop_last() =~= all.take(i as int));
                assert(all.take(i + 1).last() == item@);
            }
            if self.matches_all(item) {
                matched.push(item);
                assert(specifiers::texts(matched@) =~= all.take(i as int).filter(pred).push(item@));
            }
            i += 1;
        }
        assert(all.take(i as int) =~= all);
        specifiers::apply_prereleases_filter(matched, effective)
    }

    /// The specifiers in canonical form.
    fn canonical_specs(&self) -> (r: Vec<Specifier>)
        ensures
            views(r@) == canonical(self@.specs),
    {
        let mut order: Vec<Specifier> = Vec::new();
        let ghost all = self@.specs;
        let mut i: usize = 0;
        assert(views(order@) =~= sorted(all.take(0)));
        while i < self.specs.len()
            invariant
                i <= self.specs@.len(),
                all == self@.specs,
                views(order@) == sorted(all.take(i as int)),
            decreases self.specs@.len() - i,
        {
            proof {
                assert(all[i as int] == self.specs@[i as int]@);
                assert(all.take(i + 1).drop_last() =~= all.take(i as int));
            }
            put_spec(&mut order, self.specs[i].clone());
            i += 1;
        }
        assert(all.take(i as int) =~= all);
        let ghost rank = views(order@);
        let mut out: Vec<Specifier> = Vec::new();
        let mut j: usize = 0;
        assert(views(out@) =~= distinct(rank.take(0)));
        while j < order.len()
            invariant
                j <= order@.len(),
                rank == views(order@),
                views(out@) == distinct(rank.take(j as int)),
            decreases order@.len() - j,
        {
            proof {
                assert(rank[j as int] == order@[j as int]@);
                assert(rank.take(j + 1).drop_last() =~= rank.take(j as int));
            }
            if !find_same(&out, &order[j]) {
                let ghost before = views(out@);
                out.push(order[j].clone());
                assert(views(out@) =~= before.push(rank[j as int]));
            }
            j += 1;
        }
        assert(rank.take(j as int) =~= rank);
        out
    }

    /// The text of the set: its specifiers in the order of their texts, each once, with commas
    /// between them.
    pub fn to_string(&self) -> (r: String)
        ensures
            r@ == set_text(self@.specs),
            is_list(self@.specs),
    {
        proof {
            use_type_invariant(self);
        }
        let specs = self.canonical_specs();
        let ghost all = clause_texts(views(specs@));
        let mut out = String::new();
        let mut i: usize = 0;
        assert(out@ =~= text::join(all.take(0), comma()));
        while i < specs.len()
            invariant
                i <= specs@.len(),
                all == clause_texts(views(specs@)),
                out@ == text::join(all.take(i as int), comma()),
            decreases specs@.len() - i,
        {
            if i > 0 {
                out.push(',');
            }
            out.push_str(&specs[i].to_string());
            proof {
                let p = specifiers::clause_text(specs@[i as int]@);
                assert(all[i as int] == p);
                assert(all.take(i + 1) =~= all.take(i as int).push(p));
                if i > 0 {
                    text::lemma_join_push(all.take(i as int), p, comma());
                } else {
                    assert(text::join(all.take(1), comma()) == p);
                }
                assert(out@ =~= text::join(all.take(i + 1), comma()));
            }
            i += 1;
        }
        assert(all.take(i as int) =~= all);
        out
    }
}

/// The first error among some texts is that of all of them.
proof fn lemma_first_error(all: Seq<Seq<char>>, n: int)
    requires
        0 <= n <= all.len(),
        read_all(all.take(n)) is Err,
    ensures
        read_all(all) == read_all(all.take(n)),
    decreases all.len() - n,
{
    if n == all.len() {
        assert(all.take(n) =~= all);
    } else {
        assert(all.take(n + 1).drop_last() =~= all.take(n));
        lemma_first_error(all, n + 1);
    }
}

impl Clone for SpecifierSet {
    fn clone(&self) -> (r: SpecifierSet)
        ensures
            r@ == self@,
    {
        proof {
            use_type_invariant(self);
        }
        SpecifierSet { specs: copy_specs(&self.specs), prereleases: self.prereleases }
    }
}

impl FromStr for SpecifierSet {
    type Err = InvalidSpecifier;

    fn from_str(s: &str) -> (r: Result<SpecifierSet, InvalidSpecifier>)
        ensures
            match r {
                Ok(p) => read_set(s@) == Ok::<Seq<SpecifierSpec>, Seq<char>>(p@.specs)
                    && p@.prereleases is None,
                Err(e) => read_set(s@) == Err::<Seq<SpecifierSpec>, Seq<char>>(e.0@),
            },
    {
        SpecifierSet::parse(s)
    }
}

/// Whether each of some specifiers is the same as one of some others.
fn is_within(l: &Vec<Specifier>, m: &Vec<Specifier>) -> (r: bool)
    ensures
        r == within(views(l@), views(m@)),
{
    let mut i: usize = 0;
    while i < l.len()
        invariant
            i <= l@.len(),
            forall|j: int| 0 <= j < i ==> has_same(views(m@), #[trigger] views(l@)[j]),
        decreases l@.len() - i,
    {
        assert(views(l@)[i as int] == l@[i as int]@);
        if !find_same(m, &l[i]) {
            return false;
        }
        i += 1;
    }
    true
}

impl PartialEq for SpecifierSet {
    fn eq(&self, other: &SpecifierSet) -> (r: bool) {
        is_within(&self.specs, &other.specs) && is_within(&other.specs, &self.specs)
    }
}

impl vstd::std_specs::cmp::PartialEqSpecImpl for SpecifierSet {
    open spec fn obeys_eq_spec() -> bool {
        true
    }

    open spec fn eq_spec(&self, other: &SpecifierSet) -> bool {
        same_set(self@, other@)
    }
}

impl Eq for SpecifierSet {

}

impl SpecifierSet {
    /// A text that equal sets share: the specifiers with their versions in canonical form, in
    /// order, each once.
    pub fn key_text(&self) -> (r: String)
        ensures
            r@ == key_text(self@.specs),
    {
        let ghost all = key_texts(self@.specs);
        let mut keys: Vec<String> = Vec::new();
        let mut i: usize = 0;
        while i < self.specs.len()
            invariant
                i <= self.specs@.len(),
                all == key_texts(views(self.specs@)),
                text_set::texts(keys@) == all.take(i as int),
            decreases self.specs@.len() - i,
        {
            let t = self.specs[i].key_text();
            let ghost before = text_set::texts(keys@);
            keys.push(t);
            assert(text_set::texts(keys@) =~= before.push(t@));
            assert(all[i as int] == t@);
            assert(all.take(i + 1) =~= before.push(t@));
            i += 1;
        }
        assert(all.take(i as int) =~= all);
        let mut out = String::new();
        text_set::push_joined(&mut out, &text_set::sort(&keys));
        assert(out@ =~= key_text(self@.specs));
        out
    }
}

proof fn lemma_keys_within(l: Seq<SpecifierSpec>, m: Seq<SpecifierSpec>, t: Seq<char>)
    requires
        within(l, m),
        key_texts(l).contains(t),
    ensures
        key_texts(m).contains(t),
{
    let i = choose|i: int| 0 <= i < l.len() && key_texts(l)[i] == t;
    assert(has_same(m, l[i]));
    let j = choose|j: int| 0 <= j < m.len() && specifiers::same_clause(#[trigger] m[j], l[i]);
    assert(key_texts(m)[j] == t);
}

/// Equal sets share their key text.
pub proof fn law_equal_key(a: SpecifierSetSpec, b: SpecifierSetSpec)
    requires
        same_set(a, b),
    ensures
        key_text(a.specs) == key_text(b.specs),
{
    let (s, t) = (key_texts(a.specs), key_texts(b.specs));
    assert forall|x: Seq<char>| #[trigger] s.contains(x) <==> t.contains(x) by {
        if s.contains(x) {
            lemma_keys_within(a.specs, b.specs, x);
        }
        if t.contains(x) {
            lemma_keys_within(b.specs, a.specs, x);
        }
    }
    text_set::law_same_ordered(s, t);
}

impl Hash for SpecifierSet {
    fn hash<H: Hasher>(&self, state: &mut H) {
        self.key_text().hash(state);
    }
}

} // verus!
