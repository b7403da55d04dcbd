//! The tags of wheels: interpreter, ABI and platform.

use std::hash::{Hash, Hasher};

use vstd::prelude::*;

use crate::chars;
use crate::grammar;
use crate::order::{self, Sign};
use crate::outside;
use crate::text;

verus! {

/// What a tag says.
#[verifier::ext_equal]
pub struct TagSpec {
    pub interpreter: Seq<char>,
    pub abi: Seq<char>,
    pub platform: Seq<char>,
}

/// The tag of an interpreter, an ABI and a platform, such as `cp39-abi3-manylinux1_x86_64`. All
/// three are in lower case.
#[derive(Debug)]
pub struct Tag {
    interpreter: String,
    abi: String,
    platform: String,
}

impl View for Tag {
    type V = TagSpec;

    closed spec fn view(&self) -> TagSpec {
        TagSpec {
            interpreter: self.interpreter@,
            abi: self.abi@,
            platform: self.platform@,
        }
    }
}

/// The tag of three parts.
pub open spec fn tag_of(interpreter: Seq<char>, abi: Seq<char>, platform: Seq<char>) -> TagSpec {
    TagSpec {
        interpreter: outside::lowercase(interpreter),
        abi: outside::lowercase(abi),
        platform: outside::lowercase(platform),
    }
}

/// The text of a tag.
pub open spec fn tag_text(t: TagSpec) -> Seq<char> {
    t.interpreter + "-"@ + t.abi + "-"@ + t.platform
}

impl Tag {
    /// The tag of three parts, each in lower case.
    pub fn new(interpreter: &str, abi: &str, platform: &str) -> (r: Tag)
        ensures
            r@ == tag_of(interpreter@, abi@, platform@),
    {
        Tag {
            interpreter: chars::string_of(&outside::to_lowercase(interpreter)),
            abi: chars::string_of(&outside::to_lowercase(abi)),
            platform: chars::string_of(&outside::to_lowercase(platform)),
        }
    }

    /// The interpreter, such as `cp39`.
    pub fn interpreter(&self) -> (r: &str)
        ensures
            r@ == self@.interpreter,
    {
        self.interpreter.as_str()
    }

    /// The ABI, such as `abi3`.
    pub fn abi(&self) -> (r: &str)
        ensures
            r@ == self@.abi,
    {
        self.abi.as_str()
    }

    /// The platform, such as `manylinux1_x86_64`.
    pub fn platform(&self) -> (r: &str)
        ensures
            r@ == self@.platform,
    {
        self.platform.as_str()
    }

    /// The text of the tag, with dashes between its parts.
    pub fn to_string(&self) -> (r: String)
        ensures
            r@ == tag_text(self@),
    {
        let mut out = chars::copy(&self.interpreter);
        out.push_str("-");
        out.push_str(&self.abi);
        out.push_str("-");
        out.push_str(&self.platform);
        out
    }
}

impl Clone for Tag {
    fn clone(&self) -> (r: Tag)
        ensures
            r@ == self@,
    {
        Tag {
            interpreter: chars::copy(&self.interpreter),
            abi: chars::copy(&self.abi),
            platform: chars::copy(&self.platform),
        }
    }
}

impl PartialEq for Tag {
    fn eq(&self, other: &Tag) -> (r: bool) {
        chars::same_text(&self.interpreter, &other.interpreter) && chars::same_text(
            &self.abi,
            &other.abi,
        ) && chars::same_text(&self.platform, &other.platform)
    }
}

impl vstd::std_specs::cmp::PartialEqSpecImpl for Tag {
    open spec fn obeys_eq_spec() -> bool {
        true
    }

    open spec fn eq_spec(&self, other: &Tag) -> bool {
        self@ == other@
    }
}

impl Eq for Tag {

}

impl Hash for Tag {
    fn hash<H: Hasher>(&self, state: &mut H) {
        self.interpreter.hash(state);
        self.abi.hash(state);
        self.platform.hash(state);
    }
}

/// The error of a tag with an empty part, or without exactly three components. Holds what is
/// wrong.
#[derive(Debug, Clone, PartialEq, Eq)]
pub struct InvalidTag(pub String);

impl InvalidTag {
    /// The message of this error.
    pub fn to_string(&self) -> (r: String)
        ensures
            r@ == self.0@,
    {
        chars::copy(&self.0)
    }
}

/// The error of a component whose parts are not in order. Holds what is wrong.
#[derive(Debug, Clone, PartialEq, Eq)]
pub struct UnsortedTagsError(pub String);

impl UnsortedTagsError {
    /// The message of this error.
    pub fn to_string(&self) -> (r: String)
        ensures
            r@ == self.0@,
    {
        chars::copy(&self.0)
    }
}

/// Why a text is not a tag.
#[derive(Debug, Clone, PartialEq, Eq)]
pub enum TagParseError {
    Invalid(InvalidTag),
    Unsorted(UnsortedTagsError),
}

/// Why a text is not a tag, and the message that says so.
pub enum TagFailure {
    Invalid(Seq<char>),
    Unsorted(Seq<char>),
}

impl TagParseError {
    /// What the error says.
    pub open spec fn failure(self) -> TagFailure {
        match self {
            TagParseError::Invalid(e) => TagFailure::Invalid(e.0@),
            TagParseError::Unsorted(e) => TagFailure::Unsorted(e.0@),
        }
    }
}

// --- Parsing. ---

/// The dash, as a character to split at.
pub open spec fn dash() -> Seq<char> {
    seq!['-']
}

/// The parts of a component, with dots between them.
pub open spec fn component_parts(component: Seq<char>) -> Seq<Seq<char>> {
    text::split(component, grammar::dot())
}

/// Whether texts are in order.
pub open spec fn in_order(l: Seq<Seq<char>>) -> bool {
    forall|i: int, j: int|
        0 <= i < j < l.len() ==> order::compare_text(#[trigger] l[i], #[trigger] l[j]) <= 0
}

/// Whether one of some texts is empty.
pub open spec fn has_empty(l: Seq<Seq<char>>) -> bool {
    exists|i: int| 0 <= i < l.len() && (#[trigger] l[i]).len() == 0
}

/// What is wrong with a component of a tag.
pub open spec fn component_error(
    tag: Seq<char>,
    component: Seq<char>,
    validate_order: bool,
) -> Option<TagFailure> {
    if has_empty(component_parts(component)) {
        Some(
            TagFailure::Invalid(
                "Tag "@ + outside::quoted(tag) + " has an empty component: "@ + outside::quoted(
                    component,
                ),
            ),
        )
    } else if validate_order && !in_order(component_parts(component)) {
        Some(
            TagFailure::Unsorted(
                "Tag component "@ + outside::quoted(component)
                    + " is not in sorted order per PEP 425"@,
            ),
        )
    } else {
        None
    }
}

/// What is wrong with the first component that something is wrong with.
pub open spec fn first_error(
    tag: Seq<char>,
    components: Seq<Seq<char>>,
    validate_order: bool,
) -> Option<TagFailure>
    decreases components.len(),
{
    if components.len() == 0 {
        None
    } else {
        match first_error(tag, components.drop_last(), validate_order) {
            Some(e) => Some(e),
            None => component_error(tag, components.last(), validate_order),
        }
    }
}

/// What is wrong with a text that is not a tag.
pub open spec fn tag_error(tag: Seq<char>, validate_order: bool) -> Option<TagFailure> {
    let components = text::split(tag, dash());
    match first_error(tag, components, validate_order) {
        Some(e) => Some(e),
        None => if components.len() != 3 {
            Some(
                TagFailure::Invalid(
                    "Tag "@ + outside::quoted(tag)
                        + " must have exactly three dash-separated components"@,
                ),
            )
        } else {
            None
        },
    }
}

/// Whether a tag is one of those that three components stand for: one part of each.
pub open spec fn is_product(
    t: TagSpec,
    interpreters: Seq<Seq<char>>,
    abis: Seq<Seq<char>>,
    platforms: Seq<Seq<char>>,
) -> bool {
    exists|i: int, j: int, k: int|
        #![trigger interpreters[i], abis[j], platforms[k]]
        0 <= i < interpreters.len() && 0 <= j < abis.len() && 0 <= k < platforms.len() && t
            == tag_of(interpreters[i], abis[j], platforms[k])
}

/// Whether a tag is one of those that a text stands for.
pub open spec fn stands_for(tag: Seq<char>, t: TagSpec) -> bool {
    let components = text::split(tag, dash());
    is_product(
        t,
        component_parts(components[0]),
        component_parts(components[1]),
        component_parts(components[2]),
    )
}

/// Tags as what they say.
pub open spec fn tag_views(l: Seq<Tag>) -> Seq<TagSpec> {
    l.map_values(|t: Tag| t@)
}

/// Adds a tag, if it is not there yet.
fn add_tag(out: &mut Vec<Tag>, t: Tag)
    requires
        tag_views(old(out)@).no_duplicates(),
    ensures
        tag_views(final(out)@).no_duplicates(),
        forall|u: TagSpec| #[trigger]
            tag_views(final(out)@).contains(u) <==> (tag_views(old(out)@).contains(u) || u == t@),
{
    let ghost all = tag_views(out@);
    let ghost y = t@;
    let mut i: usize = 0;
    while i < out.len()
        invariant
            i <= out@.len(),
            all == tag_views(out@),
            *out == *old(out),
            all.no_duplicates(),
            y == t@,
            forall|j: int| 0 <= j < i ==> #[trigger] all[j] != y,
        decreases out@.len() - i,
    {
        assert(all[i as int] == out@[i as int]@);
        if out[i] == t {
            assert(all.contains(y));
            return ;
        }
        i += 1;
    }
    out.push(t);
    proof {
        let r = tag_views(out@);
        assert(r =~= all.push(y));
        assert forall|u: TagSpec| #[trigger] r.contains(u) <==> (all.contains(u) || u == y) by {
            if r.contains(u) {
                let k = choose|k: int| 0 <= k < r.len() && r[k] == u;
                if k < all.len() {
                    assert(all[k] == u);
                }
            }
            if all.contains(u) {
                let k = choose|k: int| 0 <= k < all.len() && all[k] == u;
                assert(r[k] == u);
            }
            assert(r[all.len() as int] == y);
        }
    }
}

/// Whether a tag has the given interpreter and ABI and one of the given platforms.
spec fn is_of(
    t: TagSpec,
    interpreter: Seq<char>,
    abi: Seq<char>,
    platforms: Seq<Seq<char>>,
) -> bool {
    exists|k: int|
        0 <= k < platforms.len() && t == tag_of(interpreter, abi, #[trigger] platforms[k])
}

/// Adds the tags of an interpreter, an ABI and each of some platforms.
fn add_platforms(out: &mut Vec<Tag>, interpreter: &str, abi: &str, platforms: &Vec<&[char]>)
    requires
        tag_views(old(out)@).no_duplicates(),
    ensures
        tag_views(final(out)@).no_duplicates(),
        forall|u: TagSpec| #[trigger]
            tag_views(final(out)@).contains(u) <==> (tag_views(old(out)@).contains(u) || is_of(
                u,
                interpreter@,
                abi@,
                chars::views(platforms@),
            )),
{
    let ghost ps = chars::views(platforms@);
    let ghost first = tag_views(out@);
    let mut k: usize = 0;
    while k < platforms.len()
        invariant
            k <= platforms@.len(),
            ps == chars::views(platforms@),
            tag_views(out@).no_duplicates(),
            forall|u: TagSpec| #[trigger]
                tag_views(out@).contains(u) <==> (first.contains(u) || is_of(
                    u,
                    interpreter@,
                    abi@,
                    ps.take(k as int),
                )),
        decreases platforms@.len() - k,
    {
        let ghost before = tag_views(out@);
        let platform = chars::string_of(platforms[k]);
        add_tag(out, Tag::new(interpreter, abi, &platform));
        proof {
            let a = ps.take(k as int);
            let b = ps.take(k + 1);
            assert(ps[k as int] == platform@);
            assert forall|u: TagSpec| #[trigger]
                tag_views(out@).contains(u) <==> (first.contains(u) || is_of(
                    u,
                    interpreter@,
                    abi@,
                    b,
                )) by {
                assert(before.contains(u) <==> (first.contains(u) || is_of(
                    u,
                    interpreter@,
                    abi@,
                    a,
                )));
                if is_of(u, interpreter@, abi@, a) {
                    let j = choose|j: int|
                        0 <= j < a.len() && u == tag_of(interpreter@, abi@, #[trigger] a[j]);
                    assert(b[j] == a[j]);
                }
                if is_of(u, interpreter@, abi@, b) {
                    let j = choose|j: int|
                        0 <= j < b.len() && u == tag_of(interpreter@, abi@, #[trigger] b[j]);
                    if j < k {
                        assert(a[j] == b[j]);
                    }
                }
                assert(b[k as int] == platform@);
            }
        }
        k += 1;
    }
    assert(ps.take(k as int) =~= ps);
}

/// Whether a tag has the given interpreter and one of the given ABIs and platforms.
spec fn is_under(
    t: TagSpec,
    interpreter: Seq<char>,
    abis: Seq<Seq<char>>,
    platforms: Seq<Seq<char>>,
) -> bool {
    exists|j: int| 0 <= j < abis.len() && is_of(t, interpreter, #[trigger] abis[j], platforms)
}

/// Adds the tags of an interpreter, each of some ABIs and each of some platforms.
fn add_abis(out: &mut Vec<Tag>, interpreter: &str, abis: &Vec<&[char]>, platforms: &Vec<&[char]>)
    requires
        tag_views(old(out)@).no_duplicates(),
    ensures
        tag_views(final(out)@).no_duplicates(),
        forall|u: TagSpec| #[trigger]
            tag_views(final(out)@).contains(u) <==> (tag_views(old(out)@).contains(u) || is_under(
                u,
                interpreter@,
                chars::views(abis@),
                chars::views(platforms@),
            )),
{
    let ghost ps = chars::views(platforms@);
    let ghost all = chars::views(abis@);
    let ghost first = tag_views(out@);
    let mut j: usize = 0;
    while j < abis.len()
        invariant
            j <= abis@.len(),
            ps == chars::views(platforms@),
            all == chars::views(abis@),
            tag_views(out@).no_duplicates(),
            forall|u: TagSpec| #[trigger]
                tag_views(out@).contains(u) <==> (first.contains(u) || is_under(
                    u,
                    interpreter@,
                    all.take(j as int),
                    ps,
                )),
        decreases abis@.len() - j,
    {
        let ghost before = tag_views(out@);
        let abi = chars::string_of(abis[j]);
        add_platforms(out, interpreter, &abi, platforms);
        proof {
            let a = all.take(j as int);
            let b = all.take(j + 1);
            assert(all[j as int] == abi@);
            assert forall|u: TagSpec| #[trigger]
                tag_views(out@).contains(u) <==> (first.contains(u) || is_under(
                    u,
                    interpreter@,
                    b,
                    ps,
                )) by {
                assert(before.contains(u) <==> (first.contains(u) || is_under(
                    u,
                    interpreter@,
                    a,
                    ps,
                )));
                if is_under(u, interpreter@, a, ps) {
                    let n = choose|n: int|
                        0 <= n < a.len() && is_of(u, interpreter@, #[trigger] a[n], ps);
                    assert(b[n] == a[n]);
                }
                if is_under(u, interpreter@, b, ps) {
                    let n = choose|n: int|
                        0 <= n < b.len() && is_of(u, interpreter@, #[trigger] b[n], ps);
                    if n < j {
                        assert(a[n] == b[n]);
                    }
                }
                assert(b[j as int] == abi@);
            }
        }
        j += 1;
    }
    assert(all.take(j as int) =~= all);
}

/// Whether a tag has one of the given interpreters, ABIs and platforms.
spec fn is_among(
    t: TagSpec,
    interpreters: Seq<Seq<char>>,
    abis: Seq<Seq<char>>,
    platforms: Seq<Seq<char>>,
) -> bool {
    exists|i: int|
        0 <= i < interpreters.len() && is_under(t, #[trigger] interpreters[i], abis, platforms)
}

proof fn lemma_among(
    t: TagSpec,
    interpreters: Seq<Seq<char>>,
    abis: Seq<Seq<char>>,
    platforms: Seq<Seq<char>>,
)
    ensures
        is_among(t, interpreters, abis, platforms) <==> is_product(
            t,
            interpreters,
            abis,
            platforms,
        ),
{
    if is_among(t, interpreters, abis, platforms) {
        let i = choose|i: int|
            0 <= i < interpreters.len() && is_under(t, #[trigger] interpreters[i], abis, platforms);
        let j = choose|j: int|
            0 <= j < abis.len() && is_of(t, interpreters[i], #[trigger] abis[j], platforms);
        let k = choose|k: int|
            0 <= k < platforms.len() && t == tag_of(
                interpreters[i],
                abis[j],
                #[trigger] platforms[k],
            );
        assert(interpreters[i] == interpreters[i] && abis[j] == abis[j] && platforms[k]
            == platforms[k]);
    }
    if is_product(t, interpreters, abis, platforms) {
        let (i, j, k) = choose|i: int, j: int, k: int|
            #![trigger interpreters[i], abis[j], platforms[k]]
            0 <= i < interpreters.len() && 0 <= j < abis.len() && 0 <= k < platforms.len() && t
                == tag_of(interpreters[i], abis[j], platforms[k]);
        assert(is_of(t, interpreters[i], abis[j], platforms));
        assert(is_under(t, interpreters[i], abis, platforms));
    }
}

/// The tags of each of some interpreters, ABIs and platforms, each once.
fn product(interpreters: &Vec<&[char]>, abis: &Vec<&[char]>, platforms: &Vec<&[char]>) -> (r: Vec<
    Tag,
>)
    ensures
        tag_views(r@).no_duplicates(),
        forall|u: TagSpec| #[trigger]
            tag_views(r@).contains(u) <==> is_product(
                u,
                chars::views(interpreters@),
                chars::views(abis@),
                chars::views(platforms@),
            ),
{
    let ghost ps = chars::views(platforms@);
    let ghost aa = chars::views(abis@);
    let ghost all = chars::views(interpreters@);
    let mut out: Vec<Tag> = Vec::new();
    let mut i: usize = 0;
    while i < interpreters.len()
        invariant
            i <= interpreters@.len(),
            ps == chars::views(platforms@),
            aa == chars::views(abis@),
            all == chars::views(interpreters@),
            tag_views(out@).no_duplicates(),
            forall|u: TagSpec| #[trigger]
                tag_views(out@).contains(u) <==> is_among(u, all.take(i as int), aa, ps),
        decreases interpreters@.len() - i,
    {
        let ghost before = tag_views(out@);
        let interpreter = chars::string_of(interpreters[i]);
        add_abis(&mut out, &interpreter, abis, platforms);
        proof {
            let a = all.take(i as int);
            let b = all.take(i + 1);
            assert(all[i as int] == interpreter@);
            assert forall|u: TagSpec| #[trigger]
                tag_views(out@).contains(u) <==> is_among(u, b, aa, ps) by {
                assert(before.contains(u) <==> is_among(u, a, aa, ps));
                if is_among(u, a, aa, ps) {
                    let n = choose|n: int|
                        0 <= n < a.len() && is_under(u, #[trigger] a[n], aa, ps);
                    assert(b[n] == a[n]);
                }
                if is_among(u, b, aa, ps) {
                    let n = choose|n: int|
                        0 <= n < b.len() && is_under(u, #[trigger] b[n], aa, ps);
                    if n < i {
                        assert(a[n] == b[n]);
                    }
                }
                assert(b[i as int] == interpreter@);
            }
        }
        i += 1;
    }
    assert(all.take(i as int) =~= all);
    assert forall|u: TagSpec| #[trigger] tag_views(out@).contains(u) <==> is_product(
        u,
        all,
        aa,
        ps,
    ) by {
        lemma_among(u, all, aa, ps);
    }
    out
}

/// Whether texts are in order.
fn check_order(l: &Vec<&[char]>) -> (r: bool)
    ensures
        r == in_order(chars::views(l@)),
{
    let ghost all = chars::views(l@);
    let mut i: usize = 1;
    while i < l.len()
        invariant
            1 <= i,
            all == chars::views(l@),
            forall|a: int, b: int|
                0 <= a < b < i && b < all.len() ==> order::compare_text(
                    #[trigger] all[a],
                    #[trigger] all[b],
                ) <= 0,
        decreases l@.len() - i,
    {
        assert(all[i as int] == l@[i as int]@);
        assert(all[i - 1] == l@[i - 1]@);
        if chars::compare_text(l[i - 1], l[i]) == Sign::After {
            return false;
        }
        assert forall|a: int, b: int| 0 <= a < b < i + 1 && b < all.len() implies
            order::compare_text(#[trigger] all[a], #[trigger] all[b]) <= 0 by {
            if b == i && a < i - 1 {
                assert(order::compare_text(all[a], all[i - 1]) <= 0);
                order::lemma_text_order(all[a], all[i - 1], all[i as int]);
            }
        }
        i += 1;
    }
    true
}

/// Whether one of some texts is empty.
fn find_empty(l: &Vec<&[char]>) -> (r: bool)
    ensures
        r == has_empty(chars::views(l@)),
{
    let ghost all = chars::views(l@);
    let mut i: usize = 0;
    while i < l.len()
        invariant
            i <= l@.len(),
            all == chars::views(l@),
            forall|j: int| 0 <= j < i ==> (#[trigger] all[j]).len() != 0,
        decreases l@.len() - i,
    {
        assert(all[i as int] == l@[i as int]@);
        if l[i].len() == 0 {
            return true;
        }
        i += 1;
    }
    false
}

/// Checks a component of a tag.
fn check_component(tag: &str, component: &[char], validate_order: bool) -> (r: Option<
    TagParseError,
>)
    ensures
        match r {
            Some(e) => component_error(tag@, component@, validate_order) == Some(e.failure()),
            None => component_error(tag@, component@, validate_order) is None,
        },
{
    let marks = ['.'];
    assert(marks@ =~= grammar::dot());
    let parts = chars::split(component, &marks);
    if find_empty(&parts) {
        let mut m = chars::copy("Tag ");
        m.push_str(&outside::quote(tag));
        m.push_str(" has an empty component: ");
        m.push_str(&outside::quote(&chars::string_of(component)));
        return Some(TagParseError::Invalid(InvalidTag(m)));
    }
    if validate_order && !check_order(&parts) {
        let mut m = chars::copy("Tag component ");
        m.push_str(&outside::quote(&chars::string_of(component)));
        m.push_str(" is not in sorted order per PEP 425");
        return Some(TagParseError::Unsorted(UnsortedTagsError(m)));
    }
    None
}

/// The first failure of some components is that of all of them.
proof fn lemma_first_error(tag: Seq<char>, l: Seq<Seq<char>>, validate_order: bool, n: int)
    requires
        0 <= n <= l.len(),
        first_error(tag, l.take(n), validate_order) is Some,
    ensures
        first_error(tag, l, validate_order) == first_error(tag, l.take(n), validate_order),
    decreases l.len() - n,
{
    if n == l.len() {
        assert(l.take(n) =~= l);
    } else {
        assert(l.take(n + 1).drop_last() =~= l.take(n));
        lemma_first_error(tag, l, validate_order, n + 1);
    }
}

/// Reads a tag: three components with dashes between them. A component may be several parts
/// with dots between them; the text then stands for the tags of each choice of one part of
/// each component. The result holds each of these once. With `validate_order` the parts have
/// to be in order.
pub fn parse_tag(tag: &str, validate_order: bool) -> (r: Result<Vec<Tag>, TagParseError>)
    ensures
        match r {
            Ok(l) => {
                &&& tag_error(tag@, validate_order) is None
                &&& tag_views(l@).no_duplicates()
                &&& forall|t: TagSpec| #[trigger]
                    tag_views(l@).contains(t) <==> stands_for(tag@, t)
            },
            Err(e) => tag_error(tag@, validate_order) == Some(e.failure()),
        },
{
    let cs = chars::chars_of(tag);
    let marks = ['-'];
    assert(marks@ =~= dash());
    let components = chars::split(&cs, &marks);
    let ghost all = text::split(tag@, dash());
    let mut i: usize = 0;
    assert(all.take(0) =~= Seq::empty());
    while i < components.len()
        invariant
            i <= components@.len(),
            chars::views(components@) == all,
            all == text::split(tag@, dash()),
            first_error(tag@, all.take(i as int), validate_order) is None,
        decreases components@.len() - i,
    {
        proof {
            assert(all[i as int] == components@[i as int]@);
            assert(all.take(i + 1).drop_last() =~= all.take(i as int));
            assert(all.take(i + 1).last() == all[i as int]);
            if first_error(tag@, all.take(i + 1), validate_order) is Some {
                lemma_first_error(tag@, all, validate_order, i + 1);
            }
        }
        if let Some(e) = check_component(tag, components[i], validate_order) {
            return Err(e);
        }
        i += 1;
    }
    assert(all.take(i as int) =~= all);
    if components.len() != 3 {
        let mut m = chars::copy("Tag ");
        m.push_str(&outside::quote(tag));
        m.push_str(" must have exactly three dash-separated components");
        return Err(TagParseError::Invalid(InvalidTag(m)));
    }
    let dots = ['.'];
    assert(dots@ =~= grammar::dot());
    assert(all[0] == components@[0]@ && all[1] == components@[1]@ && all[2] == components@[2]@);
    let interpreters = chars::split(components[0], &dots);
    let abis = chars::split(components[1], &dots);
    let platforms = chars::split(components[2], &dots);
    Ok(product(&interpreters, &abis, &platforms))
}

} // verus!
