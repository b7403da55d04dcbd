//! Laws of tags and of the names of files.

use vstd::prelude::*;

use crate::canonical;
use crate::filenames::{self, BuildTag};
use crate::grammar::{self, LocalPart, VersionSpec};
use crate::names;
use crate::order;
use crate::outside;
use crate::tags::{self, TagFailure, TagSpec};
use crate::text::{self, Class};
use crate::version;
use crate::version_laws;

verus! {

proof fn lemma_without_add(a: Seq<char>, b: Seq<char>, c: char)
    requires
        !a.contains(c),
        !b.contains(c),
    ensures
        !(a + b).contains(c),
{
    let s = a + b;
    if s.contains(c) {
        let i = choose|i: int| 0 <= i < s.len() && s[i] == c;
        if i < a.len() {
            assert(a[i] == c);
        } else {
            assert(b[i - a.len()] == c);
        }
    }
}

proof fn lemma_decimal_dash(n: nat)
    ensures
        !text::decimal(n).contains('-'),
{
    text::lemma_decimal(n);
    let d = text::decimal(n);
    if d.contains('-') {
        let i = choose|i: int| 0 <= i < d.len() && d[i] == '-';
        assert(text::in_class(Class::Digit, d[i]));
    }
}

proof fn lemma_join_dash(parts: Seq<Seq<char>>)
    requires
        forall|i: int| 0 <= i < parts.len() ==> !(#[trigger] parts[i]).contains('-'),
    ensures
        !text::join(parts, grammar::dot()).contains('-'),
{
    if text::join(parts, grammar::dot()).contains('-') {
        text::lemma_join_within(parts, grammar::dot(), '-');
        let i = choose|i: int| 0 <= i < parts.len() && (#[trigger] parts[i]).contains('-');
        assert(!parts[i].contains('-'));
    }
}

/// There is no dash in the canonical text of a version.
pub proof fn law_no_dash(v: VersionSpec)
    requires
        version::is_version(v),
    ensures
        !canonical::render(v).contains('-'),
{
    reveal_strlit("a");
    reveal_strlit("b");
    reveal_strlit("rc");
    reveal_strlit(".post");
    reveal_strlit(".dev");
    reveal_strlit("+");
    let e = canonical::epoch_text(v.epoch);
    lemma_decimal_dash(v.epoch);
    assert(!e.contains('-')) by {
        if v.epoch != 0 {
            let d = text::decimal(v.epoch);
            assert(d.push('!') =~= d + seq!['!']);
            lemma_without_add(d, seq!['!'], '-');
        }
    }
    let ds = canonical::decimals(v.release);
    assert forall|i: int| 0 <= i < ds.len() implies !(#[trigger] ds[i]).contains('-') by {
        lemma_decimal_dash(v.release[i]);
    }
    lemma_join_dash(ds);
    let b = canonical::base_text(v);
    lemma_without_add(e, canonical::release_text(v.release), '-');
    let p = canonical::pre_text(v.pre);
    if let Some((l, n)) = v.pre {
        lemma_decimal_dash(n);
        lemma_without_add(l.spelling(), text::decimal(n), '-');
    }
    lemma_without_add(b, p, '-');
    let q = canonical::post_text(v.post);
    if let Some(n) = v.post {
        lemma_decimal_dash(n);
        lemma_without_add(".post"@, text::decimal(n), '-');
    }
    lemma_without_add(b + p, q, '-');
    let d = canonical::dev_text(v.dev);
    if let Some(n) = v.dev {
        lemma_decimal_dash(n);
        lemma_without_add(".dev"@, text::decimal(n), '-');
    }
    lemma_without_add(b + p + q, d, '-');
    let m = canonical::local_text(v.local);
    if let Some(l) = v.local {
        let ps = canonical::part_texts(l);
        assert forall|i: int| 0 <= i < ps.len() implies !(#[trigger] ps[i]).contains('-') by {
            assert(version::is_local_part(l[i]));
            match l[i] {
                LocalPart::Number(n) => {
                    lemma_decimal_dash(n);
                },
                LocalPart::Text(t) => {
                    if t.contains('-') {
                        let k = choose|k: int| 0 <= k < t.len() && t[k] == '-';
                        assert(text::in_class(Class::Label, t[k]));
                    }
                },
            }
        }
        lemma_join_dash(ps);
        lemma_without_add("+"@, canonical::label_text(l), '-');
    }
    lemma_without_add(canonical::public_text(v), m, '-');
}

/// What the name of a source archive says: made of the name of a project, a dash, the canonical
/// text of a version and an extension, it says the normalized name and that version.
pub proof fn law_sdist(name: Seq<char>, v: VersionSpec, zip: bool)
    requires
        version::is_version(v),
        version::fits(v),
    ensures
        ({
            let stem = name + "-"@ + canonical::render(v);
            let file = stem + (if zip {
                ".zip"@
            } else {
                ".tar.gz"@
            });
            filenames::read_sdist(file) == Ok::<(Seq<char>, VersionSpec), Seq<char>>(
                (names::canonical_name(name), v),
            )
        }),
{
    reveal_strlit("-");
    reveal_strlit(".zip");
    reveal_strlit(".tar.gz");
    let t = canonical::render(v);
    let stem = name + "-"@ + t;
    let file = stem + (if zip {
        ".zip"@
    } else {
        ".tar.gz"@
    });
    law_no_dash(v);
    canonical::law_parse_render(v);
    assert(stem =~= name.push('-') + t);
    text::lemma_last_of(name, '-', t);
    assert(text::head(stem, name.len()) =~= name);
    assert(text::after(stem, name.len() + 1) =~= t);
    if zip {
        assert(file.skip(file.len() - 4) =~= ".zip"@);
        if text::ends_with(file, ".tar.gz"@) {
            assert(file.skip(file.len() - 7)[6] == 'z');
            assert(file.last() == 'p');
        }
        assert(filenames::without_end(file, 4) =~= stem);
    } else {
        assert(file.skip(file.len() - 7) =~= ".tar.gz"@);
        assert(filenames::without_end(file, 7) =~= stem);
    }
}

/// Pieces without dashes come back from what they were joined to with dashes.
proof fn lemma_pieces(parts: Seq<Seq<char>>)
    requires
        parts.len() > 0,
        forall|i: int| 0 <= i < parts.len() ==> !(#[trigger] parts[i]).contains('-'),
    ensures
        text::split(text::join(parts, tags::dash()), tags::dash()) == parts,
{
    assert forall|i: int, j: int|
        0 <= i < parts.len() && 0 <= j < parts[i].len() implies !tags::dash().contains(
        #[trigger] parts[i][j],
    ) by {
        assert(parts[i].contains(parts[i][j]));
    }
    assert(tags::dash()[0] == '-');
    assert(tags::dash().contains('-'));
    text::lemma_split_join(parts, '-', tags::dash());
    assert(seq!['-'] =~= tags::dash());
}

/// What the name of a wheel says: made of the name of a project, the canonical text of a
/// version and three components of a tag, with dashes between them, it says these.
pub proof fn law_wheel(
    name: Seq<char>,
    v: VersionSpec,
    interpreter: Seq<char>,
    abi: Seq<char>,
    platform: Seq<char>,
)
    requires
        filenames::is_wheel_name(name),
        version::is_version(v),
        version::fits(v),
        !interpreter.contains('-'),
        !abi.contains('-'),
        !platform.contains('-'),
        tags::tag_error(text::join(seq![interpreter, abi, platform], tags::dash()), false) is None,
    ensures
        ({
            let stem = text::join(
                seq![name, canonical::render(v), interpreter, abi, platform],
                tags::dash(),
            );
            let file = stem + ".whl"@;
            &&& filenames::wheel_error(file, false) is None
            &&& filenames::without_end(file, 4) == stem
            &&& filenames::pieces(stem)[0] == name
            &&& version::parse_version(filenames::pieces(stem)[1]) == Some(v)
            &&& filenames::pieces(stem).len() == 5
            &&& filenames::tag_part(stem) == text::join(
                seq![interpreter, abi, platform],
                tags::dash(),
            )
        }),
{
    reveal_strlit(".whl");
    let t = canonical::render(v);
    let parts = seq![name, t, interpreter, abi, platform];
    let stem = text::join(parts, tags::dash());
    let file = stem + ".whl"@;
    law_no_dash(v);
    canonical::law_parse_render(v);
    assert(!name.contains('-')) by {
        if name.contains('-') {
            let i = choose|i: int| 0 <= i < name.len() && name[i] == '-';
            assert(filenames::is_wheel_char(name[i]));
        }
    }
    lemma_pieces(parts);
    assert(file.skip(file.len() - 4) =~= ".whl"@);
    assert(filenames::without_end(file, 4) =~= stem);
    assert(parts.skip(2) =~= seq![interpreter, abi, platform]);
}

// --- Tags. ---

/// Whether a text can be a part of a tag by itself: in lower case, without dashes and dots.
pub open spec fn is_tag_part(s: Seq<char>) -> bool {
    s.len() > 0 && !s.contains('-') && !s.contains('.') && outside::lowercase(s) == s
}

proof fn lemma_one_part(s: Seq<char>)
    requires
        is_tag_part(s),
    ensures
        tags::component_parts(s) == seq![s],
        tags::component_error(s, s, false) is None,
        forall|tag: Seq<char>| #[trigger] tags::component_error(tag, s, false) is None,
{
    let one = seq![s];
    assert forall|i: int, j: int|
        0 <= i < one.len() && 0 <= j < one[i].len() implies !grammar::dot().contains(
        #[trigger] one[i][j],
    ) by {
        assert(s.contains(s[j]));
    }
    assert(grammar::dot()[0] == '.');
    assert(grammar::dot().contains('.'));
    text::lemma_split_join(one, '.', grammar::dot());
    assert(text::join(one, seq!['.']) == s);
}

/// Reading back what was written, for tags: the text of a tag stands for that tag alone.
pub proof fn law_tag_text(t: TagSpec, u: TagSpec)
    requires
        is_tag_part(t.interpreter),
        is_tag_part(t.abi),
        is_tag_part(t.platform),
    ensures
        tags::tag_error(tags::tag_text(t), false) is None,
        tags::stands_for(tags::tag_text(t), u) <==> u == t,
{
    reveal_strlit("-");
    let s = tags::tag_text(t);
    let parts = seq![t.interpreter, t.abi, t.platform];
    assert(s =~= text::join(parts, tags::dash())) by {
        let two = parts.skip(1);
        let one = two.skip(1);
        assert(one =~= seq![t.platform]);
        assert(text::join(one, tags::dash()) == t.platform);
        assert(text::join(two, tags::dash()) == t.abi + tags::dash() + t.platform);
        assert(text::join(parts, tags::dash()) == t.interpreter + tags::dash() + text::join(
            two,
            tags::dash(),
        ));
    }
    lemma_pieces(parts);
    lemma_one_part(t.interpreter);
    lemma_one_part(t.abi);
    lemma_one_part(t.platform);
    let a = parts.take(1);
    let b = parts.take(2);
    let none = Seq::<Seq<char>>::empty();
    assert(a.drop_last() =~= none && b.drop_last() =~= a && parts.drop_last() =~= b);
    assert(tags::first_error(s, none, false) is None);
    assert(a.last() == t.interpreter);
    assert(tags::first_error(s, a, false) is None);
    assert(b.last() == t.abi);
    assert(tags::first_error(s, b, false) is None);
    let is = seq![t.interpreter];
    let aa = seq![t.abi];
    let ps = seq![t.platform];
    assert(tags::tag_of(is[0], aa[0], ps[0]) == t);
    if tags::stands_for(s, u) {
        let (i, j, k) = choose|i: int, j: int, k: int|
            #![trigger is[i], aa[j], ps[k]]
            0 <= i < is.len() && 0 <= j < aa.len() && 0 <= k < ps.len() && u == tags::tag_of(
                is[i],
                aa[j],
                ps[k],
            );
    }
}

/// The case of letters does not matter to a tag, for texts of ASCII characters.
pub proof fn law_tag_case(interpreter: Seq<char>, abi: Seq<char>, platform: Seq<char>)
    requires
        text::is_ascii(interpreter),
        text::is_ascii(abi),
        text::is_ascii(platform),
    ensures
        tags::tag_of(
            text::lower_text(interpreter),
            text::lower_text(abi),
            text::lower_text(platform),
        ) == tags::tag_of(interpreter, abi, platform),
{
    lemma_lower_again(interpreter);
    lemma_lower_again(abi);
    lemma_lower_again(platform);
}

proof fn lemma_lower_again(s: Seq<char>)
    requires
        text::is_ascii(s),
    ensures
        outside::lowercase(text::lower_text(s)) == outside::lowercase(s),
{
    let t = text::lower_text(s);
    assert forall|i: int| 0 <= i < t.len() implies (#[trigger] t[i] as u32) < 128 && text::lower(
        t[i],
    ) == t[i] by {
        assert((s[i] as u32) < 128);
    }
    assert(text::is_ascii(t));
    assert(text::lower_text(t) =~= t);
}

// --- What is accepted, and what it says. ---

/// Whether some texts can be the parts of a component: there are some, and none holds a dot or
/// a dash.
pub open spec fn are_parts(l: Seq<Seq<char>>) -> bool {
    &&& l.len() > 0
    &&& forall|i: int|
        0 <= i < l.len() ==> !(#[trigger] l[i]).contains('.') && !l[i].contains('-')
}

/// A component of a tag: parts with dots between them.
pub open spec fn dotted(l: Seq<Seq<char>>) -> Seq<char> {
    text::join(l, seq!['.'])
}

/// Whether a part is empty.
pub open spec fn some_empty(l: Seq<Seq<char>>) -> bool {
    exists|i: int| 0 <= i < l.len() && (#[trigger] l[i]) == Seq::<char>::empty()
}

/// Whether each part comes before the later ones or is the same.
pub open spec fn ordered_parts(l: Seq<Seq<char>>) -> bool {
    forall|i: int, j: int|
        0 <= i < j < l.len() ==> #[trigger] l[i] == #[trigger] l[j] || order::compare_text(
            l[i],
            l[j],
        ) < 0
}

/// Whether nothing is wrong with a component: no part is empty, and the parts are in order where
/// that is asked for.
pub open spec fn good_parts(l: Seq<Seq<char>>, validate_order: bool) -> bool {
    !some_empty(l) && (validate_order ==> ordered_parts(l))
}

proof fn lemma_dotted(l: Seq<Seq<char>>, tag: Seq<char>, validate_order: bool)
    requires
        are_parts(l),
    ensures
        tags::component_parts(dotted(l)) == l,
        !dotted(l).contains('-'),
        tags::component_error(tag, dotted(l), validate_order) is None <==> good_parts(
            l,
            validate_order,
        ),
        (tags::component_error(tag, dotted(l), validate_order) matches Some(
            TagFailure::Invalid(_),
        )) <==> some_empty(l),
{
    assert forall|i: int, j: int|
        0 <= i < l.len() && 0 <= j < l[i].len() implies !grammar::dot().contains(
        #[trigger] l[i][j],
    ) by {
        assert(!l[i].contains('.'));
        assert(l[i].contains(l[i][j]));
    }
    assert(grammar::dot()[0] == '.');
    assert(grammar::dot().contains('.'));
    assert(seq!['.'] =~= grammar::dot());
    text::lemma_split_join(l, '.', grammar::dot());
    assert forall|i: int| 0 <= i < l.len() implies !(#[trigger] l[i]).contains('-') by {}
    lemma_join_dash(l);
    if tags::has_empty(l) {
        let i = choose|i: int| 0 <= i < l.len() && (#[trigger] l[i]).len() == 0;
        assert(l[i] =~= Seq::<char>::empty());
    }
    if some_empty(l) {
        let i = choose|i: int| 0 <= i < l.len() && (#[trigger] l[i]) == Seq::<char>::empty();
        assert(l[i].len() == 0);
    }
    if ordered_parts(l) {
        assert forall|i: int, j: int| 0 <= i < j < l.len() implies order::compare_text(
            #[trigger] l[i],
            #[trigger] l[j],
        ) <= 0 by {
            order::lemma_text_order(l[i], l[j], l[j]);
        }
    }
    if tags::in_order(l) {
        assert forall|i: int, j: int| 0 <= i < j < l.len() implies #[trigger] l[i]
            == #[trigger] l[j] || order::compare_text(l[i], l[j]) < 0 by {
            order::lemma_text_order(l[i], l[j], l[j]);
        }
    }
}

/// The text of some components, with dashes between them.
pub open spec fn dashed(components: Seq<Seq<Seq<char>>>) -> Seq<char> {
    text::join(components.map_values(|l: Seq<Seq<char>>| dotted(l)), seq!['-'])
}

proof fn lemma_first_error(
    tag: Seq<char>,
    cs: Seq<Seq<Seq<char>>>,
    validate_order: bool,
    n: int,
)
    requires
        0 <= n <= cs.len(),
        forall|i: int| 0 <= i < cs.len() ==> are_parts(#[trigger] cs[i]),
        forall|i: int| 0 <= i < n ==> good_parts(#[trigger] cs[i], validate_order),
        n < cs.len() ==> !good_parts(cs[n], validate_order),
    ensures
        ({
            let texts = cs.map_values(|l: Seq<Seq<char>>| dotted(l));
            let e = tags::first_error(tag, texts, validate_order);
            &&& e is None <==> n == cs.len()
            &&& n < cs.len() ==> ((e matches Some(TagFailure::Invalid(_))) <==> some_empty(cs[n]))
        }),
    decreases cs.len(),
{
    let f = |l: Seq<Seq<char>>| dotted(l);
    let texts = cs.map_values(f);
    if cs.len() > 0 {
        let d = cs.drop_last();
        assert(texts.drop_last() =~= d.map_values(f));
        assert(texts.last() == dotted(cs.last()));
        assert(are_parts(cs[cs.len() - 1]));
        lemma_dotted(cs.last(), tag, validate_order);
        assert forall|i: int| 0 <= i < d.len() implies are_parts(#[trigger] d[i]) by {
            assert(are_parts(cs[i]));
        }
        let m = if n < d.len() {
            n
        } else {
            d.len() as int
        };
        assert forall|i: int| 0 <= i < m implies good_parts(#[trigger] d[i], validate_order) by {
            assert(good_parts(cs[i], validate_order));
        }
        lemma_first_error(tag, d, validate_order, m);
        if n == cs.len() {
            assert(good_parts(cs[n - 1], validate_order));
        }
    }
}

/// Which texts are tags: three components, with nothing wrong with any of them. The first that
/// something is wrong with decides what kind of error it is.
pub proof fn law_tag_error(cs: Seq<Seq<Seq<char>>>, validate_order: bool, n: int)
    requires
        cs.len() > 0,
        0 <= n <= cs.len(),
        forall|i: int| 0 <= i < cs.len() ==> are_parts(#[trigger] cs[i]),
        forall|i: int| 0 <= i < n ==> good_parts(#[trigger] cs[i], validate_order),
        n < cs.len() ==> !good_parts(cs[n], validate_order),
    ensures
        ({
            let e = tags::tag_error(dashed(cs), validate_order);
            &&& e is None <==> n == cs.len() && cs.len() == 3
            &&& (e matches Some(TagFailure::Unsorted(_))) <==> n < cs.len() && !some_empty(cs[n])
        }),
{
    lemma_components(cs);
    lemma_first_error(dashed(cs), cs, validate_order, n);
}

proof fn lemma_components(cs: Seq<Seq<Seq<char>>>)
    requires
        cs.len() > 0,
        forall|i: int| 0 <= i < cs.len() ==> are_parts(#[trigger] cs[i]),
    ensures
        text::split(dashed(cs), tags::dash()) == cs.map_values(|l: Seq<Seq<char>>| dotted(l)),
{
    let texts = cs.map_values(|l: Seq<Seq<char>>| dotted(l));
    assert forall|i: int| 0 <= i < texts.len() implies !(#[trigger] texts[i]).contains('-') by {
        assert(are_parts(cs[i]));
        lemma_dotted(cs[i], Seq::empty(), false);
    }
    lemma_pieces(texts);
    assert(seq!['-'] =~= tags::dash());
}

/// Whether a tag takes one part of each of three components, in lower case.
pub open spec fn takes_one_of_each(
    t: TagSpec,
    interpreters: Seq<Seq<char>>,
    abis: Seq<Seq<char>>,
    platforms: Seq<Seq<char>>,
) -> bool {
    exists|i: int, j: int, k: int|
        #![trigger interpreters[i], abis[j], platforms[k]]
        {
            &&& 0 <= i < interpreters.len()
            &&& 0 <= j < abis.len()
            &&& 0 <= k < platforms.len()
            &&& t.interpreter == outside::lowercase(interpreters[i])
            &&& t.abi == outside::lowercase(abis[j])
            &&& t.platform == outside::lowercase(platforms[k])
        }
}

/// A text of three components stands for the tags that take one part of each.
pub proof fn law_tag_product(
    interpreters: Seq<Seq<char>>,
    abis: Seq<Seq<char>>,
    platforms: Seq<Seq<char>>,
    t: TagSpec,
)
    requires
        are_parts(interpreters),
        are_parts(abis),
        are_parts(platforms),
    ensures
        tags::stands_for(dashed(seq![interpreters, abis, platforms]), t) <==> takes_one_of_each(
            t,
            interpreters,
            abis,
            platforms,
        ),
{
    let cs = seq![interpreters, abis, platforms];
    lemma_components(cs);
    let texts = cs.map_values(|l: Seq<Seq<char>>| dotted(l));
    assert(texts[0] == dotted(interpreters) && texts[1] == dotted(abis) && texts[2] == dotted(
        platforms,
    ));
    lemma_dotted(interpreters, Seq::empty(), false);
    lemma_dotted(abis, Seq::empty(), false);
    lemma_dotted(platforms, Seq::empty(), false);
    if takes_one_of_each(t, interpreters, abis, platforms) {
        let (i, j, k) = choose|i: int, j: int, k: int|
            #![trigger interpreters[i], abis[j], platforms[k]]
            {
                &&& 0 <= i < interpreters.len()
                &&& 0 <= j < abis.len()
                &&& 0 <= k < platforms.len()
                &&& t.interpreter == outside::lowercase(interpreters[i])
                &&& t.abi == outside::lowercase(abis[j])
                &&& t.platform == outside::lowercase(platforms[k])
            };
        assert(t == tags::tag_of(interpreters[i], abis[j], platforms[k]));
    }
}

// --- Wheels. ---

/// Whether a text of ASCII characters can name a project in the name of a wheel: letters,
/// digits, dots and underscores, without two underscores in a row.
pub open spec fn names_project(s: Seq<char>) -> bool {
    &&& forall|i: int|
        0 <= i < s.len() ==> 'a' <= #[trigger] s[i] <= 'z' || 'A' <= s[i] <= 'Z' || '0' <= s[i]
            <= '9' || s[i] == '.' || s[i] == '_'
    &&& forall|i: int| 0 <= i < s.len() - 1 ==> !(#[trigger] s[i] == '_' && s[i + 1] == '_')
}

proof fn lemma_names_project(s: Seq<char>)
    requires
        text::is_ascii(s),
    ensures
        filenames::is_wheel_name(s) <==> names_project(s),
{
    reveal_strlit("__");
    if filenames::is_wheel_name(s) {
        assert forall|i: int| 0 <= i < s.len() implies 'a' <= #[trigger] s[i] <= 'z' || 'A' <= s[i]
            <= 'Z' || '0' <= s[i] <= '9' || s[i] == '.' || s[i] == '_' by {
            assert(filenames::is_wheel_char(s[i]));
            assert((s[i] as u32) < 128);
        }
        assert forall|i: int| 0 <= i < s.len() - 1 implies !(#[trigger] s[i] == '_' && s[i + 1]
            == '_') by {
            if s[i] == '_' && s[i + 1] == '_' {
                assert(s.skip(i).take(2) =~= "__"@);
                assert(text::starts_with(s.skip(i), "__"@));
            }
        }
    }
    if names_project(s) {
        assert forall|i: int| 0 <= i < s.len() implies filenames::is_wheel_char(#[trigger] s[i]) by {
            assert((s[i] as u32) < 128);
        }
        if text::contains_text(s, "__"@) {
            let i = choose|i: int|
                0 <= i <= s.len() && text::starts_with(#[trigger] s.skip(i), "__"@);
            let u = s.skip(i);
            assert(u.take(2)[0] == '_' && u.take(2)[1] == '_');
            assert(s[i] == '_' && s[i + 1] == '_');
        }
    }
}

/// What stands in the name of a wheel before its extension: the project, the version, the build
/// if there is one, and the three components of a tag.
pub open spec fn wheel_pieces(
    name: Seq<char>,
    version: Seq<char>,
    build: Option<Seq<char>>,
    interpreters: Seq<Seq<char>>,
    abis: Seq<Seq<char>>,
    platforms: Seq<Seq<char>>,
) -> Seq<Seq<char>> {
    match build {
        Some(b) => seq![name, version, b, dotted(interpreters), dotted(abis), dotted(platforms)],
        None => seq![name, version, dotted(interpreters), dotted(abis), dotted(platforms)],
    }
}

/// Whether a build is the number that some digits say and what follows them, or none.
pub open spec fn is_build_of(b: BuildTag, given: Option<(Seq<char>, Seq<char>)>) -> bool {
    match (b, given) {
        (Some((n, t)), Some((digits, rest))) => n == text::number(digits) && t@ == rest,
        (None, None) => true,
        _ => false,
    }
}

/// The digits that a build begins with.
proof fn lemma_build(digits: Seq<char>, rest: Seq<char>)
    requires
        forall|i: int| 0 <= i < digits.len() ==> '0' <= #[trigger] digits[i] <= '9',
        rest.len() > 0 ==> !('0' <= rest[0] <= '9'),
    ensures
        filenames::build_digits(digits + rest) == digits,
        text::after(digits + rest, digits.len()) == rest,
        filenames::is_build(digits + rest) <==> digits.len() > 0 && text::number(digits)
            <= u64::MAX,
{
    assert(text::all_in(Class::Digit, digits)) by {
        assert forall|i: int| 0 <= i < digits.len() implies text::in_class(
            Class::Digit,
            #[trigger] digits[i],
        ) by {}
    }
    text::lemma_run_concat(Class::Digit, digits, rest);
    assert(text::head(digits + rest, digits.len()) =~= digits);
    assert(text::after(digits + rest, digits.len()) =~= rest);
}

/// What the name of a wheel says, and when it is one. The pieces are a project, a version,
/// perhaps a build of digits and what follows them, and the three components of a tag. It is
/// the name of a wheel exactly where the project is well named, the version is one, the build
/// begins with digits that make a number of 64 bits, and nothing is wrong with the components.
pub proof fn law_wheel_name(
    name: Seq<char>,
    version: Seq<char>,
    build: Option<(Seq<char>, Seq<char>)>,
    interpreters: Seq<Seq<char>>,
    abis: Seq<Seq<char>>,
    platforms: Seq<Seq<char>>,
    validate_order: bool,
    b: BuildTag,
    t: TagSpec,
)
    requires
        text::is_ascii(name) && !name.contains('-'),
        !version.contains('-'),
        build matches Some((digits, rest)) ==> {
            &&& forall|i: int| 0 <= i < digits.len() ==> '0' <= #[trigger] digits[i] <= '9'
            &&& rest.len() > 0 ==> !('0' <= rest[0] <= '9')
            &&& !rest.contains('-')
        },
        are_parts(interpreters),
        are_parts(abis),
        are_parts(platforms),
    ensures
        ({
            let whole = match build {
                Some((digits, rest)) => Some(digits + rest),
                None => None,
            };
            let stem = text::join(
                wheel_pieces(name, version, whole, interpreters, abis, platforms),
                seq!['-'],
            );
            let file = stem + ".whl"@;
            let p = filenames::pieces(filenames::without_end(file, 4));
            &&& filenames::wheel_error(file, validate_order) is None <==> {
                &&& names_project(name)
                &&& version::parse_version(version) is Some
                &&& (build matches Some((digits, _)) ==> digits.len() > 0 && text::number(digits)
                    <= u64::MAX)
                &&& good_parts(interpreters, validate_order)
                &&& good_parts(abis, validate_order)
                &&& good_parts(platforms, validate_order)
            }
            &&& p[0] == name
            &&& p[1] == version
            &&& filenames::has_build(filenames::without_end(file, 4), b) <==> is_build_of(b, build)
            &&& tags::stands_for(filenames::tag_part(filenames::without_end(file, 4)), t)
                <==> takes_one_of_each(t, interpreters, abis, platforms)
        }),
{
    reveal_strlit(".whl");
    let whole = match build {
        Some((digits, rest)) => Some(digits + rest),
        None => None,
    };
    let parts = wheel_pieces(name, version, whole, interpreters, abis, platforms);
    let stem = text::join(parts, seq!['-']);
    let file = stem + ".whl"@;
    let none = Seq::<char>::empty();
    lemma_dotted(interpreters, none, false);
    lemma_dotted(abis, none, false);
    lemma_dotted(platforms, none, false);
    if let Some((digits, rest)) = build {
        lemma_build(digits, rest);
        if digits.contains('-') {
            let i = choose|i: int| 0 <= i < digits.len() && digits[i] == '-';
            assert('0' <= digits[i] <= '9');
        }
        lemma_without_add(digits, rest, '-');
    }
    assert forall|i: int| 0 <= i < parts.len() implies !(#[trigger] parts[i]).contains('-') by {}
    lemma_pieces(parts);
    assert(seq!['-'] =~= tags::dash());
    assert(file.skip(file.len() - 4) =~= ".whl"@);
    assert(filenames::without_end(file, 4) =~= stem);
    lemma_names_project(name);
    let cs = seq![interpreters, abis, platforms];
    let texts = cs.map_values(|l: Seq<Seq<char>>| dotted(l));
    assert(parts.skip(parts.len() - 3) =~= texts);
    let tag = dashed(cs);
    assert(filenames::tag_part(stem) == tag);
    let n = if !good_parts(interpreters, validate_order) {
        0int
    } else if !good_parts(abis, validate_order) {
        1int
    } else if !good_parts(platforms, validate_order) {
        2int
    } else {
        3int
    };
    law_tag_error(cs, validate_order, n);
    law_tag_product(interpreters, abis, platforms, t);
}

/// A build of a number and what follows it, perhaps nothing, says that number.
pub proof fn law_wheel_build(
    name: Seq<char>,
    v: VersionSpec,
    n: nat,
    rest: Seq<char>,
    interpreters: Seq<Seq<char>>,
    abis: Seq<Seq<char>>,
    platforms: Seq<Seq<char>>,
    b: BuildTag,
)
    requires
        names_project(name),
        version_laws::sound(v),
        n <= u64::MAX,
        rest.len() > 0 ==> !('0' <= rest[0] <= '9'),
        !rest.contains('-'),
        are_parts(interpreters) && !some_empty(interpreters),
        are_parts(abis) && !some_empty(abis),
        are_parts(platforms) && !some_empty(platforms),
    ensures
        ({
            let whole = Some(text::decimal(n) + rest);
            let t = canonical::render(v);
            let pieces = wheel_pieces(name, t, whole, interpreters, abis, platforms);
            let file = text::join(pieces, seq!['-']) + ".whl"@;
            &&& filenames::wheel_error(file, false) is None
            &&& filenames::has_build(filenames::without_end(file, 4), b) <==> (b matches Some((k, u))
                && k == n && u@ == rest)
        }),
{
    let d = text::decimal(n);
    let t = canonical::render(v);
    text::lemma_decimal(n);
    version_laws::lemma_sound(v);
    law_no_dash(v);
    version_laws::law_reads_back(v);
    assert forall|i: int| 0 <= i < d.len() implies '0' <= #[trigger] d[i] <= '9' by {
        assert(text::in_class(Class::Digit, d[i]));
    }
    assert(text::is_ascii(name)) by {
        assert forall|i: int| 0 <= i < name.len() implies (#[trigger] name[i] as u32) < 128 by {}
    }
    if name.contains('-') {
        let i = choose|i: int| 0 <= i < name.len() && name[i] == '-';
        assert(name[i] == '-');
    }
    law_wheel_name(
        name,
        t,
        Some((d, rest)),
        interpreters,
        abis,
        platforms,
        false,
        b,
        TagSpec { interpreter: rest, abi: rest, platform: rest },
    );
}

/// A wheel has five or six pieces, and its name ends in `.whl`.
pub proof fn law_no_wheel(pieces: Seq<Seq<char>>, file: Seq<char>, validate_order: bool)
    requires
        pieces.len() > 0,
        forall|i: int| 0 <= i < pieces.len() ==> !(#[trigger] pieces[i]).contains('-'),
    ensures
        pieces.len() != 5 && pieces.len() != 6 ==> filenames::wheel_error(
            text::join(pieces, seq!['-']) + ".whl"@,
            validate_order,
        ) is Some,
        !(exists|stem: Seq<char>| #[trigger] (stem + ".whl"@) == file) ==> filenames::wheel_error(
            file,
            validate_order,
        ) is Some,
{
    reveal_strlit(".whl");
    lemma_pieces(pieces);
    assert(seq!['-'] =~= tags::dash());
    let stem = text::join(pieces, seq!['-']);
    let whole = stem + ".whl"@;
    assert(filenames::without_end(whole, 4) =~= stem);
    if text::ends_with(file, ".whl"@) {
        let s = file.take(file.len() - 4);
        assert(s + ".whl"@ =~= file);
    }
}

// --- Source archives. ---

/// What the name of a source archive says, and when it is one: what stands before the last dash
/// is the project and what stands behind it is a version.
pub proof fn law_sdist_name(name: Seq<char>, version: Seq<char>, zip: bool)
    requires
        !version.contains('-'),
    ensures
        ({
            let file = name + "-"@ + version + (if zip {
                ".zip"@
            } else {
                ".tar.gz"@
            });
            match version::parse_version(version) {
                Some(v) => filenames::read_sdist(file) == Ok::<(Seq<char>, VersionSpec), Seq<char>>(
                    (names::canonical_name(name), v),
                ),
                None => filenames::read_sdist(file) is Err,
            }
        }),
{
    let stem = name + "-"@ + version;
    lemma_sdist_stem(stem, zip);
    reveal_strlit("-");
    assert(stem =~= name.push('-') + version);
    text::lemma_last_of(name, '-', version);
    assert(text::head(stem, name.len()) =~= name);
    assert(text::after(stem, name.len() + 1) =~= version);
}

proof fn lemma_sdist_stem(stem: Seq<char>, zip: bool)
    ensures
        filenames::sdist_stem(
            stem + (if zip {
                ".zip"@
            } else {
                ".tar.gz"@
            }),
        ) == Some(stem),
{
    reveal_strlit(".zip");
    reveal_strlit(".tar.gz");
    let file = stem + (if zip {
        ".zip"@
    } else {
        ".tar.gz"@
    });
    if zip {
        assert(file.skip(file.len() - 4) =~= ".zip"@);
        if text::ends_with(file, ".tar.gz"@) {
            assert(file.skip(file.len() - 7)[6] == 'z');
            assert(file.last() == 'p');
        }
        assert(filenames::without_end(file, 4) =~= stem);
    } else {
        assert(file.skip(file.len() - 7) =~= ".tar.gz"@);
        assert(filenames::without_end(file, 7) =~= stem);
    }
}

/// Without a dash, or without one of the two extensions, a text is no name of a source archive.
pub proof fn law_no_sdist(stem: Seq<char>, zip: bool, file: Seq<char>)
    requires
        !stem.contains('-'),
    ensures
        filenames::read_sdist(
            stem + (if zip {
                ".zip"@
            } else {
                ".tar.gz"@
            }),
        ) is Err,
        !(exists|s: Seq<char>| #[trigger] (s + ".zip"@) == file) && !(exists|s: Seq<char>| #[trigger]
            (s + ".tar.gz"@) == file) ==> filenames::read_sdist(file) is Err,
{
    lemma_sdist_stem(stem, zip);
    text::lemma_last_of_none(stem, '-');
    reveal_strlit(".zip");
    reveal_strlit(".tar.gz");
    if text::ends_with(file, ".zip"@) {
        let s = file.take(file.len() - 4);
        assert(s + ".zip"@ =~= file);
    }
    if text::ends_with(file, ".tar.gz"@) {
        let s = file.take(file.len() - 7);
        assert(s + ".tar.gz"@ =~= file);
    }
}

} // verus!
