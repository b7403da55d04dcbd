//! The names of wheels and of source archives.

use vstd::prelude::*;

use crate::chars;
use crate::grammar::VersionSpec;
use crate::names;
use crate::outside;
use crate::tags::{self, Tag, TagFailure, TagParseError, TagSpec};
use crate::text::{self, Class};
use crate::version::{self, Version};

verus! {

/// The error of a text that is not the name of a wheel. Holds what is wrong.
#[derive(Debug, Clone, PartialEq, Eq)]
pub struct InvalidWheelFilename(pub String);

impl InvalidWheelFilename {
    /// The message of this error.
    pub fn to_string(&self) -> (r: String)
        ensures
            r@ == self.0@,
    {
        chars::copy(&self.0)
    }
}

/// The error of a text that is not the name of a source archive. Holds what is wrong.
#[derive(Debug, Clone, PartialEq, Eq)]
pub struct InvalidSdistFilename(pub String);

impl InvalidSdistFilename {
    /// The message of this error.
    pub fn to_string(&self) -> (r: String)
        ensures
            r@ == self.0@,
    {
        chars::copy(&self.0)
    }
}

/// The build of a wheel: a number and what follows it. `None` where there is no build.
pub type BuildTag = Option<(u64, String)>;

/// What the name of a wheel says: the normalized name of the project, the version, the build
/// and the tags, each once.
pub type WheelFilename = (String, Version, BuildTag, Vec<Tag>);

// --- Wheels. ---

/// A name without what it ends with.
pub open spec fn without_end(s: Seq<char>, n: nat) -> Seq<char> {
    s.take(s.len() - n)
}

/// The pieces of the name of a wheel, with dashes between them.
pub open spec fn pieces(stem: Seq<char>) -> Seq<Seq<char>> {
    text::split(stem, tags::dash())
}

/// Whether a character can stand in the name of a project within the name of a wheel.
pub open spec fn is_wheel_char(c: char) -> bool {
    outside::is_word(c) || c == '.' || c == '_'
}

/// Whether a text can be the name of a project within the name of a wheel.
pub open spec fn is_wheel_name(s: Seq<char>) -> bool {
    &&& !text::contains_text(s, "__"@)
    &&& forall|i: int| 0 <= i < s.len() ==> is_wheel_char(#[trigger] s[i])
}

/// The digits that a build begins with.
pub open spec fn build_digits(build: Seq<char>) -> Seq<char> {
    text::head(build, text::run(Class::Digit, build))
}

/// Whether a text can be a build: it begins with a number that fits the machine.
pub open spec fn is_build(build: Seq<char>) -> bool {
    build_digits(build).len() > 0 && version::small(text::number(build_digits(build)))
}

/// The tags of a wheel: the last three pieces.
pub open spec fn tag_part(stem: Seq<char>) -> Seq<char> {
    text::join(pieces(stem).skip(pieces(stem).len() - 3), tags::dash())
}

/// What is wrong with the name of a wheel.
pub open spec fn wheel_error(filename: Seq<char>, validate_order: bool) -> Option<Seq<char>> {
    let stem = without_end(filename, 4);
    let p = pieces(stem);
    if !text::ends_with(filename, ".whl"@) {
        Some(
            "Invalid wheel filename (extension must be '.whl'): "@ + outside::quoted(filename),
        )
    } else if p.len() != 5 && p.len() != 6 {
        Some("Invalid wheel filename (wrong number of parts): "@ + outside::quoted(stem))
    } else if !is_wheel_name(p[0]) {
        Some("Invalid project name: "@ + outside::quoted(stem))
    } else if version::parse_version(p[1]) is None {
        Some("Invalid wheel filename (invalid version): "@ + outside::quoted(stem))
    } else if p.len() == 6 && !is_build(p[2]) {
        Some("Invalid build number: "@ + p[2] + " in "@ + outside::quoted(stem))
    } else {
        match tags::tag_error(tag_part(stem), validate_order) {
            Some(TagFailure::Unsorted(_)) => Some(
                "Invalid wheel filename (compressed tag set components must be in sorted order per PEP 425): "@
                    + outside::quoted(stem),
            ),
            Some(TagFailure::Invalid(_)) => Some(
                "Invalid wheel filename (empty tag component): "@ + outside::quoted(stem),
            ),
            None => None,
        }
    }
}

/// Whether the name of a wheel has this build.
pub open spec fn has_build(stem: Seq<char>, build: BuildTag) -> bool {
    let p = pieces(stem);
    match build {
        Some((n, rest)) => p.len() == 6 && n == text::number(build_digits(p[2])) && rest@
            == text::after(p[2], build_digits(p[2]).len()),
        None => p.len() == 5,
    }
}

/// Whether a text can be the name of a project within the name of a wheel.
fn check_wheel_name(s: &[char]) -> (r: bool)
    ensures
        r == is_wheel_name(s@),
{
    if chars::contains_text(s, &chars::chars_of("__")) {
        return false;
    }
    let mut i: usize = 0;
    while i < s.len()
        invariant
            i <= s@.len(),
            forall|j: int| 0 <= j < i ==> is_wheel_char(#[trigger] s@[j]),
        decreases s@.len() - i,
    {
        if !outside::is_word_char(s[i]) && s[i] != '.' && s[i] != '_' {
            assert(!is_wheel_char(s@[i as int]));
            return false;
        }
        i += 1;
    }
    true
}

/// Reads a build.
fn read_build(s: &[char]) -> (r: Option<(u64, String)>)
    ensures
        match r {
            Some((n, rest)) => is_build(s@) && n == text::number(build_digits(s@)) && rest@
                == text::after(s@, build_digits(s@).len()),
            None => !is_build(s@),
        },
{
    let k: usize = chars::run(&Class::Digit, s);
    if k == 0 {
        return None;
    }
    proof {
        text::lemma_run_all(Class::Digit, s@);
    }
    match chars::number(chars::take(s, k)) {
        Some(n) => Some((n, chars::string_of(chars::skip(s, k)))),
        None => None,
    }
}

/// A message with a text between quotes behind it.
fn message(head: &str, t: &str) -> (r: String)
    ensures
        r@ == head@ + outside::quoted(t@),
{
    let mut out = chars::copy(head);
    out.push_str(&outside::quote(t));
    out
}

/// The last three of some pieces, with dashes between them.
fn join_last(p: &Vec<&[char]>) -> (r: String)
    requires
        p@.len() >= 3,
    ensures
        r@ == text::join(chars::views(p@).skip(p@.len() - 3), tags::dash()),
{
    let n: usize = p.len();
    let mut out = chars::string_of(p[n - 3]);
    out.push('-');
    chars::push_chars(&mut out, p[n - 2]);
    out.push('-');
    chars::push_chars(&mut out, p[n - 1]);
    proof {
        let l = chars::views(p@).skip(p@.len() - 3);
        assert(l.len() == 3);
        assert(l[0] == p@[n - 3]@ && l[1] == p@[n - 2]@ && l[2] == p@[n - 1]@);
        let m = l.skip(1);
        assert(m.skip(1) =~= seq![l[2]]);
        assert(text::join(m.skip(1), tags::dash()) == l[2]);
        assert(text::join(m, tags::dash()) == l[1] + tags::dash() + l[2]);
        assert(text::join(l, tags::dash()) == l[0] + tags::dash() + text::join(m, tags::dash()));
        assert(out@ =~= text::join(l, tags::dash()));
    }
    out
}

/// Reads the name of a wheel: project, version, perhaps a build, and the three components of a
/// tag, with dashes between them. With `validate_order` the parts of the components have to be
/// in order.
pub fn parse_wheel_filename(filename: &str, validate_order: bool) -> (r: Result<
    WheelFilename,
    InvalidWheelFilename,
>)
    ensures
        match r {
            Ok((name, v, build, l)) => {
                let stem = without_end(filename@, 4);
                &&& wheel_error(filename@, validate_order) is None
                &&& name@ == names::canonical_name(pieces(stem)[0])
                &&& version::parse_version(pieces(stem)[1]) == Some(v@)
                &&& has_build(stem, build)
                &&& tags::tag_views(l@).no_duplicates()
                &&& forall|t: TagSpec| #[trigger]
                    tags::tag_views(l@).contains(t) <==> tags::stands_for(tag_part(stem), t)
            },
            Err(e) => wheel_error(filename@, validate_order) == Some(e.0@),
        },
{
    let cs = chars::chars_of(filename);
    if !chars::ends_with(&cs, ".whl") {
        return Err(
            InvalidWheelFilename(
                message("Invalid wheel filename (extension must be '.whl'): ", filename),
            ),
        );
    }
    proof {
        reveal_strlit(".whl");
    }
    let body = chars::take(&cs, cs.len() - 4);
    let stem = chars::string_of(body);
    assert(stem@ =~= without_end(filename@, 4));
    let marks = ['-'];
    assert(marks@ =~= tags::dash());
    let p = chars::split(body, &marks);
    let ghost all = pieces(stem@);
    assert(chars::views(p@) == all);
    if p.len() != 5 && p.len() != 6 {
        return Err(
            InvalidWheelFilename(
                message("Invalid wheel filename (wrong number of parts): ", &stem),
            ),
        );
    }
    assert(all[0] == p@[0]@ && all[1] == p@[1]@ && all[2] == p@[2]@);
    if !check_wheel_name(p[0]) {
        return Err(InvalidWheelFilename(message("Invalid project name: ", &stem)));
    }
    let name = names::canonicalize_name(&chars::string_of(p[0]));
    let version = match Version::parse(&chars::string_of(p[1])) {
        Ok(v) => v,
        Err(_) => return Err(
            InvalidWheelFilename(message("Invalid wheel filename (invalid version): ", &stem)),
        ),
    };
    let build: BuildTag = if p.len() == 6 {
        match read_build(p[2]) {
            Some(b) => Some(b),
            None => {
                let mut m = chars::copy("Invalid build number: ");
                chars::push_chars(&mut m, p[2]);
                m.push_str(" in ");
                m.push_str(&outside::quote(&stem));
                return Err(InvalidWheelFilename(m));
            },
        }
    } else {
        None
    };
    match tags::parse_tag(&join_last(&p), validate_order) {
        Ok(l) => Ok((name, version, build, l)),
        Err(TagParseError::Unsorted(_)) => Err(
            InvalidWheelFilename(
                message(
                    "Invalid wheel filename (compressed tag set components must be in sorted order per PEP 425): ",
                    &stem,
                ),
            ),
        ),
        Err(TagParseError::Invalid(_)) => Err(
            InvalidWheelFilename(message("Invalid wheel filename (empty tag component): ", &stem)),
        ),
    }
}

// --- Source archives. ---

/// The name of a source archive without its extension, if it has one.
pub open spec fn sdist_stem(filename: Seq<char>) -> Option<Seq<char>> {
    if text::ends_with(filename, ".tar.gz"@) {
        Some(without_end(filename, 7))
    } else if text::ends_with(filename, ".zip"@) {
        Some(without_end(filename, 4))
    } else {
        None
    }
}

/// What the name of a source archive says: the normalized name of the project and the version,
/// with the last dash between them. An error where it says none.
pub open spec fn read_sdist(filename: Seq<char>) -> Result<
    (Seq<char>, VersionSpec),
    Seq<char>,
> {
    match sdist_stem(filename) {
        None => Err(
            "Invalid sdist filename (extension must be '.tar.gz' or '.zip'): "@ + outside::quoted(
                filename,
            ),
        ),
        Some(stem) => match text::last_of(stem, '-') {
            None => Err("Invalid sdist filename: "@ + outside::quoted(filename)),
            Some(n) => match version::parse_version(text::after(stem, n + 1)) {
                None => Err(
                    "Invalid sdist filename (invalid version): "@ + outside::quoted(filename),
                ),
                Some(v) => Ok((names::canonical_name(text::head(stem, n)), v)),
            },
        },
    }
}

/// Reads the name of a source archive.
pub fn parse_sdist_filename(filename: &str) -> (r: Result<(String, Version), InvalidSdistFilename>)
    ensures
        match r {
            Ok((name, v)) => read_sdist(filename@) == Ok::<
                (Seq<char>, VersionSpec),
                Seq<char>,
            >((name@, v@)),
            Err(e) => read_sdist(filename@) == Err::<
                (Seq<char>, VersionSpec),
                Seq<char>,
            >(e.0@),
        },
{
    let cs = chars::chars_of(filename);
    proof {
        reveal_strlit(".tar.gz");
        reveal_strlit(".zip");
    }
    let stem = if chars::ends_with(&cs, ".tar.gz") {
        chars::take(&cs, cs.len() - 7)
    } else if chars::ends_with(&cs, ".zip") {
        chars::take(&cs, cs.len() - 4)
    } else {
        return Err(
            InvalidSdistFilename(
                message(
                    "Invalid sdist filename (extension must be '.tar.gz' or '.zip'): ",
                    filename,
                ),
            ),
        );
    };
    assert(stem.len() == stem@.len());
    let n: usize = match chars::last_of(stem, '-') {
        Some(n) => n,
        None => return Err(InvalidSdistFilename(message("Invalid sdist filename: ", filename))),
    };
    let name = names::canonicalize_name(&chars::string_of(chars::take(stem, n)));
    match Version::parse(&chars::string_of(chars::skip(stem, n + 1))) {
        Ok(v) => Ok((name, v)),
        Err(_) => Err(
            InvalidSdistFilename(message("Invalid sdist filename (invalid version): ", filename)),
        ),
    }
}

} // verus!
