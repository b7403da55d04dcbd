//! Versions, version specifiers, environment markers and requirements of Python packages.
//!
//! The modules come in layers. Texts are sequences of characters; [`text`] and [`order`] hold
//! the operations that everything is stated with, [`chars`] their executable forms, and
//! [`text_set`] lists of texts as sets.
//! [`grammar`], [`clause`], [`marker_grammar`] and [`requirement_grammar`] say what a text
//! means, [`canonical`] how it is written back, [`ranking`] how versions compare, [`matching`]
//! which versions a specifier admits, and [`evaluation`] what a marker says of an environment.
//! The modules that end in `_laws` or `_texts`, and [`spellings`], [`patterns`] and [`stops`], hold
//! laws: what holds of all of this whatever the input is. The types that callers use are
//! re-exported here.

pub mod admission_laws;
pub mod canonical;
pub mod chars;
pub mod clause;
pub mod escape_laws;
pub mod evaluation;
pub mod evaluation_laws;
pub mod file_laws;
pub mod filenames;
pub mod grammar;
pub mod marker_grammar;
pub mod marker_laws;
pub mod marker_text;
pub mod markers;
pub mod matching;
pub mod names;
pub mod order;
pub mod order_laws;
pub mod outside;
pub mod patterns;
pub mod prerelease_laws;
pub mod protocol;
pub mod protocol_laws;
pub mod ranking;
pub mod requirement_grammar;
pub mod requirement_laws;
pub mod requirement_texts;
pub mod requirements;
pub mod scan;
pub mod specifier_laws;
pub mod specifier_set;
pub mod specifiers;
pub mod spellings;
pub mod stops;
pub mod tags;
pub mod text;
pub mod text_set;
pub mod token_laws;
pub mod tokenizer;
pub mod version;
pub mod version_laws;
pub mod version_texts;
pub mod writing_laws;

pub use filenames::{
    parse_sdist_filename, parse_wheel_filename, BuildTag, InvalidSdistFilename,
    InvalidWheelFilename, WheelFilename,
};
pub use grammar::PreLetter;
pub use markers::{EnvValue, EvaluateContext, InvalidMarker, Marker, MarkerError};
pub use matching::canonicalize_version;
pub use names::{canonicalize_name, is_normalized_name};
pub use requirements::{InvalidRequirement, Requirement};
pub use specifier_set::SpecifierSet;
pub use specifiers::{InvalidSpecifier, Specifier};
pub use tags::{parse_tag, InvalidTag, Tag, TagParseError, UnsortedTagsError};
pub use version::{parse, InvalidVersion, LocalSegment, Version, VersionParts};
