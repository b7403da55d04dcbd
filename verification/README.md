# pyreq

Versions, version specifiers, environment markers and requirements of Python packages, as a
library whose behaviour is stated in contracts and proved by Verus.

- `Version`: parsing, canonical text, total order, construction from parts.
- `Specifier` and `SpecifierSet`: `~= == != <= >= < > ===`, patterns such as `==1.0.*`,
  `contains`, `filter` and the rules for pre-releases.
- `Marker`: parsing, canonical text, and evaluation for an environment that the caller gives.
- `Requirement`: a name, extras, version specifiers or an address, and a marker.
- Names (`canonicalize_name`, `is_normalized_name`), tags (`Tag`, `parse_tag`) and the names of
  wheels and source archives.

Numbers in versions are 64 bits wide; a text with a larger number is not a version.

## Layout

- `src/text.rs`, `src/order.rs`: texts and comparisons, as mathematics. `src/chars.rs` and
  `src/scan.rs` hold their executable forms. `src/text_set.rs` holds lists of texts as sets.
- `src/grammar.rs`, `src/clause.rs`, `src/marker_grammar.rs`, `src/requirement_grammar.rs`: what
  a text means, or what is wrong with it and where. `src/tokenizer.rs` reads the tokens.
- `src/canonical.rs`, `src/ranking.rs`, `src/matching.rs`, `src/evaluation.rs`: how versions are
  written and compared, which versions a specifier admits, and what a marker says of an
  environment.
- `src/version.rs`, `src/specifiers.rs`, `src/specifier_set.rs`, `src/markers.rs`,
  `src/requirements.rs`, `src/names.rs`, `src/tags.rs`, `src/filenames.rs`: the types and
  functions that callers use.
- `src/spellings.rs`, `src/patterns.rs`, `src/specifier_laws.rs`, `src/marker_text.rs`,
  `src/marker_laws.rs`, `src/stops.rs`, `src/requirement_laws.rs`, `src/file_laws.rs`: laws, such
  as that the text of a requirement is read back as an equal requirement.
- `src/outside.rs`: everything that is taken on trust from `regex` and from the standard library.
- `src/protocol.rs`: commands in lines, answered by `app/main.rs` over standard input and output.
