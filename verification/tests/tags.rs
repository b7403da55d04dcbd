use pyreq::{parse_tag, Tag, TagParseError};

#[test]
fn single_tag() {
    let tags = parse_tag("py3-none-any", false).unwrap();
    assert_eq!(tags.len(), 1);
    assert!(tags.contains(&Tag::new("py3", "none", "any")));
}

#[test]
fn compressed_set_expands() {
    let tags = parse_tag("py2.py3-none-any", false).unwrap();
    assert_eq!(tags.len(), 2);
    assert!(tags.contains(&Tag::new("py2", "none", "any")));
    assert!(tags.contains(&Tag::new("py3", "none", "any")));
}

#[test]
fn cartesian_product() {
    let tags = parse_tag("cp39.cp310-abi3.none-linux_x86_64", false).unwrap();
    assert_eq!(tags.len(), 4);
}

#[test]
fn lowercases_components() {
    let tags = parse_tag("CP39-ABI3-Linux_X86_64", false).unwrap();
    assert!(tags.contains(&Tag::new("cp39", "abi3", "linux_x86_64")));
    assert_eq!(Tag::new("CP39", "abi3", "any").to_string(), "cp39-abi3-any");
}

#[test]
fn empty_component_is_invalid() {
    assert!(matches!(
        parse_tag("py3--any", false),
        Err(TagParseError::Invalid(_))
    ));
    assert!(matches!(
        parse_tag("py3.-none-any", false),
        Err(TagParseError::Invalid(_))
    ));
}

#[test]
fn wrong_component_count_is_invalid() {
    assert!(matches!(
        parse_tag("py3-none", false),
        Err(TagParseError::Invalid(_))
    ));
    assert!(matches!(
        parse_tag("py3-none-any-extra", false),
        Err(TagParseError::Invalid(_))
    ));
}

#[test]
fn validate_order_rejects_unsorted() {
    assert!(parse_tag("py2.py3-none-any", true).is_ok());
    assert!(parse_tag("py3.py2-none-any", false).is_ok());
    assert!(matches!(
        parse_tag("py3.py2-none-any", true),
        Err(TagParseError::Unsorted(_))
    ));
}
