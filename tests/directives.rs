use ssg::directive::{extract, parse_i64, parse_tags, DirectiveError, Metadata};

fn meta(raw: &str) -> Metadata {
    match extract(raw, "fallback", 11, 22) {
        Ok(m) => m,
        Err(_) => panic!("directives should parse"),
    }
}

#[test]
fn second_title_wins() {
    let m = meta("ssg-title: First\nsome text\nssg-title: Second\n");
    assert_eq!(m.title, "Second");
}

#[test]
fn created_at_sets_both_timestamps() {
    let m = meta("ssg-created-at: 1000\n");
    assert_eq!(m.created_at, 1000);
    assert_eq!(m.modified_at, 1000);
}

#[test]
fn later_modified_at_overrides_only_modified() {
    let m = meta("ssg-created-at: 1000\nssg-modified-at: 2000\n");
    assert_eq!(m.created_at, 1000);
    assert_eq!(m.modified_at, 2000);
}

#[test]
fn earlier_modified_at_is_reset_by_created_at() {
    let m = meta("ssg-modified-at: 2000\nssg-created-at: 1000\n");
    assert_eq!(m.created_at, 1000);
    assert_eq!(m.modified_at, 1000);
}

#[test]
fn tags_are_split_in_order() {
    assert_eq!(parse_tags("#a, #b,#c"), vec!["a", "b", "c"]);
}

#[test]
fn tags_with_spaces_are_trimmed() {
    assert_eq!(parse_tags("#tag-one, #tag two, #tag-three"), vec!["tag-one", "tag two", "tag-three"]);
    assert_eq!(parse_tags("#a #b"), vec!["a", "b"]);
}

#[test]
fn tags_need_text_after_the_hash() {
    assert_eq!(parse_tags("#,#x##y"), vec!["x", "y"]);
    assert!(parse_tags("no tags here").is_empty());
}

#[test]
fn no_tags_directive_gives_no_tags() {
    let m = meta("just text\n");
    assert!(m.tags.is_empty());
}

#[test]
fn tags_directive_replaces_earlier_list() {
    let m = meta("ssg-tags: #a, #b\nssg-tags: #c\n");
    assert_eq!(m.tags, vec!["c"]);
}

#[test]
fn fallbacks_apply_without_directives() {
    let m = meta("# Heading\n\nBody.\n");
    assert_eq!(m.title, "fallback");
    assert_eq!(m.created_at, 11);
    assert_eq!(m.modified_at, 22);
    assert!(m.tags.is_empty());
}

#[test]
fn values_are_trimmed() {
    let m = meta("ssg-title:    Spaced out   \r\nssg-created-at:  42  \n");
    assert_eq!(m.title, "Spaced out");
    assert_eq!(m.created_at, 42);
}

#[test]
fn directive_may_stand_inside_a_line() {
    let m = meta("<!-- ssg-title: Hidden -->\n");
    assert_eq!(m.title, "Hidden -->");
}

#[test]
fn colon_without_value_is_no_directive() {
    let m = meta("ssg-title:\nssg-tags:\n");
    assert_eq!(m.title, "fallback");
    assert!(m.tags.is_empty());
}

#[test]
fn unknown_keys_are_ignored() {
    let m = meta("ssg-author: someone\nssg-title: Known\n");
    assert_eq!(m.title, "Known");
}

#[test]
fn negative_and_signed_timestamps_parse() {
    let m = meta("ssg-created-at: -5\nssg-modified-at: +7\n");
    assert_eq!(m.created_at, -5);
    assert_eq!(m.modified_at, 7);
}

#[test]
fn invalid_timestamp_is_an_error() {
    match extract("ssg-created-at: yesterday\n", "t", 0, 0) {
        Err(DirectiveError::InvalidTimestamp(v)) => assert_eq!(v, "yesterday"),
        Ok(_) => panic!("expected an error"),
    }
}

#[test]
fn overflowing_timestamp_is_an_error() {
    assert!(extract("ssg-modified-at: 9223372036854775808\n", "t", 0, 0).is_err());
    assert!(extract("ssg-modified-at: 9223372036854775807\n", "t", 0, 0).is_ok());
}

#[test]
fn empty_document_keeps_fallbacks() {
    let m = meta("");
    assert_eq!(m.title, "fallback");
    assert_eq!(m.modified_at, 22);
}

#[test]
fn integers_parse_like_std() {
    assert_eq!(parse_i64("0"), Some(0));
    assert_eq!(parse_i64("1000"), Some(1000));
    assert_eq!(parse_i64("+12"), Some(12));
    assert_eq!(parse_i64("-9223372036854775808"), Some(i64::MIN));
    assert_eq!(parse_i64("9223372036854775807"), Some(i64::MAX));
    assert_eq!(parse_i64("9223372036854775808"), None);
    assert_eq!(parse_i64("-9223372036854775809"), None);
    assert_eq!(parse_i64("99999999999999999999999"), None);
    assert_eq!(parse_i64(""), None);
    assert_eq!(parse_i64("-"), None);
    assert_eq!(parse_i64("+"), None);
    assert_eq!(parse_i64("12a"), None);
    assert_eq!(parse_i64(" 12"), None);
    assert_eq!(parse_i64("--1"), None);
}
