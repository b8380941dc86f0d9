use isomfolio_core::text::char_is_whitespace;
use isomfolio_core::fileops::{numbered_name, sanitize_component};
use isomfolio_core::search::{fts_plan, sanitize_fts_query};

#[test]
fn replaces_separators_and_illegal_chars() {
    assert_eq!(sanitize_component("2024/Best: \"picks\""), "2024-Best- -picks-");
}

#[test]
fn falls_back_for_empty_or_dots() {
    assert_eq!(sanitize_component("   "), "Untitled");
    assert_eq!(sanitize_component("..."), "Untitled");
}

#[test]
fn keeps_ordinary_names() {
    assert_eq!(sanitize_component("Wedding 2024"), "Wedding 2024");
}

#[test]
fn sanitized_names_hold_no_forbidden_characters() {
    for raw in ["a<b>c", "x\\y|z?", "tab\there", "  .hidden.  ", "*"] {
        let s = sanitize_component(raw);
        assert!(!s.is_empty());
        assert!(!s.chars().any(|c| "/\\:*?\"<>|".contains(c) || c.is_control()), "{s}");
    }
}

#[test]
fn sanitize_appends_wildcard() {
    assert_eq!(sanitize_fts_query("hello"), "hello*");
}

#[test]
fn sanitize_no_wildcard_trailing_space() {
    assert_eq!(sanitize_fts_query("hello "), "hello");
}

#[test]
fn sanitize_strips_specials() {
    assert_eq!(sanitize_fts_query("hello*world"), "hello world*");
}

#[test]
fn blank_query_has_no_plan_expression() {
    let plan = fts_plan("   ");
    assert!(plan.expression.is_none());
}

#[test]
fn numbered_names_put_the_suffix_before_the_extension() {
    assert_eq!(numbered_name("photo", Some("jpg"), 1), "photo (1).jpg");
    assert_eq!(numbered_name("photo", Some("jpg"), 12), "photo (12).jpg");
    assert_eq!(numbered_name("README", None, 2), "README (2)");
    assert_eq!(numbered_name("", Some("tar"), 3), " (3).tar");
}

#[test]
fn only_unicode_white_space_counts_as_blank() {
    for c in [' ', '\t', '\n', '\r', '\u{0B}', '\u{0C}', '\u{85}', '\u{A0}', '\u{2003}', '\u{3000}'] {
        assert!(char_is_whitespace(c));
    }
    for c in ['w', '0', '_', '\u{200B}', '\u{FEFF}'] {
        assert!(!char_is_whitespace(c));
    }
}

#[test]
fn white_space_agrees_with_std_for_every_char() {
    for u in 0u32..0x110000 {
        if let Some(c) = char::from_u32(u) {
            assert_eq!(char_is_whitespace(c), c.is_whitespace(), "U+{u:04X}");
        }
    }
}
