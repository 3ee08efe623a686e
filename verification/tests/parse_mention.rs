use text_parts::parse_mention::{mention, name, user_id};
use text_parts::types::Mention;

#[test]
fn test_mention() {
    assert_eq!(
        mention("@[helloworld](0)"),
        Some(("", Mention { user_id: 0_u32, name: "helloworld".to_string() }))
    );
}

#[test]
fn test_user_id() {
    assert_eq!(user_id("(42)"), Some(("", 42_u32)));
}

#[test]
fn test_name() {
    assert_eq!(name("[example](123)"), Some(("(123)", "example".to_string())));
}

#[test]
fn mention_leaves_the_rest() {
    assert_eq!(
        mention("@[a b](7) and more"),
        Some((" and more", Mention { user_id: 7, name: "a b".to_string() }))
    );
}

#[test]
fn mention_with_empty_name_is_read() {
    assert_eq!(mention("@[](1)"), Some(("", Mention { user_id: 1, name: String::new() })));
    assert_eq!(name("[]"), Some(("", String::new())));
}

#[test]
fn user_id_must_fit_in_32_bits() {
    assert_eq!(user_id("(4294967295)"), Some(("", 4294967295)));
    assert_eq!(user_id("(4294967296)"), None);
    assert_eq!(user_id("(99999999999999999999)"), None);
    assert_eq!(user_id("(0000000000000000000012)"), Some(("", 12)));
    assert_eq!(mention("@[a](4294967296)"), None);
}

#[test]
fn user_id_must_be_digits_only() {
    assert_eq!(user_id("()"), None);
    assert_eq!(user_id("(+5)"), None);
    assert_eq!(user_id("(-5)"), None);
    assert_eq!(user_id("(1a)"), None);
    assert_eq!(user_id("(a1)"), None);
    assert_eq!(user_id("( 1)"), None);
    assert_eq!(user_id("(12"), None);
    assert_eq!(user_id("12)"), None);
    assert_eq!(mention("@[a](b)"), None);
}

#[test]
fn mention_needs_all_its_brackets() {
    assert_eq!(mention("[a](1)"), None);
    assert_eq!(mention("@a](1)"), None);
    assert_eq!(mention("@[a(1)"), None);
    assert_eq!(mention("@[a] (1)"), None);
    assert_eq!(mention("@[a]1)"), None);
    assert_eq!(mention("@"), None);
    assert_eq!(mention(""), None);
}

#[test]
fn name_ends_at_the_first_closing_bracket() {
    assert_eq!(name("[a]b](1)"), Some(("b](1)", "a".to_string())));
    assert_eq!(name("[[a](1)"), Some(("(1)", "[a".to_string())));
    assert_eq!(name("[é]"), Some(("", "é".to_string())));
}
