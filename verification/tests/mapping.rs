//! Names for spec nodes.

use btt::mapping::{Case, NameRule};

fn rule(strip: Option<&str>, add: Option<&str>, case: Case) -> NameRule {
    NameRule {
        strip_prefix: strip.map(String::from),
        add_prefix: add.map(String::from),
        case,
    }
}

#[test]
fn joins_words_with_underscores() {
    let rule = NameRule { case: Case::Snake, ..Default::default() };
    assert_eq!(rule.apply("when the key is present"), "when_the_key_is_present");
}

#[test]
fn drops_punctuation() {
    let rule = NameRule { case: Case::Snake, ..Default::default() };
    assert_eq!(rule.apply("it returns `None`, always"), "it_returns_none_always");
}

#[test]
fn removes_it_case_insensitively() {
    let rule = rule(Some("it "), None, Case::Snake);
    assert_eq!(rule.apply("It returns none"), "returns_none");
}

#[test]
fn leaves_other_text_untouched() {
    let rule = rule(Some("it "), None, Case::Verbatim);
    assert_eq!(rule.apply("when iterating"), "when iterating");
}

#[test]
fn capitalizes_each_word() {
    let rule = rule(Some("when "), Some("test_When"), Case::Pascal);
    assert_eq!(rule.apply("when the caller is the owner"), "test_WhenTheCallerIsTheOwner");
}

#[test]
fn keeps_the_first_camel_word_in_lower_case() {
    assert_eq!(rule(Some("it "), None, Case::Camel).apply("it Returns None"), "returnsNone");
}

#[test]
fn puts_an_underscore_before_a_leading_digit() {
    assert_eq!(rule(Some("when "), None, Case::Snake).apply("when 2 keys"), "_2_keys");
    assert_eq!(rule(Some("when "), None, Case::Verbatim).apply("when 2 keys"), "2 keys");
}

#[test]
fn folds_the_case_of_other_alphabets() {
    assert_eq!(rule(None, None, Case::Snake).apply("ÉTAT Öl"), "état_öl");
    assert_eq!(rule(None, None, Case::Pascal).apply("état öl"), "ÉtatÖl");
}

#[test]
fn leaves_no_white_space_around_a_name() {
    for text in ["it  ", "  it works ", "\tit\u{2028}works"] {
        let name = rule(Some("it "), None, Case::Verbatim).apply(text);
        assert_eq!(name, name.trim());
    }
}
