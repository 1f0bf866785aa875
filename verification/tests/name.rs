use nostdb_core::name::DeclarationName;
use nostdb_core::name::Label;
use nostdb_core::name::LinkAlias;
use nostdb_core::name::NameError;
use nostdb_core::name::PropertyKey;
use nostdb_core::name::RESERVED_WORDS;
use nostdb_core::name::RelationName;

#[test]
fn accepts_ascii_and_unicode_identifiers() {
    for candidate in [
        "Function",
        "login",
        "_private",
        "a1",
        "función",
        "модуль",
        "节点",
    ] {
        assert!(
            Label::new(candidate).is_ok(),
            "{candidate} should be a valid name"
        );
    }
}

#[test]
fn rejects_empty() {
    assert_eq!(Label::new(""), Err(NameError::Empty));
}

#[test]
fn rejects_a_digit_or_punctuation_start() {
    assert_eq!(
        Label::new("1abc"),
        Err(NameError::InvalidStart { found: '1' })
    );
    assert_eq!(
        Label::new("-abc"),
        Err(NameError::InvalidStart { found: '-' })
    );
    assert_eq!(
        Label::new(":abc"),
        Err(NameError::InvalidStart { found: ':' })
    );
}

#[test]
fn rejects_punctuation_and_whitespace_inside() {
    assert_eq!(
        Label::new("a-b"),
        Err(NameError::InvalidContinue { found: '-' })
    );
    assert_eq!(
        Label::new("a b"),
        Err(NameError::InvalidContinue { found: ' ' })
    );
    assert_eq!(
        Label::new("a.b"),
        Err(NameError::InvalidContinue { found: '.' })
    );
}

#[test]
fn rejects_every_reserved_word_in_every_name_position() {
    for reserved in RESERVED_WORDS {
        assert_eq!(Label::new(reserved), Err(NameError::Reserved), "{reserved}");
        assert_eq!(
            RelationName::new(reserved),
            Err(NameError::Reserved),
            "{reserved}"
        );
        assert_eq!(
            PropertyKey::new(reserved),
            Err(NameError::Reserved),
            "{reserved}"
        );
        assert_eq!(
            DeclarationName::new(reserved),
            Err(NameError::Reserved),
            "{reserved}"
        );
        assert_eq!(
            LinkAlias::new(reserved),
            Err(NameError::Reserved),
            "{reserved}"
        );
    }
}

#[test]
fn reserved_word_matching_is_case_sensitive() {
    assert!(Label::new("Node").is_ok());
    assert!(Label::new("NODE").is_ok());
    assert!(Label::new("nodes").is_ok());
    assert_eq!(Label::new("node"), Err(NameError::Reserved));
}

#[test]
fn names_are_case_sensitive_and_distinct() {
    assert_ne!(Label::new("Login").unwrap(), Label::new("login").unwrap());
}
