use nostdb_core::locator::CanonicalSourceLocator;
use nostdb_core::locator::LocatorError;

#[test]
fn accepts_paths_and_remote_addresses() {
    for candidate in [
        "./packages/child",
        "../sibling",
        "/absolute/path/.nostdb/root.nostdb",
        "github://example/payments/.nostdb/root.nostdb?ref=v1.2.0",
    ] {
        assert!(
            CanonicalSourceLocator::new(candidate).is_ok(),
            "{candidate}"
        );
    }
}

#[test]
fn rejects_empty_untrimmed_and_control_characters() {
    assert_eq!(CanonicalSourceLocator::new(""), Err(LocatorError::Empty));
    assert_eq!(CanonicalSourceLocator::new("  "), Err(LocatorError::Empty));
    assert_eq!(
        CanonicalSourceLocator::new(" ./a"),
        Err(LocatorError::Untrimmed)
    );
    assert_eq!(
        CanonicalSourceLocator::new("./a\n"),
        Err(LocatorError::Untrimmed)
    );
    assert_eq!(
        CanonicalSourceLocator::new("./a\u{7}b"),
        Err(LocatorError::ControlCharacter { found: '\u{7}' })
    );
}

#[test]
fn distinguishes_remote_from_local() {
    let remote = CanonicalSourceLocator::new("github://example/payments/?ref=main").unwrap();
    assert!(remote.is_remote());
    assert_eq!(remote.scheme(), Some("github"));

    let local = CanonicalSourceLocator::new("./packages/child").unwrap();
    assert!(!local.is_remote());
    assert_eq!(local.scheme(), None);
}

#[test]
fn a_windows_style_path_is_not_mistaken_for_a_scheme() {
    let path = CanonicalSourceLocator::new("C:/projects/app").unwrap();
    assert_eq!(path.scheme(), None);
    assert!(!path.is_remote());
}

#[test]
fn two_textually_different_locators_are_two_sources() {
    let a = CanonicalSourceLocator::new("./packages/child").unwrap();
    let b = CanonicalSourceLocator::new("./packages/child/").unwrap();
    assert_ne!(a, b);
}
