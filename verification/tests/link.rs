use nostdb_core::locator::CanonicalSourceLocator;
use nostdb_core::link::Link;
use nostdb_core::name::LinkAlias;

fn locator(value: &str) -> CanonicalSourceLocator {
    CanonicalSourceLocator::new(value).unwrap()
}

#[test]
fn identity_is_the_locator_not_the_alias() {
    let bare = Link::new(locator("./packages/child"));
    let aliased = Link::with_alias(
        locator("./packages/child"),
        LinkAlias::new("child").unwrap(),
    );
    assert_eq!(bare.source, aliased.source);
    assert_ne!(bare, aliased);
}

#[test]
fn renders_both_declaration_forms() {
    assert_eq!(Link::new(locator("./a")).to_string(), "./a");
    assert_eq!(
        Link::with_alias(locator("./a"), LinkAlias::new("a").unwrap()).to_string(),
        "./a as a"
    );
}

#[test]
fn remoteness_comes_from_the_locator() {
    assert!(Link::new(locator("github://example/app/?ref=main")).is_remote());
    assert!(!Link::new(locator("./packages/child")).is_remote());
}
