use nostdb_core::ignore::IgnoreFile;
use nostdb_core::ignore::IgnoreStack;
use nostdb_core::ignore::Rule;
use nostdb_core::ignore::glob;

fn stack(rules: &[(&str, &str)]) -> IgnoreStack {
    let mut stack = IgnoreStack::new();
    for (base, text) in rules {
        stack.push(IgnoreFile::parse(text, base));
    }
    stack
}

#[test]
fn a_blank_line_and_a_comment_state_no_rule() {
    assert_eq!(Rule::parse(""), None);
    assert_eq!(Rule::parse("   "), None);
    assert_eq!(Rule::parse("# a comment"), None);
    assert_eq!(Rule::parse("/"), None);
    assert!(Rule::parse("\\#literal").is_some());
}

#[test]
fn trailing_spaces_are_stripped_unless_a_backslash_protects_them() {
    assert!(Rule::parse("build   ").unwrap().matches("build", false));
    let rule = Rule::parse("odd\\ ").unwrap();
    assert!(rule.matches("odd ", false), "{rule:?}");
    assert!(!rule.matches("odd", false));
}

#[test]
fn an_unanchored_pattern_matches_at_any_depth() {
    let rules = stack(&[("", "target\n")]);
    assert!(rules.excludes("target", true));
    assert!(rules.excludes("crates/inner/target", true));
}

#[test]
fn a_rule_answers_about_one_path_and_says_nothing_about_what_is_under_it() {
    let rules = stack(&[("", "target\n")]);
    assert!(rules.excludes("crates/inner/target", true));
    assert!(!rules.excludes("crates/inner/target/debug/build.rs", false));
}

#[test]
fn a_slash_in_the_pattern_anchors_it() {
    let rules = stack(&[("", "doc/frotz\n")]);
    assert!(rules.excludes("doc/frotz", true));
    assert!(
        !rules.excludes("a/doc/frotz", true),
        "an anchored pattern does not float"
    );
}

#[test]
fn a_leading_slash_anchors_without_making_the_pattern_a_path() {
    let rules = stack(&[("", "/build\n")]);
    assert!(rules.excludes("build", true));
    assert!(!rules.excludes("crates/build", true));
}

#[test]
fn a_trailing_slash_matches_directories_only() {
    let rules = stack(&[("", "logs/\n")]);
    assert!(rules.excludes("logs", true));
    assert!(
        !rules.excludes("logs", false),
        "a file named `logs` is not a directory"
    );
}

#[test]
fn the_last_matching_rule_in_a_file_decides() {
    let rules = stack(&[("", "*.log\n!keep.log\n")]);
    assert!(rules.excludes("debug.log", false));
    assert!(!rules.excludes("keep.log", false));

    let reversed = stack(&[("", "!keep.log\n*.log\n")]);
    assert!(reversed.excludes("keep.log", false));
}

#[test]
fn a_deeper_file_overrides_a_shallower_one() {
    let rules = stack(&[("", "*.rs\n"), ("crates/inner", "!*.rs\n")]);
    assert!(rules.excludes("main.rs", false));
    assert!(!rules.excludes("crates/inner/main.rs", false));
    assert!(
        rules.excludes("crates/other/main.rs", false),
        "a deeper file only speaks for its own subtree"
    );
}

#[test]
fn a_single_star_stops_at_a_separator_and_a_double_star_does_not() {
    assert!(glob("*.rs", "main.rs"));
    assert!(!glob("*.rs", "src/main.rs"));
    assert!(glob("**/main.rs", "src/deep/main.rs"));
    assert!(
        glob("**/main.rs", "main.rs"),
        "a leading `**/` matches zero directories"
    );
    assert!(glob("a/**/b", "a/b"), "`a/**/b` also matches `a/b`");
    assert!(glob("a/**/b", "a/x/y/b"));
    assert!(!glob("a/**/b", "a/x/y/c"));
    assert!(glob("src/**", "src/a/b/c.rs"));
}

#[test]
fn a_question_mark_matches_one_character_but_never_a_separator() {
    assert!(glob("?.rs", "a.rs"));
    assert!(!glob("?.rs", "ab.rs"));
    assert!(!glob("a?b", "a/b"));
}

#[test]
fn a_character_class_matches_a_set_a_range_and_a_negation() {
    assert!(glob("[abc].rs", "b.rs"));
    assert!(!glob("[abc].rs", "d.rs"));
    assert!(glob("[a-z].rs", "q.rs"));
    assert!(!glob("[a-z].rs", "Q.rs"));
    assert!(glob("[!a-z].rs", "Q.rs"));
    assert!(!glob("[!a-z].rs", "q.rs"));
    assert!(glob("[abc", "[abc"));
}

#[test]
fn a_backslash_escapes_a_wildcard() {
    assert!(glob("a\\*b", "a*b"));
    assert!(!glob("a\\*b", "axb"));
}

#[test]
fn a_pattern_matching_nothing_excludes_nothing() {
    let rules = stack(&[("", "*.log\n")]);
    assert!(!rules.excludes("src/main.rs", false));
    assert!(!IgnoreStack::new().excludes("anything", false));
    assert!(IgnoreStack::new().is_empty());
}

#[test]
fn a_stack_can_be_unwound_to_the_depth_it_had() {
    let mut rules = stack(&[("", "*.log\n")]);
    let depth = rules.len();
    rules.push(IgnoreFile::parse("*.rs\n", "src"));
    assert!(rules.excludes("src/main.rs", false));
    rules.truncate(depth);
    assert!(
        !rules.excludes("src/main.rs", false),
        "leaving a directory must retire the rules it contributed"
    );
}

#[test]
fn an_empty_file_contributes_nothing_to_the_stack() {
    let mut rules = IgnoreStack::new();
    rules.push(IgnoreFile::parse("\n# only comments\n\n", ""));
    assert!(rules.is_empty());
}

#[test]
fn a_double_star_with_a_separator_stands_for_whole_directories() {
    assert!(glob("**/main.rs", "main.rs"));
    assert!(glob("**/main.rs", "src/deep/main.rs"));
    assert!(!glob("**/main.rs", "xmain.rs"));
    assert!(!glob("**/main.rs", "src/xmain.rs"));
    assert!(glob("a/**/b", "a/b"));
    assert!(glob("a/**/b", "a/x/y/b"));
    assert!(!glob("a/**/b", "a/xb"));
    assert!(glob("a/**", "a/x/y"));
}

#[test]
fn a_class_does_not_cross_a_separator() {
    assert!(glob("a[!x]b", "ayb"));
    assert!(!glob("a[!x]b", "a/b"));
    assert!(!glob("a[.-0]b", "a/b"));
}

#[test]
fn a_leading_space_belongs_to_the_pattern() {
    let rule = Rule::parse(" foo ").unwrap();
    assert!(rule.matches(" foo", false));
    assert!(!rule.matches("foo", false));
    assert!(Rule::parse("   ").is_none());
}
