use igrep::rule::{is_pattern, CompileError, Directive, Rule};

#[test]
fn comment_lines_are_not_patterns() {
    assert!(!is_pattern("# a comment"));
    assert!(!is_pattern("#"));
    assert!(!is_pattern(""));
    assert!(!is_pattern("   \t "));
    assert!(!is_pattern("\u{3000}\u{a0}"));
    assert!(is_pattern("build/"));
    assert!(is_pattern("  # not at the start"));
    assert!(is_pattern("!"));
}

#[test]
fn comments_and_blank_lines_compile_to_no_rule() {
    assert!(matches!(Rule::new("# a comment"), Ok(None)));
    assert!(matches!(Rule::new("#build/"), Ok(None)));
    assert!(matches!(Rule::new(""), Ok(None)));
    assert!(matches!(Rule::new(" \t  "), Ok(None)));
    assert!(matches!(Rule::new("build/"), Ok(Some(_))));
}

#[test]
fn plain_name_matches_at_any_depth() {
    let d = Directive::parse("b.txt");
    assert!(!d.negated());
    assert!(!d.anchored());
    assert!(!d.dir_only());
    assert_eq!(d.glob(), "**/b.txt");
    assert_eq!(d.source(), "b.txt");
}

#[test]
fn directory_rule_covers_its_contents() {
    let d = Directive::parse("build/");
    assert!(!d.negated());
    assert!(!d.anchored());
    assert!(d.dir_only());
    assert_eq!(d.glob(), "**/build/**");
}

#[test]
fn anchored_directory_rule_covers_its_contents_too() {
    let d = Directive::parse("/build/");
    assert!(!d.negated());
    assert!(d.anchored());
    assert!(d.dir_only());
    assert_eq!(d.glob(), "build/**");

    let rule = Rule::new("/build/").unwrap().unwrap();
    assert!(rule.matches("build/"));
    assert!(rule.matches("build/a.txt"));
    assert!(rule.matches("build/a/b.txt"));
    assert!(rule.matches("build/a/b/"));
    assert!(!rule.matches("build"));
    assert!(!rule.matches("sub/build/"));
    assert!(!rule.matches("sub/build/a.txt"));
}

#[test]
fn anchored_rule_has_no_prefix() {
    let d = Directive::parse("/Cargo.lock");
    assert!(d.anchored());
    assert!(!d.dir_only());
    assert_eq!(d.glob(), "Cargo.lock");
}

#[test]
fn negation_is_stripped_before_the_anchor() {
    let d = Directive::parse("!/keep/");
    assert!(d.negated());
    assert!(d.anchored());
    assert!(d.dir_only());
    assert_eq!(d.glob(), "keep/**");
    assert_eq!(d.source(), "!/keep/");

    let d = Directive::parse("!keep.txt");
    assert!(d.negated());
    assert!(!d.anchored());
    assert_eq!(d.glob(), "**/keep.txt");
}

#[test]
fn anchor_before_negation_is_part_of_the_name() {
    let d = Directive::parse("/!x");
    assert!(!d.negated());
    assert!(d.anchored());
    assert_eq!(d.glob(), "!x");
}

#[test]
fn lone_markers() {
    let d = Directive::parse("/");
    assert!(d.anchored());
    assert!(!d.dir_only());
    assert_eq!(d.glob(), "");

    let d = Directive::parse("!");
    assert!(d.negated());
    assert!(!d.anchored());
    assert!(!d.dir_only());
    assert_eq!(d.glob(), "**/");

    let d = Directive::parse("//");
    assert!(d.anchored());
    assert!(d.dir_only());
    assert_eq!(d.glob(), "/**");

    let d = Directive::parse("");
    assert!(!d.negated());
    assert_eq!(d.glob(), "**/");
}

#[test]
fn non_ascii_names_are_kept() {
    let d = Directive::parse("!/données/");
    assert!(d.negated() && d.anchored() && d.dir_only());
    assert_eq!(d.glob(), "données/**");
}

#[test]
fn lines_are_trimmed_before_they_are_compiled() {
    let rule = Rule::new("  build/ \t").unwrap().unwrap();
    assert_eq!(rule.source(), "build/");
    assert_eq!(rule.glob(), "**/build/**");
    assert!(rule.dir_only());
    assert!(!rule.negated());
    assert!(!rule.anchored());

    let rule = Rule::new("\u{a0}!/x\u{2003}").unwrap().unwrap();
    assert_eq!(rule.source(), "!/x");
    assert_eq!(rule.glob(), "x");
    assert!(rule.negated());
    assert!(rule.anchored());
}

#[test]
fn malformed_globs_are_invalid_patterns() {
    for line in ["[", "a[bc", "x***y", "a**b", "**a", "/a**"] {
        match Rule::new(line) {
            Err(CompileError::InvalidPattern(cause)) => assert!(!cause.msg.is_empty()),
            other => panic!("{line:?} compiled to {other:?}"),
        }
    }
    assert!(Rule::new("[ab]c").unwrap().is_some());
    assert!(Rule::new("**/x").unwrap().is_some());
}

#[test]
fn from_compiled_follows_the_matcher() {
    let d = Directive::parse("*.log");
    let compiled = glob::Pattern::new(d.glob());
    let rule = Rule::from_compiled(d, compiled).unwrap();
    assert_eq!(rule.glob(), "**/*.log");
    assert_eq!(rule.source(), "*.log");

    let d = Directive::parse("[");
    let compiled = glob::Pattern::new(d.glob());
    assert!(matches!(
        Rule::from_compiled(d, compiled),
        Err(CompileError::InvalidPattern(_))
    ));
}

#[test]
fn rules_match_paths() {
    let rule = Rule::new("*.txt").unwrap().unwrap();
    assert!(rule.matches("a.txt"));
    assert!(rule.matches("sub/deep/a.txt"));
    assert!(!rule.matches("a.txt.bak"));
    assert!(!rule.matches("A.TXT"));
    // a leading dot is matched only by a dot in the rule
    assert!(!rule.matches(".hidden.txt"));
    assert!(!rule.matches(".cache/a.txt"));

    let rule = Rule::new("/*.txt").unwrap().unwrap();
    assert!(rule.matches("a.txt"));
    // `*` stops at a separator
    assert!(!rule.matches("sub/a.txt"));

    let rule = Rule::new(".env").unwrap().unwrap();
    assert!(rule.matches(".env"));
    assert!(rule.matches("conf/.env"));
}

#[test]
fn test_pattern() {
    assert!(glob::Pattern::new("**/target/**")
        .unwrap()
        .matches("target/"));
    let rule = Rule::new("target/").unwrap().unwrap();
    assert_eq!(rule.glob(), "**/target/**");
    assert!(rule.matches("target/"));
}

#[test]
fn test_pattern4() {
    assert_eq!(
        false,
        glob::Pattern::new("plugins/*")
            .unwrap()
            .matches_path(std::path::Path::new("./plugins/"))
    );
    let rule = Rule::new("/plugins/").unwrap().unwrap();
    assert_eq!(rule.glob(), "plugins/**");
    assert_eq!(false, rule.matches("./plugins/"));
    assert!(rule.matches("plugins/"));
}
