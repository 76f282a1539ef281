use igrep::paths::{component, in_dir, join, normalize, relative};
use igrep::resolver::{any_rule_matches, ignored, scope_verdict, vcs_dir, verdict, Verdict};
use igrep::scope::GitIgnore;

fn scope(root: &str, lines: &[&str]) -> GitIgnore {
    let lines: Vec<String> = lines.iter().map(|l| l.to_string()).collect();
    GitIgnore::from_lines(root.to_string(), &lines).0
}

#[test]
fn test_in_dir() {
    assert!(in_dir(".", "./app/cache/dev"));
    assert!(in_dir(".", "."));
}

#[test]
fn current_directory_lies_above_every_relative_path() {
    assert!(in_dir(".", "app/cache/dev"));
    assert!(in_dir(".", "other.txt"));
    assert!(in_dir("./", "other.txt"));
    assert!(in_dir("", "./other.txt"));
    assert!(in_dir(".", ""));
    assert!(in_dir("", "."));
    assert!(in_dir("./secret", "secret/readme.md"));
    assert!(in_dir("secret", "./secret/readme.md"));
    assert!(in_dir("././secret", "secret"));
    assert!(!in_dir("secret", "./secrets"));
    assert!(!in_dir("./secret", "."));
    // whether an absolute path lies in the current directory is not known
    assert!(!in_dir(".", "/etc/passwd"));
    assert!(!in_dir("", "/etc/passwd"));
    // a dot inside a path or a name is not the current directory
    assert!(!in_dir(".git", "src"));
    assert!(!in_dir("a/.", "a/b"));
}

#[test]
fn current_directory_is_dropped_from_the_start_of_a_path() {
    assert_eq!(normalize("."), "");
    assert_eq!(normalize("./"), "");
    assert_eq!(normalize("./a/b"), "a/b");
    assert_eq!(normalize("././a"), "a");
    assert_eq!(normalize("./."), "");
    assert_eq!(normalize("a/./b"), "a/./b");
    assert_eq!(normalize(".a"), ".a");
    assert_eq!(normalize("../a"), "../a");
    assert_eq!(normalize(""), "");
    assert_eq!(normalize("/./a"), "/./a");
}

#[test]
fn entry_names_are_single_components() {
    assert!(component("a.txt"));
    assert!(component(".gitignore"));
    assert!(component(".."));
    assert!(component("é"));
    assert!(!component(""));
    assert!(!component("."));
    assert!(!component("a/b"));
    assert!(!component("/"));
    assert!(!component("a/"));
}

#[test]
fn containment_goes_by_whole_components() {
    assert!(in_dir("root", "root/sub/a.txt"));
    assert!(in_dir("root/sub", "root/sub/a.txt"));
    assert!(in_dir("root/sub/a.txt", "root/sub/a.txt"));
    assert!(!in_dir("root/su", "root/sub/a.txt"));
    assert!(!in_dir("root/sub", "root/subway"));
    assert!(!in_dir("root/sub", "root"));
    assert!(!in_dir("other", "root/sub"));
    assert!(in_dir("/", "/etc/passwd"));
    assert!(in_dir("root/", "root/a"));
    assert!(in_dir("", "anything/at/all"));
    assert!(!in_dir("", "/anything"));
    assert!(in_dir("", ""));
    assert!(!in_dir("a", ""));
    assert!(in_dir("données", "données/é"));
    assert!(!in_dir("données", "donnéesé"));
}

#[test]
fn entries_are_joined_with_one_separator() {
    assert_eq!(join("root", "a.txt"), "root/a.txt");
    assert_eq!(join("root/", "a.txt"), "root/a.txt");
    assert_eq!(join("", "a.txt"), "a.txt");
    assert_eq!(join("/", "etc"), "/etc");
    assert_eq!(join(".", ".gitignore"), "./.gitignore");
}

#[test]
fn relative_drops_the_root_and_one_separator() {
    assert_eq!(relative("root", "root/sub/a.txt"), "sub/a.txt");
    assert_eq!(relative("root/", "root/sub/a.txt"), "sub/a.txt");
    assert_eq!(relative("root", "root"), "");
    assert_eq!(relative("", "sub/a.txt"), "sub/a.txt");
    assert_eq!(relative("/", "/etc"), "etc");
    assert_eq!(relative("é", "é/ü"), "ü");
    assert_eq!(relative(".", "other.txt"), "other.txt");
    assert_eq!(relative(".", "./other.txt"), "other.txt");
    assert_eq!(relative("./sub", "sub/a.txt"), "a.txt");
    assert_eq!(relative("sub", "./sub/a.txt"), "a.txt");
    assert_eq!(relative(".", "."), "");
}

#[test]
fn scope_verdict_table() {
    assert_eq!(scope_verdict(false, false), Verdict::Undecided);
    assert_eq!(scope_verdict(false, true), Verdict::Undecided);
    assert_eq!(scope_verdict(true, false), Verdict::Ignored);
    assert_eq!(scope_verdict(true, true), Verdict::Reincluded);
}

#[test]
fn version_control_directory_is_always_ignored() {
    assert!(vcs_dir(".git", true));
    assert!(vcs_dir("./.git", true));
    assert!(vcs_dir("root/sub/.git", true));
    assert!(!vcs_dir(".git", false));
    assert!(!vcs_dir("root/x.git", true));
    assert!(!vcs_dir("root/.gitignore", true));
    assert!(!vcs_dir("git", true));
    assert!(!vcs_dir("", true));

    assert!(ignored("root/.git", true, &vec![]));
    assert!(!ignored("root/.git", false, &vec![]));
    let reinclude = scope("root", &[".git/", "!.git/"]);
    assert!(ignored("root/.git", true, &vec![reinclude]));
}

#[test]
fn nothing_is_ignored_without_scopes() {
    assert!(!ignored("root/a.txt", false, &vec![]));
    assert!(!ignored("root/sub", true, &vec![]));
}

#[test]
fn unanchored_directory_rule_matches_at_any_depth() {
    let scopes = vec![scope("root", &["build/"])];
    assert!(ignored("root/build", true, &scopes));
    assert!(ignored("root/build/out.o", false, &scopes));
    assert!(ignored("root/build/a/b/c.o", false, &scopes));
    assert!(ignored("root/build/a/b", true, &scopes));
    assert!(ignored("root/sub/build", true, &scopes));
    assert!(ignored("root/sub/build/x", false, &scopes));
    // a file of that name is not a directory
    assert!(!ignored("root/build", false, &scopes));
    assert!(!ignored("root/builder", true, &scopes));
    assert!(!ignored("root/src", true, &scopes));
}

#[test]
fn anchored_directory_rule_matches_only_under_its_scope_root() {
    let scopes = vec![scope("root", &["/build/"])];
    assert!(ignored("root/build", true, &scopes));
    assert!(ignored("root/build/out.o", false, &scopes));
    assert!(ignored("root/build/a/b.txt", false, &scopes));
    assert!(ignored("root/build/a/b", true, &scopes));
    assert!(!ignored("root/sub/build", true, &scopes));
    assert!(!ignored("root/sub/build/out.o", false, &scopes));
    assert!(!ignored("root/build", false, &scopes));

    // the scope root need not be the root of the walk
    let scopes = vec![scope("root/sub", &["/build/"])];
    assert!(ignored("root/sub/build", true, &scopes));
    assert!(!ignored("root/build", true, &scopes));
    assert!(!ignored("root/sub/deep/build", true, &scopes));
}

#[test]
fn negated_rule_takes_back_an_exclusion_of_its_scope() {
    let scopes = vec![scope("root", &["*.txt", "!keep.txt"])];
    assert!(!ignored("root/keep.txt", false, &scopes));
    assert!(ignored("root/other.txt", false, &scopes));
    assert!(!ignored("root/sub/keep.txt", false, &scopes));
    assert!(ignored("root/sub/other.txt", false, &scopes));
    assert_eq!(verdict(&scopes[0], "root/keep.txt", false), Verdict::Reincluded);
    assert_eq!(verdict(&scopes[0], "root/other.txt", false), Verdict::Ignored);
    assert_eq!(verdict(&scopes[0], "root/main.rs", false), Verdict::Undecided);

    // the order of the lines does not matter
    let scopes = vec![scope("root", &["!keep.txt", "*.txt"])];
    assert!(!ignored("root/keep.txt", false, &scopes));
    assert!(ignored("root/other.txt", false, &scopes));
}

#[test]
fn scope_at_the_current_directory_speaks_of_relative_paths() {
    let scopes = vec![scope(".", &["*.txt", "!keep.txt"])];
    assert!(ignored("other.txt", false, &scopes));
    assert!(ignored("./other.txt", false, &scopes));
    assert!(ignored("sub/other.txt", false, &scopes));
    assert!(!ignored("keep.txt", false, &scopes));
    assert!(!ignored("./keep.txt", false, &scopes));
    assert!(!ignored("main.rs", false, &scopes));
    assert!(!ignored("/tmp/other.txt", false, &scopes));

    let scopes = vec![scope("", &["*.txt"])];
    assert!(ignored("other.txt", false, &scopes));
    assert!(ignored("./other.txt", false, &scopes));

    let scopes = vec![scope(".", &["/build/"])];
    assert!(ignored("build", true, &scopes));
    assert!(ignored("./build", true, &scopes));
    assert!(ignored("build/a/b.txt", false, &scopes));
    assert!(!ignored("sub/build", true, &scopes));
    assert!(ignored("app/cache", true, &vec![scope(".", &["app/cache/"])]));
    assert!(ignored("app/cache/dev", true, &vec![scope(".", &["cache/"])]));
}

#[test]
fn child_negation_does_not_override_parent_at_the_current_directory() {
    let scopes = vec![scope(".", &["secret/"]), scope("secret", &["!readme.md"])];
    assert!(ignored("secret/readme.md", false, &scopes));
    assert!(ignored("./secret/readme.md", false, &scopes));
    assert!(ignored("secret", true, &scopes));

    let scopes = vec![scope(".", &["secret/"]), scope("./secret", &["!readme.md"])];
    assert!(ignored("secret/readme.md", false, &scopes));
}

#[test]
fn negated_rule_alone_decides_nothing() {
    let scopes = vec![scope("root", &["!keep.txt"])];
    assert_eq!(verdict(&scopes[0], "root/keep.txt", false), Verdict::Undecided);
    assert!(!ignored("root/keep.txt", false, &scopes));
}

#[test]
fn child_negation_does_not_override_parent() {
    let scopes = vec![
        scope("root", &["secret/"]),
        scope("root/secret", &["!readme.md"]),
    ];
    assert!(ignored("root/secret/readme.md", false, &scopes));
    assert!(ignored("root/secret", true, &scopes));
    assert_eq!(
        verdict(&scopes[1], "root/secret/readme.md", false),
        Verdict::Undecided
    );
}

#[test]
fn nearest_scope_decides_first() {
    let scopes = vec![
        scope("root", &["*.log"]),
        scope("root/sub", &["*.log", "!keep.log"]),
    ];
    // the child scope has a rule for the path and takes it back
    assert!(!ignored("root/sub/keep.log", false, &scopes));
    assert!(ignored("root/sub/other.log", false, &scopes));
    // outside the child scope only the parent speaks
    assert!(ignored("root/keep.log", false, &scopes));

    let scopes = vec![
        scope("root", &["*.log", "!keep.log"]),
        scope("root/sub", &["keep.log"]),
    ];
    assert!(ignored("root/sub/keep.log", false, &scopes));
    assert!(!ignored("root/keep.log", false, &scopes));
}

#[test]
fn scopes_of_other_subtrees_are_not_consulted() {
    let scopes = vec![scope("root/a", &["*.txt"])];
    assert!(ignored("root/a/x.txt", false, &scopes));
    assert!(!ignored("root/b/x.txt", false, &scopes));
    assert!(!ignored("root/ab/x.txt", false, &scopes));
    assert_eq!(verdict(&scopes[0], "root/b/x.txt", false), Verdict::Undecided);
}

#[test]
fn any_rule_matches_looks_at_every_rule() {
    let s = scope("root", &["*.o", "*.a", "target/", "!lib.a"]);
    assert!(any_rule_matches(s.rules(), "x.o"));
    assert!(any_rule_matches(s.rules(), "lib.a"));
    assert!(any_rule_matches(s.rules(), "target/"));
    assert!(!any_rule_matches(s.rules(), "main.rs"));
    assert!(any_rule_matches(s.negated_rules(), "lib.a"));
    assert!(!any_rule_matches(s.negated_rules(), "x.o"));
    assert!(!any_rule_matches(&vec![], "x.o"));
}

#[test]
fn scope_keeps_file_order_and_reports_bad_lines() {
    let lines: Vec<String> = [
        "# build output",
        "target/",
        "",
        "!target/keep",
        "[",
        "  *.o  ",
        "a**b",
        "!/x",
    ]
    .iter()
    .map(|l| l.to_string())
    .collect();
    let (s, rejected) = GitIgnore::from_lines("root".to_string(), &lines);
    assert_eq!(s.root(), "root");
    let rules: Vec<&str> = s.rules().iter().map(|r| r.source()).collect();
    assert_eq!(rules, vec!["target/", "*.o"]);
    let negated: Vec<&str> = s.negated_rules().iter().map(|r| r.source()).collect();
    assert_eq!(negated, vec!["!target/keep", "!/x"]);
    assert_eq!(rejected, vec![4, 6]);
    assert!(s.rules().iter().all(|r| !r.negated()));
    assert!(s.negated_rules().iter().all(|r| r.negated()));
}

#[test]
fn empty_file_gives_an_empty_scope() {
    let (s, rejected) = GitIgnore::from_lines("root".to_string(), &vec![]);
    assert!(s.rules().is_empty());
    assert!(s.negated_rules().is_empty());
    assert!(rejected.is_empty());
    assert!(!ignored("root/a", false, &vec![s]));
}
