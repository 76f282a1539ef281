use igrep::search::grep_file;
use igrep::walker::{ignore_file_names, Entry, EntryKind, Walker};
use std::collections::BTreeMap;

/// A directory of an in-memory tree: its entries in listing order, and the
/// text of its files.
struct Dir {
    entries: Vec<(&'static str, EntryKind)>,
    files: BTreeMap<&'static str, &'static str>,
}

fn dir(entries: &[(&'static str, EntryKind)], files: &[(&'static str, &'static str)]) -> Dir {
    Dir {
        entries: entries.to_vec(),
        files: files.iter().cloned().collect(),
    }
}

/// Walks `tree` from `root` and returns, in order, the directories listed
/// and the files handed out to be searched.
fn walk(tree: &BTreeMap<&'static str, Dir>, root: &str) -> (Vec<String>, Vec<String>) {
    let mut listed = Vec::new();
    let mut found = Vec::new();
    let mut walker = Walker::new(root.to_string());
    loop {
        let next = match walker.next_dir() {
            Some(d) => d.to_string(),
            None => break,
        };
        let Some(d) = tree.get(next.as_str()) else {
            walker = walker.skip().expect("the root can be listed");
            continue;
        };
        listed.push(next.clone());
        let mut ignore_files = Vec::new();
        for name in ignore_file_names() {
            if let Some(text) = d.files.get(name) {
                ignore_files.push(text.lines().map(|l| l.to_string()).collect::<Vec<_>>());
            }
        }
        let entries: Vec<Entry> = d
            .entries
            .iter()
            .map(|(name, kind)| Entry {
                name: name.to_string(),
                kind: *kind,
            })
            .collect();
        let (w, visit) = walker.enter(&ignore_files, &entries);
        walker = w;
        found.extend(visit.files);
    }
    (listed, found)
}

#[test]
fn ignore_file_names_are_the_two_conventional_ones() {
    assert_eq!(ignore_file_names(), vec![".gitignore", ".ignore"]);
}

#[test]
fn ignored_file_in_subdirectory_is_never_handed_out() {
    let mut tree = BTreeMap::new();
    tree.insert(
        "root",
        dir(
            &[
                ("a.txt", EntryKind::File),
                (".gitignore", EntryKind::File),
                ("sub", EntryKind::Dir),
            ],
            &[("a.txt", "x marks\nthe spot"), (".gitignore", "b.txt")],
        ),
    );
    tree.insert(
        "root/sub",
        dir(
            &[("b.txt", EntryKind::File), ("c.txt", EntryKind::File)],
            &[("b.txt", "x"), ("c.txt", "no match\nxylophone")],
        ),
    );
    let (listed, found) = walk(&tree, "root");
    assert_eq!(listed, vec!["root", "root/sub"]);
    assert_eq!(found, vec!["root/a.txt", "root/.gitignore", "root/sub/c.txt"]);
    assert!(!found.contains(&"root/sub/b.txt".to_string()));

    // searching what was handed out for "x"
    let mut records = Vec::new();
    for path in &found {
        let (dir_path, name) = path.rsplit_once('/').unwrap();
        let text = tree[dir_path].files[name];
        let lines: Vec<Option<String>> = text.lines().map(|l| Some(l.to_string())).collect();
        for m in grep_file(path, true, &lines, "x").matches {
            records.push(m.render());
        }
    }
    assert_eq!(
        records,
        vec![
            "root/a.txt:1:x marks",
            "root/.gitignore:1:b.txt",
            "root/sub/c.txt:2:xylophone"
        ]
    );
}

#[test]
fn ignored_directory_is_not_descended_into() {
    let mut tree = BTreeMap::new();
    tree.insert(
        "root",
        dir(
            &[
                ("target", EntryKind::Dir),
                ("src", EntryKind::Dir),
                (".git", EntryKind::Dir),
                ("socket", EntryKind::Other),
                ("Cargo.toml", EntryKind::File),
            ],
            &[(".ignore", "target/")],
        ),
    );
    tree.insert("root/target", dir(&[("debug.o", EntryKind::File)], &[]));
    tree.insert("root/.git", dir(&[("HEAD", EntryKind::File)], &[]));
    tree.insert(
        "root/src",
        dir(
            &[("main.rs", EntryKind::File), ("target", EntryKind::Dir)],
            &[],
        ),
    );
    tree.insert("root/src/target", dir(&[("x.o", EntryKind::File)], &[]));
    let (listed, found) = walk(&tree, "root");
    assert_eq!(listed, vec!["root", "root/src"]);
    assert_eq!(found, vec!["root/Cargo.toml", "root/src/main.rs"]);
}

#[test]
fn scopes_of_a_finished_subtree_do_not_leak_into_a_sibling() {
    let mut tree = BTreeMap::new();
    tree.insert(
        "root",
        dir(&[("a", EntryKind::Dir), ("b", EntryKind::Dir)], &[]),
    );
    tree.insert(
        "root/a",
        dir(
            &[("x.txt", EntryKind::File), ("y.md", EntryKind::File)],
            &[(".gitignore", "*.md")],
        ),
    );
    tree.insert(
        "root/b",
        dir(
            &[("x.txt", EntryKind::File), ("y.md", EntryKind::File)],
            &[(".gitignore", "*.txt")],
        ),
    );
    let (listed, found) = walk(&tree, "root");
    // depth first, the entry listed last is entered first
    assert_eq!(listed, vec!["root", "root/b", "root/a"]);
    assert_eq!(found, vec!["root/b/y.md", "root/a/x.txt"]);
}

#[test]
fn both_ignore_files_of_a_directory_are_honoured() {
    let mut tree = BTreeMap::new();
    tree.insert(
        "root",
        dir(
            &[
                ("a.log", EntryKind::File),
                ("b.tmp", EntryKind::File),
                ("keep.log", EntryKind::File),
                ("c.rs", EntryKind::File),
            ],
            &[(".gitignore", "*.log\n!keep.log"), (".ignore", "*.tmp\n[\n")],
        ),
    );
    let mut walker = Walker::new("root".to_string());
    assert_eq!(walker.next_dir(), Some("root"));
    let d = &tree["root"];
    let ignore_files: Vec<Vec<String>> = ignore_file_names()
        .iter()
        .map(|n| d.files[n].lines().map(|l| l.to_string()).collect())
        .collect();
    let entries: Vec<Entry> = d
        .entries
        .iter()
        .map(|(name, kind)| Entry {
            name: name.to_string(),
            kind: *kind,
        })
        .collect();
    let (w, visit) = walker.enter(&ignore_files, &entries);
    walker = w;
    assert_eq!(visit.files, vec!["root/keep.log", "root/c.rs"]);
    assert_eq!(visit.rejected, vec![vec![], vec![1]]);
    assert_eq!(walker.next_dir(), None);
}

#[test]
fn anchored_rule_of_a_nested_scope_applies_under_that_scope() {
    let mut tree = BTreeMap::new();
    tree.insert("root", dir(&[("pkg", EntryKind::Dir)], &[]));
    tree.insert(
        "root/pkg",
        dir(
            &[("build", EntryKind::Dir), ("src", EntryKind::Dir)],
            &[(".gitignore", "/build/")],
        ),
    );
    tree.insert("root/pkg/build", dir(&[("out", EntryKind::File)], &[]));
    tree.insert(
        "root/pkg/src",
        dir(&[("build", EntryKind::Dir), ("lib.rs", EntryKind::File)], &[]),
    );
    tree.insert("root/pkg/src/build", dir(&[("gen.rs", EntryKind::File)], &[]));
    let (listed, found) = walk(&tree, "root");
    assert_eq!(
        listed,
        vec!["root", "root/pkg", "root/pkg/src", "root/pkg/src/build"]
    );
    assert_eq!(
        found,
        vec!["root/pkg/src/lib.rs", "root/pkg/src/build/gen.rs"]
    );
}

#[test]
fn unreadable_directory_is_abandoned() {
    let mut tree = BTreeMap::new();
    tree.insert(
        "root",
        dir(
            &[
                ("a", EntryKind::Dir),
                ("locked", EntryKind::Dir),
                ("f", EntryKind::File),
            ],
            &[],
        ),
    );
    tree.insert("root/a", dir(&[("g", EntryKind::File)], &[]));
    // "root/locked" cannot be listed
    let (listed, found) = walk(&tree, "root");
    assert_eq!(listed, vec!["root", "root/a"]);
    assert_eq!(found, vec!["root/f", "root/a/g"]);
}

#[test]
fn finished_walk_stays_finished() {
    let walker = Walker::new("root".to_string());
    let (walker, visit) = walker.enter(&vec![], &vec![]);
    assert!(visit.files.is_empty());
    assert_eq!(walker.next_dir(), None);
    let walker = walker.skip().unwrap();
    assert_eq!(walker.next_dir(), None);
    let (walker, visit) = walker.enter(
        &vec![vec!["*".to_string()]],
        &vec![Entry {
            name: "a".to_string(),
            kind: EntryKind::File,
        }],
    );
    assert!(visit.files.is_empty());
    assert!(visit.rejected.is_empty());
    assert_eq!(walker.next_dir(), None);
}

#[test]
fn walk_from_the_current_directory() {
    let mut tree = BTreeMap::new();
    tree.insert(
        ".",
        dir(
            &[("sub", EntryKind::Dir), ("b.txt", EntryKind::File)],
            &[(".gitignore", "b.txt")],
        ),
    );
    tree.insert(
        "./sub",
        dir(&[("b.txt", EntryKind::File), ("c.txt", EntryKind::File)], &[]),
    );
    let (listed, found) = walk(&tree, ".");
    assert_eq!(listed, vec![".", "./sub"]);
    assert_eq!(found, vec!["./sub/c.txt"]);
}

#[test]
fn scope_stack_follows_the_way_from_the_root() {
    let entry = |name: &str, kind: EntryKind| Entry {
        name: name.to_string(),
        kind,
    };
    let rules = |lines: &[&str]| -> Vec<Vec<String>> {
        vec![lines.iter().map(|l| l.to_string()).collect()]
    };
    let roots = |w: &Walker| -> Vec<String> {
        w.scopes().iter().map(|s| s.root().to_string()).collect()
    };

    let walker = Walker::new("r".to_string());
    assert!(walker.scopes().is_empty());

    let (walker, _) = walker.enter(
        &rules(&["*.o"]),
        &vec![entry("a", EntryKind::Dir), entry("b", EntryKind::Dir)],
    );
    assert_eq!(roots(&walker), vec!["r"]);
    assert_eq!(walker.next_dir(), Some("r/b"));

    let (walker, _) = walker.enter(&rules(&["*.tmp"]), &vec![entry("c", EntryKind::Dir)]);
    assert_eq!(roots(&walker), vec!["r", "r/b"]);
    assert_eq!(walker.next_dir(), Some("r/b/c"));

    let (walker, _) = walker.enter(&rules(&["x"]), &vec![]);
    assert_eq!(roots(&walker), vec!["r", "r/b", "r/b/c"]);
    assert_eq!(walker.next_dir(), Some("r/a"));

    // entering the sibling drops the scopes of the subtree that was left
    let (walker, visit) = walker.enter(
        &vec![],
        &vec![entry("f.tmp", EntryKind::File), entry("g.o", EntryKind::File)],
    );
    assert_eq!(roots(&walker), vec!["r"]);
    assert_eq!(visit.files, vec!["r/a/f.tmp"]);
    assert_eq!(walker.next_dir(), None);
}

#[test]
fn walk_fails_when_its_root_cannot_be_listed() {
    let walker = Walker::new("missing".to_string());
    assert_eq!(walker.next_dir(), Some("missing"));
    assert!(walker.skip().is_none());

    // any other directory is given up and the walk goes on
    let walker = Walker::new("root".to_string());
    let (walker, _) = walker.enter(
        &vec![],
        &vec![
            Entry {
                name: "a".to_string(),
                kind: EntryKind::Dir,
            },
            Entry {
                name: "b".to_string(),
                kind: EntryKind::Dir,
            },
        ],
    );
    assert_eq!(walker.next_dir(), Some("root/b"));
    let walker = walker.skip().unwrap();
    assert_eq!(walker.next_dir(), Some("root/a"));
    let walker = walker.skip().unwrap();
    assert_eq!(walker.next_dir(), None);
}

#[test]
fn entries_that_are_not_names_are_passed_over() {
    let walker = Walker::new("root".to_string());
    let entry = |name: &str, kind: EntryKind| Entry {
        name: name.to_string(),
        kind,
    };
    let (walker, visit) = walker.enter(
        &vec![],
        &vec![
            entry("", EntryKind::File),
            entry(".", EntryKind::Dir),
            entry("a/b", EntryKind::File),
            entry("/etc", EntryKind::Dir),
            entry("ok", EntryKind::File),
            entry("..", EntryKind::File),
        ],
    );
    assert_eq!(visit.files, vec!["root/ok", "root/.."]);
    assert_eq!(walker.next_dir(), None);
}
