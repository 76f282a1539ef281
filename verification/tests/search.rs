use igrep::search::{grep_file, to_decimal, Match};

fn text(lines: &[&str]) -> Vec<Option<String>> {
    lines.iter().map(|l| Some(l.to_string())).collect()
}

#[test]
fn matching_lines_are_reported_with_their_numbers() {
    let lines = text(&["let a = 1;", "fn main() {", "    let b = 2;", "}"]);
    let found = grep_file("src/main.rs", true, &lines, "let");
    let got: Vec<(usize, &str)> = found
        .matches
        .iter()
        .map(|m| (m.line, m.content.as_str()))
        .collect();
    assert_eq!(got, vec![(1, "let a = 1;"), (3, "    let b = 2;")]);
    assert!(found.matches.iter().all(|m| m.path == "src/main.rs"));
    assert_eq!(found.skipped, 0);
}

#[test]
fn search_is_by_substring_and_regards_case() {
    let lines = text(&["alphabet", "ALPHABET", "beta", "", "β-test"]);
    let lines_of = |p: &str| -> Vec<usize> {
        grep_file("f", true, &lines, p)
            .matches
            .iter()
            .map(|m| m.line)
            .collect()
    };
    assert_eq!(lines_of("bet"), vec![1, 3]);
    assert_eq!(lines_of("BET"), vec![2]);
    assert_eq!(lines_of("alphabet"), vec![1]);
    assert_eq!(lines_of("alphabets"), Vec::<usize>::new());
    assert_eq!(lines_of("β"), vec![5]);
    assert_eq!(lines_of("ab"), vec![1]);
}

#[test]
fn binary_file_gives_no_match() {
    let lines = text(&["\u{0}\u{1}let\u{2}", "let x = 1;"]);
    let found = grep_file("a.out", false, &lines, "let");
    assert!(found.matches.is_empty());
    assert_eq!(found.skipped, 0);
    let found = grep_file("a.out", false, &lines, "");
    assert!(found.matches.is_empty());
}

#[test]
fn empty_pattern_matches_every_line_once() {
    let lines = text(&["one", "", "three", "  ", "five"]);
    let found = grep_file("f.txt", true, &lines, "");
    let numbers: Vec<usize> = found.matches.iter().map(|m| m.line).collect();
    assert_eq!(numbers, vec![1, 2, 3, 4, 5]);
    let contents: Vec<&str> = found.matches.iter().map(|m| m.content.as_str()).collect();
    assert_eq!(contents, vec!["one", "", "three", "  ", "five"]);
}

#[test]
fn pattern_held_by_every_line_matches_every_line_once() {
    let lines = text(&["a;", ";", "b;;c"]);
    let found = grep_file("f", true, &lines, ";");
    let numbers: Vec<usize> = found.matches.iter().map(|m| m.line).collect();
    assert_eq!(numbers, vec![1, 2, 3]);
    assert!(numbers.windows(2).all(|w| w[0] < w[1]));
}

#[test]
fn undecodable_lines_are_passed_over_and_counted() {
    let lines = vec![
        Some("let a".to_string()),
        None,
        Some("let b".to_string()),
        None,
        Some("other".to_string()),
    ];
    let found = grep_file("f", true, &lines, "let");
    let numbers: Vec<usize> = found.matches.iter().map(|m| m.line).collect();
    assert_eq!(numbers, vec![1, 3]);
    assert_eq!(found.skipped, 2);

    let found = grep_file("f", true, &lines, "");
    let numbers: Vec<usize> = found.matches.iter().map(|m| m.line).collect();
    assert_eq!(numbers, vec![1, 3, 5]);
}

#[test]
fn empty_file_gives_no_match() {
    let found = grep_file("f", true, &vec![], "");
    assert!(found.matches.is_empty());
    assert_eq!(found.skipped, 0);
}

#[test]
fn numbers_are_written_in_decimal() {
    assert_eq!(to_decimal(0), "0");
    assert_eq!(to_decimal(7), "7");
    assert_eq!(to_decimal(10), "10");
    assert_eq!(to_decimal(1234567890), "1234567890");
    assert_eq!(to_decimal(usize::MAX), usize::MAX.to_string());
}

#[test]
fn a_match_is_rendered_as_path_line_content() {
    let m = Match {
        path: "./src/main.rs".to_string(),
        line: 180,
        content: "    println!(\"{}:{}:{}\", a, b, c);".to_string(),
    };
    assert_eq!(
        m.render(),
        "./src/main.rs:180:    println!(\"{}:{}:{}\", a, b, c);"
    );
    let m = Match {
        path: "f".to_string(),
        line: 1,
        content: String::new(),
    };
    assert_eq!(m.render(), "f:1:");
}
