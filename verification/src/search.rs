//! The line search: which lines of a file hold the pattern, and how a match
//! is written out. Lines are numbered from 1.

use crate::text::{contains, lemma_contains_empty, str_contains};
use vstd::prelude::*;

verus! {

/// A match, as plain data.
pub struct MatchView {
    /// The path of the file.
    pub path: Seq<char>,
    /// The number of the line in the file, counted from 1.
    pub line: nat,
    /// The line, without its line ending.
    pub content: Seq<char>,
}

/// A line that holds the pattern.
#[derive(Debug)]
pub struct Match {
    /// The path of the file.
    pub path: String,
    /// The number of the line in the file, counted from 1.
    pub line: usize,
    /// The line, without its line ending.
    pub content: String,
}

impl View for Match {
    type V = MatchView;

    open spec fn view(&self) -> MatchView {
        MatchView { path: self.path@, line: self.line as nat, content: self.content@ }
    }
}

/// Matches as plain data.
pub open spec fn match_views(matches: Seq<Match>) -> Seq<MatchView> {
    Seq::new(matches.len(), |i: int| matches[i]@)
}

/// The lines of a file as plain text; `None` stands for a line that could
/// not be decoded.
pub open spec fn line_texts(lines: Seq<Option<String>>) -> Seq<Option<Seq<char>>> {
    Seq::new(
        lines.len(),
        |i: int|
            match lines[i] {
                Some(text) => Some(text@),
                None => None,
            },
    )
}

/// Whether a line gives a match: it could be decoded and holds `pattern`.
pub open spec fn line_matches(line: Option<Seq<char>>, pattern: Seq<char>) -> bool {
    match line {
        Some(text) => contains(text, pattern),
        None => false,
    }
}

/// The matches among `lines`, in file order. A line that could not be
/// decoded gives none, and still counts in the numbering.
pub open spec fn matches_in(
    path: Seq<char>,
    lines: Seq<Option<Seq<char>>>,
    pattern: Seq<char>,
) -> Seq<MatchView>
    decreases lines.len(),
{
    if lines.len() == 0 {
        Seq::empty()
    } else {
        let before = matches_in(path, lines.drop_last(), pattern);
        if line_matches(lines.last(), pattern) {
            before.push(MatchView { path, line: lines.len(), content: lines.last().unwrap() })
        } else {
            before
        }
    }
}

/// How many of `lines` could not be decoded.
pub open spec fn undecoded(lines: Seq<Option<Seq<char>>>) -> nat
    decreases lines.len(),
{
    if lines.len() == 0 {
        0
    } else {
        undecoded(lines.drop_last()) + if lines.last() is None {
            1nat
        } else {
            0nat
        }
    }
}

/// What searching a file gives: nothing for a file that is not text, the
/// matches among its lines for one that is.
pub open spec fn search_spec(
    path: Seq<char>,
    is_text: bool,
    lines: Seq<Option<Seq<char>>>,
    pattern: Seq<char>,
) -> Seq<MatchView> {
    if is_text {
        matches_in(path, lines, pattern)
    } else {
        Seq::empty()
    }
}

/// What searching one file gave.
#[derive(Debug)]
pub struct Found {
    /// The matches, in file order.
    pub matches: Vec<Match>,
    /// How many lines were passed over because they could not be decoded.
    pub skipped: usize,
}

/// Searches the lines of one file for `pattern`.
///
/// `is_text` says whether the file's first line was taken for text; a file
/// that is not text gives no match, whatever its lines hold. A line that is
/// `None` could not be decoded: it is passed over and counted.
pub fn grep_file(path: &str, is_text: bool, lines: &Vec<Option<String>>, pattern: &str) -> (res:
    Found)
    ensures
        match_views(res.matches@) == search_spec(path@, is_text, line_texts(lines@), pattern@),
        res.skipped == if is_text {
            undecoded(line_texts(lines@))
        } else {
            0
        },
{
    let mut matches: Vec<Match> = Vec::new();
    let mut skipped: usize = 0;
    if !is_text {
        assert(match_views(matches@) =~= Seq::<MatchView>::empty());
        return Found { matches, skipped };
    }
    let ghost all = line_texts(lines@);
    let mut i: usize = 0;
    while i < lines.len()
        invariant
            i <= lines.len(),
            all == line_texts(lines@),
            match_views(matches@) == matches_in(path@, all.take(i as int), pattern@),
            skipped == undecoded(all.take(i as int)),
            skipped <= i,
        decreases lines.len() - i,
    {
        proof {
            assert(all.take(i + 1).drop_last() =~= all.take(i as int));
            assert(all.take(i + 1).last() == all[i as int]);
        }
        let ghost found_before = match_views(matches@);
        match &lines[i] {
            Some(text) => {
                if str_contains(text.as_str(), pattern) {
                    let m = Match { path: path.to_owned(), line: i + 1, content: text.clone() };
                    matches.push(m);
                    assert(match_views(matches@) =~= found_before.push(m@));
                }
            },
            None => {
                skipped = skipped + 1;
            },
        }
        i = i + 1;
    }
    assert(all.take(lines@.len() as int) =~= all);
    Found { matches, skipped }
}

/// The ten digits.
pub open spec fn digits() -> Seq<char> {
    seq!['0', '1', '2', '3', '4', '5', '6', '7', '8', '9']
}

/// `n` written in decimal, without leading zeros.
pub open spec fn decimal(n: nat) -> Seq<char>
    decreases n,
{
    if n < 10 {
        seq![digits()[n as int]]
    } else {
        decimal(n / 10).push(digits()[(n % 10) as int])
    }
}

/// A match as a line of output: path, line number and line, with a colon
/// between them.
pub open spec fn record(m: MatchView) -> Seq<char> {
    m.path + seq![':'] + decimal(m.line) + seq![':'] + m.content
}

/// The digit `d` as text.
fn digit(d: usize) -> (s: &'static str)
    requires
        d < 10,
    ensures
        s@ == seq![digits()[d as int]],
{
    proof {
        reveal_strlit("0");
        reveal_strlit("1");
        reveal_strlit("2");
        reveal_strlit("3");
        reveal_strlit("4");
        reveal_strlit("5");
        reveal_strlit("6");
        reveal_strlit("7");
        reveal_strlit("8");
        reveal_strlit("9");
    }
    let s = if d == 0 {
        "0"
    } else if d == 1 {
        "1"
    } else if d == 2 {
        "2"
    } else if d == 3 {
        "3"
    } else if d == 4 {
        "4"
    } else if d == 5 {
        "5"
    } else if d == 6 {
        "6"
    } else if d == 7 {
        "7"
    } else if d == 8 {
        "8"
    } else {
        "9"
    };
    assert(s@ =~= seq![digits()[d as int]]);
    s
}

/// `n` written in decimal.
pub fn to_decimal(n: usize) -> (s: String)
    ensures
        s@ == decimal(n as nat),
    decreases n,
{
    if n < 10 {
        digit(n).to_owned()
    } else {
        let mut s = to_decimal(n / 10);
        s.append(digit(n % 10));
        proof {
            let d = digits()[(n % 10) as int];
            assert(decimal((n / 10) as nat) + seq![d] =~= decimal((n / 10) as nat).push(d));
        }
        s
    }
}

impl Match {
    /// The match as a line of output, `path:line:content`.
    pub fn render(&self) -> (s: String)
        ensures
            s@ == record(self@),
    {
        let mut s = self.path.clone();
        s.append(":");
        s.append(to_decimal(self.line).as_str());
        s.append(":");
        s.append(self.content.as_str());
        proof {
            reveal_strlit(":");
            assert(":"@ =~= seq![':']);
        }
        s
    }
}

/// A file that is not text gives no match, whatever its lines hold.
pub proof fn lemma_binary_gives_nothing(
    path: Seq<char>,
    lines: Seq<Option<Seq<char>>>,
    pattern: Seq<char>,
)
    ensures
        search_spec(path, false, lines, pattern).len() == 0,
{
}

/// Every match names a line of the file that holds the pattern, and the
/// matches come with strictly increasing line numbers.
pub proof fn lemma_matches_ascend(
    path: Seq<char>,
    lines: Seq<Option<Seq<char>>>,
    pattern: Seq<char>,
)
    ensures
        matches_in(path, lines, pattern).len() <= lines.len(),
        forall|i: int|
            0 <= i < matches_in(path, lines, pattern).len() ==> {
                let m = #[trigger] matches_in(path, lines, pattern)[i];
                &&& m.path == path
                &&& 1 <= m.line <= lines.len()
                &&& lines[m.line - 1] == Some(m.content)
                &&& contains(m.content, pattern)
            },
        forall|i: int, j: int|
            0 <= i < j < matches_in(path, lines, pattern).len() ==> (#[trigger] matches_in(
                path,
                lines,
                pattern,
            )[i]).line < (#[trigger] matches_in(path, lines, pattern)[j]).line,
    decreases lines.len(),
{
    if lines.len() > 0 {
        let shorter = lines.drop_last();
        lemma_matches_ascend(path, shorter, pattern);
        let before = matches_in(path, shorter, pattern);
        let all = matches_in(path, lines, pattern);
        assert forall|i: int| 0 <= i < all.len() implies {
            let m = #[trigger] all[i];
            &&& m.path == path
            &&& 1 <= m.line <= lines.len()
            &&& lines[m.line - 1] == Some(m.content)
            &&& contains(m.content, pattern)
        } by {
            if i < before.len() {
                assert(all[i] == before[i]);
                assert(shorter[before[i].line - 1] == lines[before[i].line - 1]);
            }
        }
        assert forall|i: int, j: int| 0 <= i < j < all.len() implies (#[trigger] all[i]).line < (
        #[trigger] all[j]).line by {
            assert(all[i] == before[i]);
            if j < before.len() {
                assert(all[j] == before[j]);
            }
        }
    }
}

/// Every line that holds the pattern is among the matches.
pub proof fn lemma_no_match_is_missed(
    path: Seq<char>,
    lines: Seq<Option<Seq<char>>>,
    pattern: Seq<char>,
    k: int,
)
    requires
        0 <= k < lines.len(),
        line_matches(lines[k], pattern),
    ensures
        exists|i: int|
            0 <= i < matches_in(path, lines, pattern).len() && (#[trigger] matches_in(
                path,
                lines,
                pattern,
            )[i]).line == k + 1,
    decreases lines.len(),
{
    let all = matches_in(path, lines, pattern);
    let shorter = lines.drop_last();
    let before = matches_in(path, shorter, pattern);
    if k == lines.len() - 1 {
        assert(all[all.len() - 1].line == k + 1);
    } else {
        lemma_no_match_is_missed(path, shorter, pattern, k);
        let i = choose|i: int| 0 <= i < before.len() && (#[trigger] before[i]).line == k + 1;
        assert(all[i] == before[i]);
    }
}

/// Where every line holds the pattern, there is exactly one match for each
/// line, in order: match `k` is line `k + 1`.
pub proof fn lemma_every_line_matches(
    path: Seq<char>,
    lines: Seq<Option<Seq<char>>>,
    pattern: Seq<char>,
)
    requires
        forall|k: int| 0 <= k < lines.len() ==> line_matches(#[trigger] lines[k], pattern),
    ensures
        matches_in(path, lines, pattern).len() == lines.len(),
        forall|k: int|
            0 <= k < lines.len() ==> #[trigger] matches_in(path, lines, pattern)[k] == (MatchView {
                path,
                line: (k + 1) as nat,
                content: lines[k].unwrap(),
            }),
    decreases lines.len(),
{
    if lines.len() > 0 {
        let shorter = lines.drop_last();
        assert forall|k: int| 0 <= k < shorter.len() implies line_matches(
            #[trigger] shorter[k],
            pattern,
        ) by {
            assert(shorter[k] == lines[k]);
        }
        lemma_every_line_matches(path, shorter, pattern);
        let before = matches_in(path, shorter, pattern);
        let all = matches_in(path, lines, pattern);
        assert(line_matches(lines[lines.len() - 1], pattern));
        assert forall|k: int| 0 <= k < lines.len() implies #[trigger] all[k] == (MatchView {
            path,
            line: (k + 1) as nat,
            content: lines[k].unwrap(),
        }) by {
            if k < shorter.len() {
                assert(all[k] == before[k]);
                assert(shorter[k] == lines[k]);
            }
        }
    }
}

/// The empty pattern is held by every line: a text file whose lines can all
/// be decoded gives exactly one match for each line, in order.
pub proof fn lemma_empty_pattern_matches_every_line(
    path: Seq<char>,
    lines: Seq<Option<Seq<char>>>,
)
    requires
        forall|k: int| 0 <= k < lines.len() ==> (#[trigger] lines[k]) is Some,
    ensures
        search_spec(path, true, lines, Seq::empty()).len() == lines.len(),
        forall|k: int|
            0 <= k < lines.len() ==> #[trigger] search_spec(path, true, lines, Seq::empty())[k] == (
            MatchView { path, line: (k + 1) as nat, content: lines[k].unwrap() }),
{
    assert forall|k: int| 0 <= k < lines.len() implies line_matches(
        #[trigger] lines[k],
        Seq::empty(),
    ) by {
        lemma_contains_empty(lines[k].unwrap());
    }
    lemma_every_line_matches(path, lines, Seq::empty());
}

/// Under the empty pattern every line of a text file gives a match but
/// those that could not be decoded.
pub proof fn lemma_empty_pattern_counts(path: Seq<char>, lines: Seq<Option<Seq<char>>>)
    ensures
        search_spec(path, true, lines, Seq::empty()).len() + undecoded(lines) == lines.len(),
    decreases lines.len(),
{
    if lines.len() > 0 {
        lemma_empty_pattern_counts(path, lines.drop_last());
        if lines.last() is Some {
            lemma_contains_empty(lines.last().unwrap());
        }
    }
}

/// A number written in decimal is at least one character long and made of
/// digits only, so the colons of a line of output stand out.
pub proof fn lemma_decimal_is_digits(n: nat)
    ensures
        decimal(n).len() >= 1,
        forall|i: int| 0 <= i < decimal(n).len() ==> '0' <= #[trigger] decimal(n)[i] <= '9',
    decreases n,
{
    if n >= 10 {
        lemma_decimal_is_digits(n / 10);
    }
}

/// A match in a file whose path holds no line break, on a line that holds
/// none, is written out as exactly one line.
pub proof fn lemma_record_is_one_line(m: MatchView)
    requires
        forall|i: int| 0 <= i < m.path.len() ==> m.path[i] != '\n',
        forall|i: int| 0 <= i < m.content.len() ==> m.content[i] != '\n',
    ensures
        forall|i: int| 0 <= i < record(m).len() ==> record(m)[i] != '\n',
{
    lemma_decimal_is_digits(m.line);
    let number = decimal(m.line);
    let head = m.path + seq![':'] + number;
    assert forall|i: int| 0 <= i < record(m).len() implies record(m)[i] != '\n' by {
        if i < m.path.len() {
        } else if i == m.path.len() {
        } else if i < m.path.len() + 1 + number.len() {
            assert(record(m)[i] == number[i - m.path.len() - 1]);
        } else if i == head.len() {
        } else {
            assert(record(m)[i] == m.content[i - head.len() - 1]);
        }
    }
}

} // verus!
