//! An ignore scope: the rules that one ignore file of one directory states,
//! the ordinary ones apart from the negated ones.

use crate::matcher::glob_valid;
use crate::rule::{is_pattern_spec, rule_of, Rule, RuleView};
use crate::text::trimmed;
use vstd::prelude::*;

verus! {

/// What a scope says, as plain data.
pub struct ScopeView {
    /// The directory that the rules were loaded from.
    pub root: Seq<char>,
    /// The rules that exclude, in file order.
    pub rules: Seq<RuleView>,
    /// The rules that take an exclusion back, in file order.
    pub negated_rules: Seq<RuleView>,
}

/// The rule that a line of an ignore file contributes, if any: none for a
/// comment, a blank line, or a line whose glob the matcher rejects.
pub open spec fn line_rule(line: Seq<char>) -> Option<RuleView> {
    if is_pattern_spec(line) && glob_valid(rule_of(trimmed(line)).glob) {
        Some(rule_of(trimmed(line)))
    } else {
        None
    }
}

/// Whether a line states a rule that the matcher rejects.
pub open spec fn line_rejected(line: Seq<char>) -> bool {
    is_pattern_spec(line) && !glob_valid(rule_of(trimmed(line)).glob)
}

/// The rules that `lines` contribute, in order: the negated ones if
/// `negated`, the others if not.
pub open spec fn rules_of(lines: Seq<Seq<char>>, negated: bool) -> Seq<RuleView>
    decreases lines.len(),
{
    if lines.len() == 0 {
        Seq::empty()
    } else {
        let before = rules_of(lines.drop_last(), negated);
        match line_rule(lines.last()) {
            Some(rule) => if rule.negated == negated {
                before.push(rule)
            } else {
                before
            },
            None => before,
        }
    }
}

/// The positions, counted from 0, of the lines that state a rule which the
/// matcher rejects, in increasing order.
pub open spec fn rejected_lines(lines: Seq<Seq<char>>) -> Seq<usize>
    decreases lines.len(),
{
    if lines.len() == 0 {
        Seq::empty()
    } else {
        let before = rejected_lines(lines.drop_last());
        if line_rejected(lines.last()) {
            before.push((lines.len() - 1) as usize)
        } else {
            before
        }
    }
}

/// The scope that the ignore file with the given lines states for `root`.
pub open spec fn scope_of(root: Seq<char>, lines: Seq<Seq<char>>) -> ScopeView {
    ScopeView { root, rules: rules_of(lines, false), negated_rules: rules_of(lines, true) }
}

/// The lines of a file as plain text.
pub open spec fn texts(lines: Seq<String>) -> Seq<Seq<char>> {
    Seq::new(lines.len(), |i: int| lines[i]@)
}

/// Compiled rules as plain data.
pub open spec fn rule_views(rules: Seq<Rule>) -> Seq<RuleView> {
    Seq::new(rules.len(), |i: int| rules[i]@)
}

/// The rules of one ignore file, bound to the directory the file lies in.
#[derive(Debug)]
pub struct GitIgnore {
    path: String,
    patterns: Vec<Rule>,
    neg_patterns: Vec<Rule>,
}

impl View for GitIgnore {
    type V = ScopeView;

    closed spec fn view(&self) -> ScopeView {
        ScopeView {
            root: self.path@,
            rules: rule_views(self.patterns@),
            negated_rules: rule_views(self.neg_patterns@),
        }
    }
}

impl GitIgnore {
    #[verifier::type_invariant]
    spec fn inv(self) -> bool {
        &&& forall|i: int|
            0 <= i < self.patterns@.len() ==> !(#[trigger] self.patterns@[i])@.negated
        &&& forall|i: int|
            0 <= i < self.neg_patterns@.len() ==> (#[trigger] self.neg_patterns@[i])@.negated
    }

    /// Builds the scope of the directory `root` from the lines of one of its
    /// ignore files.
    ///
    /// Comments and blank lines are passed over. A line whose glob the
    /// matcher rejects is left out and reported by its position; the lines
    /// after it are still read.
    pub fn from_lines(root: String, lines: &Vec<String>) -> (res: (GitIgnore, Vec<usize>))
        ensures
            res.0@ == scope_of(root@, texts(lines@)),
            res.1@ == rejected_lines(texts(lines@)),
    {
        let mut patterns: Vec<Rule> = Vec::new();
        let mut neg_patterns: Vec<Rule> = Vec::new();
        let mut rejected: Vec<usize> = Vec::new();
        let ghost all = texts(lines@);
        let mut i: usize = 0;
        while i < lines.len()
            invariant
                i <= lines.len(),
                all == texts(lines@),
                rule_views(patterns@) == rules_of(all.take(i as int), false),
                rule_views(neg_patterns@) == rules_of(all.take(i as int), true),
                rejected@ == rejected_lines(all.take(i as int)),
                forall|k: int| 0 <= k < patterns@.len() ==> !(#[trigger] patterns@[k])@.negated,
                forall|k: int|
                    0 <= k < neg_patterns@.len() ==> (#[trigger] neg_patterns@[k])@.negated,
            decreases lines.len() - i,
        {
            proof {
                assert(all.take(i + 1).drop_last() =~= all.take(i as int));
                assert(all.take(i + 1).last() == lines@[i as int]@);
            }
            let ghost before = patterns@;
            let ghost neg_before = neg_patterns@;
            match Rule::new(lines[i].as_str()) {
                Ok(None) => {},
                Ok(Some(rule)) => {
                    if rule.negated() {
                        neg_patterns.push(rule);
                        assert(rule_views(neg_patterns@) =~= rule_views(neg_before).push(rule@));
                    } else {
                        patterns.push(rule);
                        assert(rule_views(patterns@) =~= rule_views(before).push(rule@));
                    }
                },
                Err(_) => {
                    rejected.push(i);
                },
            }
            i = i + 1;
        }
        assert(all.take(lines@.len() as int) =~= all);
        (GitIgnore { path: root, patterns, neg_patterns }, rejected)
    }

    /// The directory that the rules were loaded from.
    pub fn root(&self) -> (res: &str)
        ensures
            res@ == self@.root,
    {
        self.path.as_str()
    }

    /// The rules that exclude, in file order.
    pub fn rules(&self) -> (res: &Vec<Rule>)
        ensures
            rule_views(res@) == self@.rules,
            forall|i: int| 0 <= i < res@.len() ==> !(#[trigger] res@[i])@.negated,
    {
        proof {
            use_type_invariant(self);
        }
        &self.patterns
    }

    /// The rules that take an exclusion back, in file order.
    pub fn negated_rules(&self) -> (res: &Vec<Rule>)
        ensures
            rule_views(res@) == self@.negated_rules,
            forall|i: int| 0 <= i < res@.len() ==> (#[trigger] res@[i])@.negated,
    {
        proof {
            use_type_invariant(self);
        }
        &self.neg_patterns
    }
}

/// A comment or a blank line adds no rule to a scope and is not reported
/// as rejected.
pub proof fn lemma_comment_adds_no_rule(lines: Seq<Seq<char>>, line: Seq<char>, negated: bool)
    requires
        !is_pattern_spec(line),
    ensures
        line_rule(line) is None,
        rules_of(lines.push(line), negated) == rules_of(lines, negated),
        rejected_lines(lines.push(line)) == rejected_lines(lines),
{
    assert(lines.push(line).drop_last() =~= lines);
}

/// The rules of a scope are kept apart: the ordinary ones are not negated,
/// the negated ones are.
pub proof fn lemma_rules_are_partitioned(lines: Seq<Seq<char>>, negated: bool)
    ensures
        forall|i: int|
            0 <= i < rules_of(lines, negated).len() ==> (#[trigger] rules_of(
                lines,
                negated,
            )[i]).negated == negated,
    decreases lines.len(),
{
    if lines.len() > 0 {
        lemma_rules_are_partitioned(lines.drop_last(), negated);
        let before = rules_of(lines.drop_last(), negated);
        let all = rules_of(lines, negated);
        assert forall|i: int| 0 <= i < all.len() implies (#[trigger] all[i]).negated
            == negated by {
            if i < before.len() {
                assert(all[i] == before[i]);
            }
        }
    }
}

} // verus!
