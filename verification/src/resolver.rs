//! The resolver: whether a path is ignored, given the scopes of the
//! directories above it. The nearest scope that has a rule for the path
//! decides; a negated rule takes back only what a rule of its own scope
//! excluded.
//!
//! Ignore files of directories at different levels are neither merged nor
//! do they shadow one another as wholes: each gives a scope of its own, and
//! a scope that has no rule for a path leaves the path to the scopes below
//! it. A path is matched as it is seen from the directory of the scope, so
//! an anchored rule applies directly under that directory wherever the
//! walk started.

use crate::paths::{
    are_components, descend, in_dir, in_dir_spec, lemma_seen_from_above, relative, relative_spec,
    spelled,
};
use crate::rule::{rule_matches, Rule, RuleView};
use crate::scope::{rule_views, GitIgnore, ScopeView};
use crate::text::chars_of;
use vstd::prelude::*;

verus! {

/// What one scope says of one path.
#[derive(Debug, Clone, Copy, PartialEq, Eq, Structural)]
pub enum Verdict {
    /// A rule of the scope excludes the path and none takes that back.
    Ignored,
    /// A rule of the scope excludes the path and a negated rule of the same
    /// scope takes that back.
    Reincluded,
    /// The scope has nothing to say of the path.
    Undecided,
}

/// The verdict of a scope, given whether one of its rules excludes the path
/// and whether one of its negated rules matches it. A negated rule counts
/// only where a rule excludes.
pub open spec fn decide(excluded: bool, reincluded: bool) -> Verdict {
    if !excluded {
        Verdict::Undecided
    } else if reincluded {
        Verdict::Reincluded
    } else {
        Verdict::Ignored
    }
}

/// Whether one of `rules` matches `text`.
pub open spec fn any_match(rules: Seq<RuleView>, text: Seq<char>) -> bool {
    exists|i: int| 0 <= i < rules.len() && rule_matches(#[trigger] rules[i], text)
}

/// The text that the rules of the scope at `root` are matched against for
/// `target`: the path as seen from `root`, with a separator at its end when
/// it names a directory.
pub open spec fn match_text(root: Seq<char>, target: Seq<char>, is_dir: bool) -> Seq<char> {
    let seen = relative_spec(root, target);
    if is_dir {
        seen.push('/')
    } else {
        seen
    }
}

/// What `scope` says of `target`. A scope says nothing of a path outside
/// the directory it was loaded from.
pub open spec fn verdict_spec(scope: ScopeView, target: Seq<char>, is_dir: bool) -> Verdict {
    if !in_dir_spec(scope.root, target) {
        Verdict::Undecided
    } else {
        let text = match_text(scope.root, target, is_dir);
        decide(any_match(scope.rules, text), any_match(scope.negated_rules, text))
    }
}

/// Whether the stack of scopes, the nearest one last, excludes `target`:
/// the verdict of the nearest scope that is not undecided, and `false` when
/// every scope is undecided.
pub open spec fn stack_verdict(scopes: Seq<ScopeView>, target: Seq<char>, is_dir: bool) -> bool
    decreases scopes.len(),
{
    if scopes.len() == 0 {
        false
    } else {
        match verdict_spec(scopes.last(), target, is_dir) {
            Verdict::Ignored => true,
            Verdict::Reincluded => false,
            Verdict::Undecided => stack_verdict(scopes.drop_last(), target, is_dir),
        }
    }
}

/// Whether `target` is a directory whose last component is `.git`.
pub open spec fn is_vcs_dir(target: Seq<char>, is_dir: bool) -> bool {
    let n = target.len() as int;
    &&& is_dir
    &&& n >= 4
    &&& target.subrange(n - 4, n) == seq!['.', 'g', 'i', 't']
    &&& (n == 4 || target[n - 5] == '/')
}

/// Whether `target` is ignored under `scopes`, the nearest scope last. The
/// version control directory is ignored whatever the rules say.
pub open spec fn ignored_spec(target: Seq<char>, is_dir: bool, scopes: Seq<ScopeView>) -> bool {
    is_vcs_dir(target, is_dir) || stack_verdict(scopes, target, is_dir)
}

/// Scopes as plain data.
pub open spec fn scope_views(scopes: Seq<GitIgnore>) -> Seq<ScopeView> {
    Seq::new(scopes.len(), |i: int| scopes[i]@)
}

/// The verdict of a scope, given whether one of its rules excludes the path
/// and whether one of its negated rules matches it.
pub fn scope_verdict(excluded: bool, reincluded: bool) -> (v: Verdict)
    ensures
        v == decide(excluded, reincluded),
{
    if !excluded {
        Verdict::Undecided
    } else if reincluded {
        Verdict::Reincluded
    } else {
        Verdict::Ignored
    }
}

/// Whether one of `rules` matches `text`.
pub fn any_rule_matches(rules: &Vec<Rule>, text: &str) -> (res: bool)
    ensures
        res == any_match(rule_views(rules@), text@),
{
    let mut i: usize = 0;
    while i < rules.len()
        invariant
            i <= rules.len(),
            forall|k: int| 0 <= k < i ==> !rule_matches(#[trigger] rule_views(rules@)[k], text@),
        decreases rules.len() - i,
    {
        if rules[i].matches(text) {
            assert(rule_matches(rule_views(rules@)[i as int], text@));
            return true;
        }
        i = i + 1;
    }
    false
}

/// What `scope` says of `target`.
pub fn verdict(scope: &GitIgnore, target: &str, is_dir: bool) -> (v: Verdict)
    ensures
        v == verdict_spec(scope@, target@, is_dir),
{
    if !in_dir(scope.root(), target) {
        return Verdict::Undecided;
    }
    let seen = relative(scope.root(), target);
    let mut text = seen.to_owned();
    if is_dir {
        text.append("/");
        proof {
            reveal_strlit("/");
            assert("/"@ =~= seq!['/']);
            assert(seen@ + seq!['/'] =~= seen@.push('/'));
        }
    }
    let excluded = any_rule_matches(scope.rules(), text.as_str());
    let reincluded = excluded && any_rule_matches(scope.negated_rules(), text.as_str());
    scope_verdict(excluded, reincluded)
}

/// Whether `target` is a directory whose last component is `.git`.
pub fn vcs_dir(target: &str, is_dir: bool) -> (res: bool)
    ensures
        res == is_vcs_dir(target@, is_dir),
{
    if !is_dir {
        return false;
    }
    let t = chars_of(target);
    let n: usize = t.len();
    if n < 4 {
        return false;
    }
    let named = t[n - 4] == '.' && t[n - 3] == 'g' && t[n - 2] == 'i' && t[n - 1] == 't';
    proof {
        let tail = target@.subrange(n - 4, n as int);
        if named {
            assert(tail =~= seq!['.', 'g', 'i', 't']);
        } else {
            assert(tail[0] == t@[n - 4] && tail[1] == t@[n - 3] && tail[2] == t@[n - 2] && tail[3]
                == t@[n - 1]);
        }
    }
    named && (n == 4 || t[n - 5] == '/')
}

/// Whether `target` is ignored under `gitignores`, the scopes of the
/// directories above it, the nearest one last.
pub fn ignored(target: &str, is_dir: bool, gitignores: &Vec<GitIgnore>) -> (res: bool)
    ensures
        res == ignored_spec(target@, is_dir, scope_views(gitignores@)),
{
    if vcs_dir(target, is_dir) {
        return true;
    }
    let ghost all = scope_views(gitignores@);
    let mut i: usize = gitignores.len();
    assert(all.take(i as int) =~= all);
    while i > 0
        invariant
            i <= gitignores.len(),
            all == scope_views(gitignores@),
            !is_vcs_dir(target@, is_dir),
            stack_verdict(all, target@, is_dir) == stack_verdict(
                all.take(i as int),
                target@,
                is_dir,
            ),
        decreases i,
    {
        i = i - 1;
        proof {
            assert(all.take(i + 1).drop_last() =~= all.take(i as int));
            assert(all.take(i + 1).last() == gitignores@[i as int]@);
        }
        match verdict(&gitignores[i], target, is_dir) {
            Verdict::Ignored => {
                return true;
            },
            Verdict::Reincluded => {
                return false;
            },
            Verdict::Undecided => {},
        }
    }
    false
}

/// A scope that is undecided on a path leaves the verdict to the scopes
/// below it.
pub proof fn lemma_undecided_scope_defers(
    scopes: Seq<ScopeView>,
    scope: ScopeView,
    target: Seq<char>,
    is_dir: bool,
)
    requires
        verdict_spec(scope, target, is_dir) == Verdict::Undecided,
    ensures
        stack_verdict(scopes.push(scope), target, is_dir) == stack_verdict(scopes, target, is_dir),
{
    assert(scopes.push(scope).drop_last() =~= scopes);
}

/// A scope that was loaded from another subtree is not consulted: with or
/// without it, the verdict is the same.
pub proof fn lemma_scope_elsewhere_is_not_consulted(
    scopes: Seq<ScopeView>,
    scope: ScopeView,
    target: Seq<char>,
    is_dir: bool,
)
    requires
        !in_dir_spec(scope.root, target),
    ensures
        stack_verdict(scopes.push(scope), target, is_dir) == stack_verdict(scopes, target, is_dir),
{
    lemma_undecided_scope_defers(scopes, scope, target, is_dir);
}

/// Negation stays in its scope: a scope none of whose ordinary rules
/// matches a path cannot change what the scopes below it say of the path,
/// whatever its negated rules are.
pub proof fn lemma_negation_stays_in_its_scope(
    parents: Seq<ScopeView>,
    child: ScopeView,
    target: Seq<char>,
    is_dir: bool,
)
    requires
        !any_match(child.rules, match_text(child.root, target, is_dir)),
    ensures
        stack_verdict(parents.push(child), target, is_dir) == stack_verdict(
            parents,
            target,
            is_dir,
        ),
{
    lemma_undecided_scope_defers(parents, child, target, is_dir);
}

/// The nearest scope decides: where it has a rule for the path, the path
/// is ignored unless a negated rule of that same scope matches too, and the
/// scopes below are not asked.
pub proof fn lemma_nearest_scope_decides(
    scopes: Seq<ScopeView>,
    scope: ScopeView,
    target: Seq<char>,
    is_dir: bool,
)
    requires
        in_dir_spec(scope.root, target),
        any_match(scope.rules, match_text(scope.root, target, is_dir)),
    ensures
        stack_verdict(scopes.push(scope), target, is_dir) == !any_match(
            scope.negated_rules,
            match_text(scope.root, target, is_dir),
        ),
{
    assert(scopes.push(scope).drop_last() =~= scopes);
}

/// Without scopes only the version control directory is ignored.
pub proof fn lemma_no_scopes(target: Seq<char>, is_dir: bool)
    ensures
        ignored_spec(target, is_dir, Seq::empty()) == is_vcs_dir(target, is_dir),
{
}

/// What is matched for a path that lies below a directory through the
/// entries `names`: the names with a separator between them, and one more
/// separator when the path names a directory.
pub open spec fn text_below(names: Seq<Seq<char>>, is_dir: bool) -> Seq<char> {
    if is_dir {
        spelled(names).push('/')
    } else {
        spelled(names)
    }
}

/// A scope judges a path below its directory by the way from that
/// directory down to the path, and not by where the directory lies or how
/// it is written. So a rule that is anchored applies under the root of its
/// own scope: its glob is held against the names below that root, and the
/// same names below another root are judged alike.
pub proof fn lemma_scope_judges_from_its_root(
    scope: ScopeView,
    names: Seq<Seq<char>>,
    is_dir: bool,
)
    requires
        are_components(names),
    ensures
        match_text(scope.root, descend(scope.root, names), is_dir) == text_below(names, is_dir),
        verdict_spec(scope, descend(scope.root, names), is_dir) == decide(
            any_match(scope.rules, text_below(names, is_dir)),
            any_match(scope.negated_rules, text_below(names, is_dir)),
        ),
{
    lemma_seen_from_above(scope.root, names);
}

/// Two scopes with the same rules, wherever they lie, say the same of the
/// paths that lie below each through the same names.
pub proof fn lemma_verdict_does_not_depend_on_the_root(
    here: ScopeView,
    there: ScopeView,
    names: Seq<Seq<char>>,
    is_dir: bool,
)
    requires
        are_components(names),
        here.rules == there.rules,
        here.negated_rules == there.negated_rules,
    ensures
        verdict_spec(here, descend(here.root, names), is_dir) == verdict_spec(
            there,
            descend(there.root, names),
            is_dir,
        ),
{
    lemma_scope_judges_from_its_root(here, names, is_dir);
    lemma_scope_judges_from_its_root(there, names, is_dir);
}

/// Under one scope alone, a path below the scope's directory that is not
/// the version control directory is ignored exactly when a rule of the
/// scope matches the names that lead down to it and no negated rule does,
/// wherever the scope lies.
pub proof fn lemma_lone_scope_judges_from_its_root(
    scope: ScopeView,
    names: Seq<Seq<char>>,
    is_dir: bool,
)
    requires
        are_components(names),
        !is_vcs_dir(descend(scope.root, names), is_dir),
    ensures
        ignored_spec(descend(scope.root, names), is_dir, seq![scope]) == (any_match(
            scope.rules,
            text_below(names, is_dir),
        ) && !any_match(scope.negated_rules, text_below(names, is_dir))),
{
    lemma_scope_judges_from_its_root(scope, names, is_dir);
    let stack = seq![scope];
    assert(stack.last() == scope);
    assert(stack.drop_last().len() == 0);
    assert(!stack_verdict(stack.drop_last(), descend(scope.root, names), is_dir));
}

} // verus!
