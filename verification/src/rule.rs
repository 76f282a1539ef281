//! The rule compiler: one line of an ignore file becomes one rule, made of
//! a few flags and a glob that the `glob` crate compiles and matches.

use crate::matcher::{
    compile_glob, compiled_text, glob_match, glob_matches_with, glob_source, glob_valid,
};
use crate::text::{trim, trimmed};
use vstd::prelude::*;

verus! {

/// Whether a line of an ignore file states a rule: it does not start with
/// `#` and is not blank.
pub open spec fn is_pattern_spec(line: Seq<char>) -> bool {
    &&& !(line.len() > 0 && line[0] == '#')
    &&& trimmed(line).len() > 0
}

/// Whether `line` states a rule, as opposed to a comment or a blank line.
pub fn is_pattern(line: &str) -> (res: bool)
    ensures
        res == is_pattern_spec(line@),
{
    if line.unicode_len() > 0 && line.get_char(0) == '#' {
        return false;
    }
    if trim(line).unicode_len() == 0 {
        return false;
    }
    true
}

/// What a rule says, as plain data.
pub struct RuleView {
    /// The line began with `!`: the rule takes back what another rule of the
    /// same scope excluded.
    pub negated: bool,
    /// The line (after `!`) began with `/`: the rule applies directly under
    /// the directory of its scope, not at any depth.
    pub anchored: bool,
    /// The line ended with `/`: the rule names a directory, and covers what
    /// lies inside it.
    pub dir_only: bool,
    /// The glob handed to the matcher.
    pub glob: Seq<char>,
    /// The line the rule was written as, trimmed.
    pub source: Seq<char>,
}

/// The part of a trimmed line that is left once a leading `!` is removed.
pub open spec fn after_negation(text: Seq<char>) -> Seq<char> {
    if text.len() > 0 && text[0] == '!' {
        text.drop_first()
    } else {
        text
    }
}

/// The part of a trimmed line that names paths: the line without a leading
/// `!` and without the `/` that anchors it.
pub open spec fn rule_body(text: Seq<char>) -> Seq<char> {
    let rest = after_negation(text);
    if rest.len() > 0 && rest[0] == '/' {
        rest.drop_first()
    } else {
        rest
    }
}

/// The rule that a trimmed line states.
///
/// A rule that is not anchored may match at any depth, so its glob starts
/// with `**/`. A rule for a directory also covers all that lies inside the
/// directory, at any depth, so its glob ends with `**`.
pub open spec fn rule_of(text: Seq<char>) -> RuleView {
    let rest = after_negation(text);
    let anchored = rest.len() > 0 && rest[0] == '/';
    let body = rule_body(text);
    let dir_only = body.len() > 0 && body.last() == '/';
    let prefix = if anchored {
        Seq::<char>::empty()
    } else {
        seq!['*', '*', '/']
    };
    let suffix = if dir_only {
        seq!['*', '*']
    } else {
        Seq::<char>::empty()
    };
    RuleView {
        negated: text.len() > 0 && text[0] == '!',
        anchored,
        dir_only,
        glob: prefix + body + suffix,
        source: text,
    }
}

/// A line of an ignore file, taken apart: the flags it sets and the glob it
/// stands for, not yet compiled.
#[derive(Debug)]
pub struct Directive {
    negated: bool,
    anchored: bool,
    dir_only: bool,
    glob: String,
    source: String,
}

impl View for Directive {
    type V = RuleView;

    closed spec fn view(&self) -> RuleView {
        RuleView {
            negated: self.negated,
            anchored: self.anchored,
            dir_only: self.dir_only,
            glob: self.glob@,
            source: self.source@,
        }
    }
}

impl Directive {
    #[verifier::type_invariant]
    spec fn inv(self) -> bool {
        self@ == rule_of(self.source@)
    }

    /// Takes a trimmed line apart.
    pub fn parse(text: &str) -> (d: Directive)
        ensures
            d@ == rule_of(text@),
    {
        let n: usize = text.unicode_len();
        let negated = n > 0 && text.get_char(0) == '!';
        let after_bang: usize = if negated {
            1
        } else {
            0
        };
        let anchored = after_bang < n && text.get_char(after_bang) == '/';
        let start: usize = if anchored {
            after_bang + 1
        } else {
            after_bang
        };
        let dir_only = start < n && text.get_char(n - 1) == '/';
        let body = text.substring_char(start, n);
        let mut glob = String::new();
        if !anchored {
            glob.append("**/");
        }
        glob.append(body);
        if dir_only {
            glob.append("**");
        }
        proof {
            reveal_strlit("**/");
            reveal_strlit("**");
            assert("**/"@ =~= seq!['*', '*', '/']);
            assert("**"@ =~= seq!['*', '*']);
            assert(body@ =~= rule_body(text@));
            assert(glob@ =~= rule_of(text@).glob);
        }
        Directive { negated, anchored, dir_only, glob, source: text.to_owned() }
    }

    /// Whether the rule takes back what another rule excluded.
    pub fn negated(&self) -> (res: bool)
        ensures
            res == self@.negated,
    {
        self.negated
    }

    /// Whether the rule applies only directly under its scope's directory.
    pub fn anchored(&self) -> (res: bool)
        ensures
            res == self@.anchored,
    {
        self.anchored
    }

    /// Whether the rule names a directory.
    pub fn dir_only(&self) -> (res: bool)
        ensures
            res == self@.dir_only,
    {
        self.dir_only
    }

    /// The glob that the rule stands for.
    pub fn glob(&self) -> (res: &str)
        ensures
            res@ == self@.glob,
            self@ == rule_of(self@.source),
    {
        proof {
            use_type_invariant(self);
        }
        self.glob.as_str()
    }

    /// The trimmed line that the rule was written as.
    pub fn source(&self) -> (res: &str)
        ensures
            res@ == self@.source,
            self@ == rule_of(self@.source),
    {
        proof {
            use_type_invariant(self);
        }
        self.source.as_str()
    }
}

/// Why a line that states a rule could not be compiled.
#[derive(Debug)]
pub enum CompileError {
    /// The glob that the line stands for is malformed; the matcher's own
    /// account of the fault is carried along.
    InvalidPattern(glob::PatternError),
}

/// The matcher's verdict for a rule on a path: globs are matched with
/// regard to case, `*` and `?` stop at a separator, and a leading dot of a
/// path component must be written out in the rule.
pub open spec fn rule_matches(rule: RuleView, path: Seq<char>) -> bool {
    glob_match(rule.glob, path, true, true, true)
}

/// A compiled rule.
#[derive(Debug)]
pub struct Rule {
    negated: bool,
    anchored: bool,
    dir_only: bool,
    compiled: glob::Pattern,
    source: String,
}

impl View for Rule {
    type V = RuleView;

    closed spec fn view(&self) -> RuleView {
        RuleView {
            negated: self.negated,
            anchored: self.anchored,
            dir_only: self.dir_only,
            glob: glob_source(self.compiled),
            source: self.source@,
        }
    }
}

impl Rule {
    #[verifier::type_invariant]
    spec fn inv(self) -> bool {
        self@ == rule_of(self.source@)
    }

    /// Joins a parsed line with what the matcher made of its glob.
    pub fn from_compiled(
        directive: Directive,
        compiled: Result<glob::Pattern, glob::PatternError>,
    ) -> (res: Result<Rule, CompileError>)
        requires
            compiled matches Ok(c) ==> glob_source(c) == directive@.glob,
        ensures
            match res {
                Ok(p) => compiled is Ok && p@ == directive@,
                Err(e) => compiled matches Err(cause) && e == CompileError::InvalidPattern(cause),
            },
    {
        proof {
            use_type_invariant(&directive);
        }
        match compiled {
            Ok(compiled) => Ok(
                Rule {
                    negated: directive.negated,
                    anchored: directive.anchored,
                    dir_only: directive.dir_only,
                    compiled,
                    source: directive.source,
                },
            ),
            Err(cause) => Err(CompileError::InvalidPattern(cause)),
        }
    }

    /// Compiles one line of an ignore file.
    ///
    /// A comment or a blank line states no rule and gives `Ok(None)`. Any
    /// other line is trimmed and taken apart; it gives its rule when the
    /// matcher accepts the glob, and `InvalidPattern` when it does not.
    pub fn new(line: &str) -> (res: Result<Option<Rule>, CompileError>)
        ensures
            match res {
                Ok(None) => !is_pattern_spec(line@),
                Ok(Some(p)) => {
                    &&& is_pattern_spec(line@)
                    &&& glob_valid(rule_of(trimmed(line@)).glob)
                    &&& p@ == rule_of(trimmed(line@))
                },
                Err(e) => {
                    &&& is_pattern_spec(line@)
                    &&& !glob_valid(rule_of(trimmed(line@)).glob)
                    &&& e is InvalidPattern
                },
            },
    {
        if !is_pattern(line) {
            return Ok(None);
        }
        let directive = Directive::parse(trim(line));
        let compiled = compile_glob(directive.glob());
        match Rule::from_compiled(directive, compiled) {
            Ok(p) => Ok(Some(p)),
            Err(e) => Err(e),
        }
    }

    /// Whether the rule matches `target`, a path written with `/`.
    pub fn matches(&self, target: &str) -> (res: bool)
        ensures
            res == rule_matches(self@, target@),
    {
        glob_matches_with(&self.compiled, target, true, true, true)
    }

    /// Whether the rule takes back what another rule excluded.
    pub fn negated(&self) -> (res: bool)
        ensures
            res == self@.negated,
    {
        self.negated
    }

    /// Whether the rule applies only directly under its scope's directory.
    pub fn anchored(&self) -> (res: bool)
        ensures
            res == self@.anchored,
    {
        self.anchored
    }

    /// Whether the rule names a directory.
    pub fn dir_only(&self) -> (res: bool)
        ensures
            res == self@.dir_only,
    {
        self.dir_only
    }

    /// The glob that the rule was compiled from.
    pub fn glob(&self) -> (res: &str)
        ensures
            res@ == self@.glob,
            self@ == rule_of(self@.source),
    {
        proof {
            use_type_invariant(self);
        }
        compiled_text(&self.compiled)
    }

    /// The trimmed line that the rule was written as.
    pub fn source(&self) -> (res: &str)
        ensures
            res@ == self@.source,
            self@ == rule_of(self@.source),
    {
        proof {
            use_type_invariant(self);
        }
        self.source.as_str()
    }
}

} // verus!
