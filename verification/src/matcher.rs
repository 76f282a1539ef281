//! The boundary to the `glob` crate: its compiled pattern and its error as
//! opaque types, names for what its functions return, and one wrapper for
//! each function that the library calls.

use vstd::prelude::*;

verus! {

/// Trusted: `glob::Pattern`, a compiled glob. Nothing is known of a value
/// but what the names below say of it.
#[verifier::external_type_specification]
#[verifier::external_body]
pub struct ExGlobPattern(glob::Pattern);

/// Trusted: `glob::PatternError`, the matcher's account of a malformed
/// glob. It is carried along and never looked into.
#[verifier::external_type_specification]
#[verifier::external_body]
pub struct ExGlobPatternError(glob::PatternError);

/// The text that a compiled glob was compiled from, which
/// `glob::Pattern::as_str` hands back.
pub uninterp spec fn glob_source(compiled: glob::Pattern) -> Seq<char>;

/// Whether `glob::Pattern::new` accepts `text` as a glob.
pub uninterp spec fn glob_valid(text: Seq<char>) -> bool;

/// Whether the glob compiled from `text` matches `path` under the given
/// `glob::MatchOptions`, as `glob::Pattern::matches_with` decides it. What
/// counts as a separator is fixed by the platform the library is built for.
pub uninterp spec fn glob_match(
    text: Seq<char>,
    path: Seq<char>,
    case_sensitive: bool,
    literal_separator: bool,
    literal_leading_dot: bool,
) -> bool;

/// Trusted: `glob::Pattern::new`. Whether it succeeds depends on the text
/// alone, and the compiled glob keeps the text it was given.
#[verifier::external_body]
pub(crate) fn compile_glob(text: &str) -> (res: Result<glob::Pattern, glob::PatternError>)
    ensures
        res is Ok <==> glob_valid(text@),
        res matches Ok(compiled) ==> glob_source(compiled) == text@,
{
    glob::Pattern::new(text)
}

/// Trusted: `glob::Pattern::as_str`. The result is the text the glob was
/// compiled from.
#[verifier::external_body]
pub(crate) fn compiled_text(compiled: &glob::Pattern) -> (text: &str)
    ensures
        text@ == glob_source(*compiled),
{
    compiled.as_str()
}

/// Trusted: `glob::Pattern::matches_with`. The result depends only on the
/// text the glob was compiled from, on the path and on the three options:
/// the compiled form is computed from the text and from nothing else.
#[verifier::external_body]
pub(crate) fn glob_matches_with(
    compiled: &glob::Pattern,
    path: &str,
    case_sensitive: bool,
    literal_separator: bool,
    literal_leading_dot: bool,
) -> (res: bool)
    ensures
        res == glob_match(
            glob_source(*compiled),
            path@,
            case_sensitive,
            literal_separator,
            literal_leading_dot,
        ),
{
    compiled.matches_with(
        path,
        glob::MatchOptions {
            case_sensitive,
            require_literal_separator: literal_separator,
            require_literal_leading_dot: literal_leading_dot,
        },
    )
}

} // verus!
