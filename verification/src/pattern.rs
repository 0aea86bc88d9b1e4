//! Glob patterns, as the `glob` crate compiles and matches them.

use vstd::prelude::*;

verus! {

/// `glob::Pattern`, a compiled pattern. Nothing inside it is looked at here.
#[verifier::external_type_specification]
#[verifier::external_body]
pub struct ExPattern(glob::Pattern);

/// `glob::PatternError`, which says why a pattern was refused. Nothing
/// inside it is looked at here.
#[verifier::external_type_specification]
#[verifier::external_body]
pub struct ExPatternError(glob::PatternError);

/// Whether `source` is a pattern that `glob::Pattern::new` accepts, on the
/// platform that the library is built for: a `**` must stand between path
/// separators, and those are the platform's.
pub uninterp spec fn glob_compiles(source: Seq<char>) -> bool;

/// The text that `pattern` was compiled from, which it keeps and hands out
/// through `glob::Pattern::as_str`.
pub uninterp spec fn pattern_source(pattern: glob::Pattern) -> Seq<char>;

/// Whether the pattern compiled from `source` matches the whole of `text`
/// under `glob::Pattern::matches`, on the platform that the library is built
/// for: the crate treats that platform's path separators specially, in a
/// literal character and around `**`.
pub uninterp spec fn glob_matches(source: Seq<char>, text: Seq<char>) -> bool;

/// `glob::Pattern::new` compiles a pattern or refuses it; which of the two
/// depends on the pattern's text alone, and the compiled pattern keeps that
/// text. What the grammar is, is left to the crate.
pub assume_specification[ glob::Pattern::new ](pattern: &str) -> (r: Result<
    glob::Pattern,
    glob::PatternError,
>)
    ensures
        r is Ok <==> glob_compiles(pattern@),
        r matches Ok(compiled) ==> pattern_source(compiled) == pattern@,
;

/// `glob::Pattern::matches` tests a string against a compiled pattern with the
/// crate's default options. Its answer depends on the pattern's text and on
/// the string alone.
pub assume_specification[ glob::Pattern::matches ](pattern: &glob::Pattern, str: &str) -> (r: bool)
    ensures
        r == glob_matches(pattern_source(*pattern), str@),
;

} // verus!
