//! Glob patterns, compiled and matched by the `glob` crate.
//!
//! Verus does not look inside that crate. What this library believes of it is
//! written on the items below and proved nowhere. The crate tells separators
//! from other characters by the platform's rule; this library is for
//! platforms on which `/` is the one separator, and the names below stand for
//! what `glob` decides there.

use vstd::prelude::*;

verus! {

/// `glob::Pattern`, a compiled pattern; opaque to the verifier.
#[verifier::external_type_specification]
#[verifier::external_body]
pub struct ExPattern(glob::Pattern);

/// `glob::PatternError`, the reason a pattern did not compile; opaque to the
/// verifier.
#[verifier::external_type_specification]
#[verifier::external_body]
pub struct ExPatternError(glob::PatternError);

/// The text a compiled pattern was made from: what `glob::Pattern::as_str`
/// returns.
pub uninterp spec fn glob_text(pattern: glob::Pattern) -> Seq<char>;

/// Whether `glob::Pattern::new` accepts `text` as a pattern.
pub uninterp spec fn glob_valid(text: Seq<char>) -> bool;

/// Whether the pattern compiled from `text` matches `path` under the default
/// match options: what `glob::Pattern::matches_path` returns.
pub uninterp spec fn glob_matches(text: Seq<char>, path: Seq<char>) -> bool;

/// Calls `glob::Pattern::new`. Believed: the call succeeds exactly on the
/// texts that `glob_valid` names, and a compiled pattern remembers the text it
/// was made from.
#[verifier::external_body]
pub(crate) fn compile_glob(text: &str) -> (r: Result<glob::Pattern, glob::PatternError>)
    ensures
        r.is_ok() == glob_valid(text@),
        r matches Ok(p) ==> glob_text(p) == text@,
{
    glob::Pattern::new(text)
}

/// Calls `glob::Pattern::as_str`. Believed: it hands back the text the
/// pattern was made from.
#[verifier::external_body]
pub(crate) fn pattern_str(pattern: &glob::Pattern) -> (r: &str)
    ensures
        r@ == glob_text(*pattern),
{
    pattern.as_str()
}

/// Calls `glob::Pattern::matches_path` on the path as text. Believed: the
/// answer depends on the text the pattern was made from and on the path
/// alone.
#[verifier::external_body]
pub(crate) fn pattern_matches(pattern: &glob::Pattern, path: &str) -> (r: bool)
    ensures
        r == glob_matches(glob_text(*pattern), path@),
{
    pattern.matches_path(std::path::Path::new(path))
}

/// Whether some pattern of `texts` matches `path`.
pub open spec fn any_glob_matches(texts: Seq<Seq<char>>, path: Seq<char>) -> bool {
    exists|i: int| 0 <= i < texts.len() && glob_matches(#[trigger] texts[i], path)
}

/// The texts of a list of compiled patterns, in order.
pub open spec fn glob_texts(patterns: Seq<glob::Pattern>) -> Seq<Seq<char>> {
    patterns.map_values(|p: glob::Pattern| glob_text(p))
}

/// Whether any of `patterns` matches `path`.
pub fn matches_any(patterns: &Vec<glob::Pattern>, path: &str) -> (r: bool)
    ensures
        r == any_glob_matches(glob_texts(patterns@), path@),
{
    let mut i: usize = 0;
    while i < patterns.len()
        invariant
            i <= patterns.len(),
            forall|j: int| 0 <= j < i ==> !glob_matches(#[trigger] glob_texts(patterns@)[j], path@),
        decreases patterns.len() - i,
    {
        if pattern_matches(&patterns[i], path) {
            assert(glob_matches(glob_texts(patterns@)[i as int], path@));
            return true;
        }
        i += 1;
    }
    false
}

} // verus!
