//! Regular-expression matching through the `regex` crate.

use vstd::prelude::*;

use crate::text::has_text;

verus! {

#[verifier::external_type_specification]
#[verifier::external_body]
pub struct ExRegex(regex::Regex);

#[verifier::external_type_specification]
#[verifier::external_body]
pub struct ExRegexError(regex::Error);

/// Whether `regex::Regex::new` accepts `pattern` (under its default limits).
pub uninterp spec fn regex_compiles(pattern: Seq<char>) -> bool;

/// Whether the regular expression written `pattern` matches somewhere in `haystack`.
pub uninterp spec fn regex_finds(pattern: Seq<char>, haystack: Seq<char>) -> bool;

/// A compiled regular expression, with the pattern it was compiled from.
pub struct Matcher {
    regex: regex::Regex,
    source: String,
}

impl Matcher {
    /// The pattern this matcher was compiled from.
    pub closed spec fn pattern(&self) -> Seq<char> {
        self.source@
    }
}

/// Compiles `pattern` with `regex::Regex::new`.
/// Trusted: `Regex::new` fails or succeeds depending on the pattern alone,
/// which `regex_compiles` names; per its documentation it fails only on an
/// invalid pattern or one over the default size limit, so the two short,
/// valid patterns `^OK$` and `file|directory|playlist` compile. On success the
/// matcher keeps the pattern next to the compiled expression, and nothing
/// else ever builds a `Matcher`.
#[verifier::external_body]
pub(crate) fn compile(pattern: &str) -> (r: Result<Matcher, regex::Error>)
    ensures
        r is Ok <==> regex_compiles(pattern@),
        r matches Ok(m) ==> m.pattern() == pattern@,
        pattern@ == "^OK$"@ ==> r is Ok,
        pattern@ == "file|directory|playlist"@ ==> r is Ok,
{
    match regex::Regex::new(pattern) {
        Ok(regex) => Ok(Matcher { regex, source: pattern.to_string() }),
        Err(e) => Err(e),
    }
}

/// Tests `haystack` with `regex::Regex::is_match`.
/// Trusted: per its documentation `is_match` returns true exactly when the
/// expression matches anywhere in the haystack; the answer depends on the
/// compiled pattern and the haystack alone, which `regex_finds` names. Per
/// the documented syntax, literal characters match themselves and `x|y`
/// matches what `x` or `y` matches, and, with no flags set, `^` and `$`
/// match only at the start and at the end of the haystack. So `^OK$`
/// matches exactly the haystack `OK`, and `file|directory|playlist` exactly
/// the haystacks holding one of the three words. Of other patterns nothing
/// but the name is stated.
#[verifier::external_body]
pub(crate) fn is_match(m: &Matcher, haystack: &str) -> (b: bool)
    ensures
        b == regex_finds(m.pattern(), haystack@),
        m.pattern() == "^OK$"@ ==> (b <==> haystack@ == "OK"@),
        m.pattern() == "file|directory|playlist"@ ==> (b <==> has_text(haystack@, "file"@)
            || has_text(haystack@, "directory"@) || has_text(haystack@, "playlist"@)),
{
    m.regex.is_match(haystack)
}

} // verus!
