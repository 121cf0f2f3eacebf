use vstd::prelude::*;

verus! {

// `regex::Regex` is carried through the library as an opaque value; only the
// trusted wrappers below ever look inside it.
#[verifier::external_type_specification]
#[verifier::external_body]
pub struct ExRegex(regex::Regex);

/// What `regex::Regex::is_match` returns on `haystack` for a regex compiled
/// from the pattern text `pattern` with `RegexBuilder::case_insensitive`
/// set to `fold_case`. Regex matching is deterministic, so the result is a
/// function of these three values alone.
pub uninterp spec fn regex_accepts(pattern: Seq<char>, fold_case: bool, haystack: Seq<char>) -> bool;

/// Whether `regex::RegexBuilder::build` succeeds on the pattern text
/// `pattern` with `case_insensitive` set to `fold_case` and default settings
/// otherwise. Compilation is deterministic — it fails exactly for invalid
/// patterns and for ones whose compiled form exceeds the default size limit
/// — so success is a function of these two values alone.
pub uninterp spec fn regex_compiles(pattern: Seq<char>, fold_case: bool) -> bool;

/// A compiled pattern with regular-expression semantics, immutable for the
/// lifetime of a scan. The compiled regex always comes from compiling
/// `pattern` with case-insensitivity `fold_case`, so what it matches is a
/// function of those two fields; the fields are private and only the trusted
/// constructors below build values of this type.
pub struct Matcher {
    pattern: String,
    fold_case: bool,
    re: regex::Regex,
}

impl Matcher {
    /// The pattern text this matcher was compiled from.
    pub closed spec fn spec_pattern(&self) -> Seq<char> {
        self.pattern@
    }

    /// Whether this matcher was compiled to fold letter case.
    pub closed spec fn spec_fold_case(&self) -> bool {
        self.fold_case
    }

    /// Relies on `regex::RegexBuilder::{new, case_insensitive, build}`:
    /// compiling `pattern` fails exactly when the pattern is invalid or the
    /// compiled regex would exceed the configured size limit; on success the
    /// regex matches according to the pattern and the case flag.
    #[verifier::external_body]
    pub fn new(pattern: &str, fold_case: bool) -> (r: Result<Matcher, String>)
        ensures
            r is Ok <==> regex_compiles(pattern@, fold_case),
            r matches Ok(m) ==> m.spec_pattern() == pattern@ && m.spec_fold_case() == fold_case,
    {
        match regex::RegexBuilder::new(pattern).case_insensitive(fold_case).build() {
            Ok(re) => Ok(Matcher { pattern: pattern.to_owned(), fold_case, re }),
            Err(err) => Err(err.to_string()),
        }
    }

    /// Relies on `regex::Regex::is_match`: returns whether the regex matches
    /// anywhere in `haystack`, a deterministic function of the compiled
    /// pattern and the haystack.
    #[verifier::external_body]
    pub(crate) fn is_match(&self, haystack: &str) -> (r: bool)
        ensures
            r == regex_accepts(self.spec_pattern(), self.spec_fold_case(), haystack@),
    {
        self.re.is_match(haystack)
    }
}

/// Derives the case-insensitive form of a matcher: the same pattern text,
/// recompiled with case folding switched on. Compilation is redone, so it
/// can fail the same way `Matcher::new` can.
pub fn to_case_insensitive(m: &Matcher) -> (r: Result<Matcher, String>)
    ensures
        r is Ok <==> regex_compiles(m.spec_pattern(), true),
        r matches Ok(folded) ==> folded.spec_pattern() == m.spec_pattern()
            && folded.spec_fold_case(),
{
    Matcher::new(m.pattern.as_str(), true)
}

} // verus!
