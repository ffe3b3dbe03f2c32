//! The file-name filter: a regular expression, compiled once, that a file's
//! base name must match for the file to be scanned.

use vstd::prelude::*;

verus! {

#[verifier::external_type_specification]
#[verifier::external_body]
pub struct ExRegex(regex::Regex);

#[verifier::external_type_specification]
#[verifier::external_body]
pub struct ExRegexError(regex::Error);

/// Whether `pattern` is a regular expression that compiles: whether
/// `regex::Regex::new` returns a regex for it. A pattern compiles if it
/// parses and the compiled program stays within the default size limit.
pub uninterp spec fn pattern_compiles(pattern: Seq<char>) -> bool;

/// Whether the regular expression written as `pattern` matches somewhere in
/// `text`: the value of `regex::Regex::is_match` for a regex compiled from
/// `pattern` with the default options.
pub uninterp spec fn pattern_matches(pattern: Seq<char>, text: Seq<char>) -> bool;

/// The pattern that is used where none is chosen. It matches every name.
pub const DEFAULT_PATTERN: &'static str = ".*";

/// A compiled file-name pattern. Its view is the pattern as written.
pub struct NameFilter {
    pattern: String,
    regex: regex::Regex,
}

impl View for NameFilter {
    type V = Seq<char>;

    closed spec fn view(&self) -> Seq<char> {
        self.pattern@
    }
}

/// Calls `regex::Regex::new` on `pattern` and keeps the pattern beside the
/// compiled regex. Whether the call returns a regex depends on the pattern
/// alone: the parser and the compiler work from the pattern and the default
/// options, and the size limit is held against a count of the compiled
/// states. That outcome is given the name [`pattern_compiles`]; which
/// patterns it holds of is not claimed. A filter that comes back was made
/// from `pattern`.
#[verifier::external_body]
fn compile(pattern: &str) -> (made: Result<NameFilter, regex::Error>)
    ensures
        made is Ok <==> pattern_compiles(pattern@),
        made matches Ok(filter) ==> filter@ == pattern@,
{
    match regex::Regex::new(pattern) {
        Ok(regex) => Ok(NameFilter { pattern: pattern.to_owned(), regex }),
        Err(error) => Err(error),
    }
}

/// Calls `regex::Regex::is_match`, which returns true if and only if the
/// regex matches anywhere in the text. The regex of a filter is the one that
/// `regex::Regex::new` compiled from the filter's pattern, so the result is
/// the named value for that pattern and `text`.
#[verifier::external_body]
fn regex_is_match(filter: &NameFilter, text: &str) -> (found: bool)
    ensures
        found == pattern_matches(filter@, text@),
{
    filter.regex.is_match(text)
}

/// Formats a compile error with its `Display` impl. Nothing is claimed of
/// the text.
#[verifier::external_body]
fn describe(error: &regex::Error) -> (text: String) {
    error.to_string()
}

/// Why a pattern was refused.
pub struct PatternError {
    /// The compiler's explanation.
    pub message: String,
}

impl NameFilter {
    /// Compiles `pattern`: returns the filter that stands for it if the
    /// pattern compiles, and the compiler's refusal if it does not.
    pub fn new(pattern: &str) -> (made: Result<NameFilter, PatternError>)
        ensures
            made is Ok <==> pattern_compiles(pattern@),
            made matches Ok(filter) ==> filter@ == pattern@,
    {
        NameFilter::from_compiled(compile(pattern))
    }

    /// Turns the outcome of compiling a pattern into a filter or an error of
    /// this library: a compiled filter is handed on, a compile error becomes
    /// a `PatternError`.
    pub fn from_compiled(compiled: Result<NameFilter, regex::Error>) -> (made: Result<
        NameFilter,
        PatternError,
    >)
        ensures
            made is Ok <==> compiled is Ok,
            made matches Ok(filter) ==> compiled == Ok::<NameFilter, regex::Error>(filter),
    {
        match compiled {
            Ok(filter) => Ok(filter),
            Err(error) => Err(PatternError { message: describe(&error) }),
        }
    }

    /// The pattern as it was written.
    pub fn pattern(&self) -> (text: &str)
        ensures
            text@ == self@,
    {
        self.pattern.as_str()
    }

    /// Whether the pattern matches somewhere in `name`.
    pub fn is_match(&self, name: &str) -> (found: bool)
        ensures
            found == pattern_matches(self@, name@),
    {
        regex_is_match(self, name)
    }
}

} // verus!
