//! Regular expressions that select source files and name parts of their file names.
use vstd::prelude::*;

verus! {

#[verifier::external_type_specification]
#[verifier::external_body]
pub struct ExRegex(regex::Regex);

/// Whether `regex::Regex::new` accepts `pattern`.
pub uninterp spec fn regex_accepts(pattern: Seq<char>) -> bool;

/// What `regex::Regex::is_match` answers for the regex of `pattern` on `haystack`.
pub uninterp spec fn regex_finds(pattern: Seq<char>, haystack: Seq<char>) -> bool;

/// The text that the named capture group `group` takes in the first match of the regex of
/// `pattern` in `haystack` (`regex::Regex::captures`, then `Captures::name`).
pub uninterp spec fn regex_group(pattern: Seq<char>, haystack: Seq<char>, group: Seq<char>) -> Option<
    Seq<char>,
>;

/// A compiled regular expression together with the pattern it was compiled from.
/// Values are made only by `compile`, so `regex` is always `Regex::new(pattern)`.
pub struct FileMatcher {
    pattern: String,
    regex: regex::Regex,
}

impl FileMatcher {
    /// The pattern the regex was compiled from.
    pub closed spec fn source(&self) -> Seq<char> {
        self.pattern@
    }

    /// The pattern the regex was compiled from.
    pub fn pattern(&self) -> (res: &str)
        ensures
            res@ == self.source(),
    {
        self.pattern.as_str()
    }
}

/// Calls `regex::Regex::new(pattern)` and keeps the pattern beside the regex. The contract
/// claims that a matcher comes back exactly when the regex crate accepts the pattern, as the
/// named value `regex_accepts` says, and that it remembers the pattern.
#[verifier::external_body]
pub(crate) fn compile(pattern: &str) -> (res: Option<FileMatcher>)
    ensures
        res is Some == regex_accepts(pattern@),
        res matches Some(m) ==> m.source() == pattern@,
{
    match regex::Regex::new(pattern) {
        Ok(regex) => Some(FileMatcher { pattern: pattern.to_string(), regex }),
        Err(_) => None,
    }
}

/// Calls `regex::Regex::is_match` on `text`. The contract claims only that the answer is
/// the named value `regex_finds` of the matcher's pattern and the text.
#[verifier::external_body]
pub(crate) fn finds(m: &FileMatcher, text: &str) -> (res: bool)
    ensures
        res == regex_finds(m.source(), text@),
{
    m.regex.is_match(text)
}

/// Calls `regex::Regex::captures` on `text` and reads the group called `name`
/// (`Captures::name`, `Match::as_str`). The contract claims that the result is the named
/// value `regex_group`, and, as the regex crate documents, that there is no capture at all
/// where the regex finds no match.
#[verifier::external_body]
pub(crate) fn named_group(m: &FileMatcher, text: &str, name: &str) -> (res: Option<String>)
    ensures
        match res {
            Some(g) => regex_group(m.source(), text@, name@) == Some(g@),
            None => regex_group(m.source(), text@, name@) is None,
        },
        !regex_finds(m.source(), text@) ==> res is None,
{
    m.regex.captures(text).and_then(|c| c.name(name).map(|g| g.as_str().to_string()))
}

} // verus!
