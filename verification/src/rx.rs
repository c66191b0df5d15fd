//! Trusted boundary to the `regex` crate. The template engine's sed and
//! capture constructs compile a pattern and run it against the input line;
//! what those runs return is named here and believed, everything around
//! them is verified.

use vstd::prelude::*;

verus! {

/// Whether `pattern` compiles as a regular expression, that is whether
/// `regex::Regex::new` returns `Ok`; a property of the pattern text alone.
pub uninterp spec fn regex_valid(pattern: Seq<char>) -> bool;

/// The text produced by replacing the first match of `pattern` in `hay`
/// with `replacement` (`regex::Regex::replace`); a function of the three
/// texts alone.
pub uninterp spec fn replace_first_of(pattern: Seq<char>, hay: Seq<char>, replacement: Seq<char>) -> Seq<char>;

/// The text produced by replacing every non-overlapping match of `pattern`
/// in `hay` with `replacement` (`regex::Regex::replace_all`); a function of
/// the three texts alone.
pub uninterp spec fn replace_all_of(pattern: Seq<char>, hay: Seq<char>, replacement: Seq<char>) -> Seq<char>;

/// The text of capture group `group` for the first match of `pattern` in
/// `hay`, or `None` when the pattern does not compile, does not match, or
/// the group does not exist or did not participate in the match.
pub uninterp spec fn capture_of(pattern: Seq<char>, hay: Seq<char>, group: nat) -> Option<Seq<char>>;

/// Relies on `regex::Regex::new` and `regex::Regex::replace`: `new` returns
/// `Ok` exactly for compilable patterns, and `replace` rewrites the first
/// match in `hay`, a result depending on pattern, haystack and replacement
/// alone.
#[verifier::external_body]
pub(crate) fn regex_replace_first(pattern: &str, hay: &str, replacement: &str) -> (r: Option<String>)
    ensures
        r is Some <==> regex_valid(pattern@),
        r matches Some(s) ==> s@ == replace_first_of(pattern@, hay@, replacement@),
{
    match regex::Regex::new(pattern) {
        Ok(re) => Some(re.replace(hay, replacement).into_owned()),
        Err(_) => None,
    }
}

/// Relies on `regex::Regex::new` and `regex::Regex::replace_all`: `new`
/// returns `Ok` exactly for compilable patterns, and `replace_all` rewrites
/// every non-overlapping match in `hay`, a result depending on pattern,
/// haystack and replacement alone.
#[verifier::external_body]
pub(crate) fn regex_replace_all(pattern: &str, hay: &str, replacement: &str) -> (r: Option<String>)
    ensures
        r is Some <==> regex_valid(pattern@),
        r matches Some(s) ==> s@ == replace_all_of(pattern@, hay@, replacement@),
{
    match regex::Regex::new(pattern) {
        Ok(re) => Some(re.replace_all(hay, replacement).into_owned()),
        Err(_) => None,
    }
}

/// Relies on `regex::Regex::new`, `regex::Regex::captures` and
/// `regex::Captures::get`: the text of the requested capture group of the
/// first match, `None` when the pattern does not compile, nothing matches,
/// or the group is absent; a result depending on the arguments alone.
#[verifier::external_body]
pub(crate) fn regex_capture(pattern: &str, hay: &str, group: usize) -> (r: Option<String>)
    ensures
        r matches Some(s) ==> capture_of(pattern@, hay@, group as nat) == Some(s@),
        r is None ==> capture_of(pattern@, hay@, group as nat) is None,
{
    match regex::Regex::new(pattern) {
        Ok(re) => match re.captures(hay) {
            Some(caps) => caps.get(group).map(|m| m.as_str().to_string()),
            None => None,
        },
        Err(_) => None,
    }
}

} // verus!
