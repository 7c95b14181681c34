//! Regular-expression matching, done by the `regex` crate.
use vstd::prelude::*;

verus! {

/// Name for the answer of `regex::Regex::is_match` on `haystack`, for the
/// regex that `regex::Regex::new` compiles from `pattern` (false when the
/// pattern does not compile).
pub uninterp spec fn regex_is_match(pattern: Seq<char>, haystack: Seq<char>) -> bool;

/// `regex::Regex::is_match` on `haystack` for the regex compiled from `pattern`
/// by `regex::Regex::new`; its answer is named `regex_is_match`.
#[verifier::external_body]
pub(crate) fn pattern_is_match(pattern: &str, haystack: &str) -> (r: bool)
    ensures
        r == regex_is_match(pattern@, haystack@),
{
    match regex::Regex::new(pattern) {
        Ok(re) => re.is_match(haystack),
        Err(_) => false,
    }
}

/// Name for what `regex::Regex::captures` finds in `haystack`, for the regex
/// that `regex::Regex::new` compiles from `pattern`: `None` when there is no
/// match (or the pattern does not compile), else the text of each capture
/// group by index, `None` for a group that took no part in the match.
pub uninterp spec fn regex_captures(pattern: Seq<char>, haystack: Seq<char>) -> Option<
    Seq<Option<Seq<char>>>,
>;

/// `regex::Regex::captures` on `haystack` for the regex compiled from
/// `pattern` by `regex::Regex::new`, each group (`Captures::get`) taken as
/// its text (`Match::as_str`); the result is named `regex_captures`.
#[verifier::external_body]
pub(crate) fn pattern_captures(pattern: &str, haystack: &str) -> (r: Option<Vec<Option<String>>>)
    ensures
        r is Some <==> regex_captures(pattern@, haystack@) is Some,
        r matches Some(groups) ==> {
            let named = regex_captures(pattern@, haystack@)->0;
            &&& groups@.len() == named.len()
            &&& forall|i: int|
                0 <= i < groups@.len() ==> (#[trigger] groups@[i] is Some <==> named[i] is Some)
                    && (groups@[i] is Some ==> groups@[i]->0@ == named[i]->0)
        },
{
    let re = match regex::Regex::new(pattern) {
        Ok(re) => re,
        Err(_) => return None,
    };
    let caps = re.captures(haystack)?;
    let mut groups = Vec::new();
    for i in 0..caps.len() {
        groups.push(caps.get(i).map(|m| m.as_str().to_string()));
    }
    Some(groups)
}

} // verus!
