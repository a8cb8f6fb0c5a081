//! Regular-expression matching, through the `regex` crate.
use vstd::prelude::*;

verus! {

/// The texts of the successive non-overlapping matches of `pattern` in
/// `text`, left to right, as `regex::Regex::find_iter` yields them;
/// `None` when `pattern` does not compile.
pub uninterp spec fn regex_matches(pattern: Seq<char>, text: Seq<char>) -> Option<Seq<Seq<char>>>;

/// Compiles `pattern` with `regex::Regex::new` and collects the texts of
/// `find_iter(text)`. The contract names the result: it is a function of
/// the pattern and the text alone.
#[verifier::external_body]
pub(crate) fn find_all(pattern: &str, text: &str) -> (r: Option<Vec<String>>)
    ensures
        match regex_matches(pattern@, text@) {
            Some(ms) => r matches Some(v) && v@.map_values(|s: String| s@) == ms,
            None => r is None,
        },
{
    match regex::Regex::new(pattern) {
        Ok(re) => Some(re.find_iter(text).map(|m| m.as_str().to_owned()).collect()),
        Err(_) => None,
    }
}

/// A Jira issue key: a capital, one to nine capitals or digits, a dash,
/// digits, on word boundaries.
pub open spec fn jira_key_pattern() -> Seq<char> {
    "\\b([A-Z][A-Z0-9]{1,9}-\\d+)\\b"@
}

/// The Jira keys in `text`, in order (none when the pattern is refused).
pub open spec fn jira_keys(text: Seq<char>) -> Seq<Seq<char>> {
    match regex_matches(jira_key_pattern(), text) {
        Some(ms) => ms,
        None => Seq::empty(),
    }
}

/// The Jira keys in `text`, in order.
pub fn jira_keys_in(text: &str) -> (r: Vec<String>)
    ensures
        r@.map_values(|s: String| s@) == jira_keys(text@),
{
    match find_all("\\b([A-Z][A-Z0-9]{1,9}-\\d+)\\b", text) {
        Some(v) => v,
        None => {
            let v: Vec<String> = Vec::new();
            assert(v@.map_values(|s: String| s@) =~= Seq::<Seq<char>>::empty());
            v
        },
    }
}

} // verus!
