use vstd::prelude::*;

verus! {

/// Whether the regular expression `pattern` matches somewhere in `key`
/// (an unanchored search); `None` where `pattern` is not a valid expression.
pub uninterp spec fn pattern_search(pattern: Seq<char>, key: Seq<char>) -> Option<bool>;

/// Relies on regex::Regex::new, which compiles `pattern` or reports it
/// invalid, and on Regex::is_match, which searches `key` for a match anywhere.
#[verifier::external_body]
pub(crate) fn search_pattern(pattern: &str, key: &str) -> (r: Option<bool>)
    ensures
        r == pattern_search(pattern@, key@),
{
    match regex::Regex::new(pattern) {
        Ok(re) => Some(re.is_match(key)),
        Err(_) => None,
    }
}

} // verus!
