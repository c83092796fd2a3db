//! Regular-expression matching, taken from the `regex` crate.
use vstd::prelude::*;

verus! {

/// Errors of pattern compilation in the `regex` crate.
#[verifier::external_type_specification]
#[verifier::external_body]
pub struct ExRegexError(regex::Error);

/// Whether `regex::Regex::new` accepts `pattern` (it is valid and within the
/// default size limit).
pub uninterp spec fn regex_compiles(pattern: Seq<char>) -> bool;

/// What `Regex::is_match` answers for the compiled `pattern` on `haystack`.
pub uninterp spec fn regex_matches(pattern: Seq<char>, haystack: Seq<char>) -> bool;

/// Capture group 1 of each successive match of `pattern` in `haystack`, as
/// `Regex::captures_iter` yields them (`None` where the group did not take part).
pub uninterp spec fn regex_first_groups(pattern: Seq<char>, haystack: Seq<char>) -> Seq<
    Option<Seq<char>>,
>;

pub open spec fn option_view(o: Option<String>) -> Option<Seq<char>> {
    match o {
        Some(s) => Some(s@),
        None => None,
    }
}

/// Compiles `pattern` with `regex::Regex::new` and, when that succeeds, asks
/// `Regex::is_match` whether it matches anywhere in `haystack`.  The answer is
/// named `regex_matches`; whether compilation succeeds is named
/// `regex_compiles`.
#[verifier::external_body]
pub(crate) fn regex_is_match(pattern: &str, haystack: &str) -> (r: Result<bool, regex::Error>)
    ensures
        r is Ok <==> regex_compiles(pattern@),
        r matches Ok(b) ==> b == regex_matches(pattern@, haystack@),
{
    match regex::Regex::new(pattern) {
        Ok(re) => Ok(re.is_match(haystack)),
        Err(e) => Err(e),
    }
}

/// Compiles `pattern` with `regex::Regex::new` and, when that succeeds,
/// collects capture group 1 (`Captures::get(1)`) of every match that
/// `Regex::captures_iter` yields on `haystack`, in order.  The groups are
/// named `regex_first_groups`.
#[verifier::external_body]
pub(crate) fn regex_group_one(pattern: &str, haystack: &str) -> (r: Result<
    Vec<Option<String>>,
    regex::Error,
>)
    ensures
        r is Ok <==> regex_compiles(pattern@),
        r matches Ok(v) ==> v@.map_values(|o: Option<String>| option_view(o))
            == regex_first_groups(pattern@, haystack@),
{
    match regex::Regex::new(pattern) {
        Ok(re) => {
            let mut groups = Vec::new();
            for caps in re.captures_iter(haystack) {
                groups.push(caps.get(1).map(|m| m.as_str().to_string()));
            }
            Ok(groups)
        },
        Err(e) => Err(e),
    }
}

} // verus!
