//! Regular-expression searches, carried out by the `regex` crate.

use vstd::prelude::*;

verus! {

/// The texts that the regular expression `pattern` matches in `text`: successive
/// matches without overlap, from left to right. `None` stands for a pattern that
/// does not compile.
pub uninterp spec fn regex_matches(pattern: Seq<char>, text: Seq<char>) -> Option<Seq<Seq<char>>>;

/// `text` with the first match of the regular expression `pattern` replaced by
/// `replacement`, in which `$1`, `$2`, ... stand for the capture groups of the match.
/// `None` stands for a pattern that does not compile.
pub uninterp spec fn regex_replaced(
    pattern: Seq<char>,
    text: Seq<char>,
    replacement: Seq<char>,
) -> Option<Seq<char>>;

/// Compiles `pattern` with `regex::Regex::new` and collects what `Regex::find_iter`
/// yields on `text`. Not proved: that the result is the one function of pattern and
/// text that `regex_matches` names.
#[verifier::external_body]
pub(crate) fn find_matches(pattern: &str, text: &str) -> (found: Option<Vec<String>>)
    ensures
        found is Some <==> regex_matches(pattern@, text@) is Some,
        found matches Some(v) ==> crate::text::texts(v@) == regex_matches(
            pattern@,
            text@,
        ).unwrap(),
{
    match regex::Regex::new(pattern) {
        Ok(re) => Some(re.find_iter(text).map(|m| m.as_str().to_string()).collect()),
        Err(_) => None,
    }
}

/// Compiles `pattern` with `regex::Regex::new` and returns what `Regex::replace`
/// makes of `text`. Not proved: that the result is the one function of pattern, text
/// and replacement that `regex_replaced` names.
#[verifier::external_body]
pub(crate) fn replace_first(pattern: &str, text: &str, replacement: &str) -> (out: Option<String>)
    ensures
        out is Some <==> regex_replaced(pattern@, text@, replacement@) is Some,
        out matches Some(s) ==> s@ == regex_replaced(pattern@, text@, replacement@).unwrap(),
{
    match regex::Regex::new(pattern) {
        Ok(re) => Some(re.replace(text, replacement).into_owned()),
        Err(_) => None,
    }
}

} // verus!
