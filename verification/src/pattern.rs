//! Regular expressions, evaluated by the `regex` crate.
use vstd::prelude::*;

verus! {

/// Characters `regex::escape` prefixes with a backslash.
pub open spec fn regex_meta(c: char) -> bool {
    c == '\\' || c == '.' || c == '+' || c == '*' || c == '?' || c == '(' || c == ')' || c == '|'
        || c == '[' || c == ']' || c == '{' || c == '}' || c == '^' || c == '$' || c == '#'
        || c == '&' || c == '-' || c == '~'
}

/// `s` with every meta character backslash-escaped.
pub open spec fn escape_spec(s: Seq<char>) -> Seq<char>
    decreases s.len(),
{
    if s.len() == 0 {
        Seq::empty()
    } else {
        escape_spec(s.drop_last()) + (if regex_meta(s.last()) {
            seq!['\\', s.last()]
        } else {
            seq![s.last()]
        })
    }
}

/// `regex::escape` (from `regex-syntax`): the contract claims it puts a backslash before each
/// character that `is_meta_character` lists (see [`regex_meta`]) and copies every other
/// character, which is what its source does.
#[verifier::external_body]
pub(crate) fn regex_escape(s: &str) -> (r: String)
    ensures
        r@ == escape_spec(s@),
{
    regex::escape(s)
}

/// Whether the regular expression `pattern` (`regex::Regex`) matches somewhere in `text`;
/// `None` when the pattern does not compile.
pub uninterp spec fn spec_regex_is_match(pattern: Seq<char>, text: Seq<char>) -> Option<bool>;

/// The non-overlapping matches of `pattern` in `text`, left to right (`Regex::find_iter`);
/// `None` when the pattern does not compile.
pub uninterp spec fn spec_regex_find_all(pattern: Seq<char>, text: Seq<char>) -> Option<Seq<Seq<char>>>;

/// Compiles `pattern` with `regex::Regex::new` and asks `Regex::is_match` about `text`.
#[verifier::external_body]
pub(crate) fn regex_is_match(pattern: &str, text: &str) -> (r: Option<bool>)
    ensures
        r == spec_regex_is_match(pattern@, text@),
{
    regex::Regex::new(pattern).ok().map(|re| re.is_match(text))
}

/// Compiles `pattern` with `regex::Regex::new` and lists the matched texts of
/// `Regex::find_iter` over `text`.
#[verifier::external_body]
pub(crate) fn regex_find_all(pattern: &str, text: &str) -> (r: Option<Vec<String>>)
    ensures
        match r {
            Some(v) => spec_regex_find_all(pattern@, text@) == Some(v@.map_values(|s: String| s@)),
            None => spec_regex_find_all(pattern@, text@) is None,
        },
{
    regex::Regex::new(pattern).ok().map(|re| re.find_iter(text).map(|m| m.as_str().to_string()).collect())
}

} // verus!
