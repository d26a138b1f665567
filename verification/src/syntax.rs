//! The regular expressions that tell the forms of a request apart, matched
//! by the `regex` crate.
//!
//! The functions here are not verified: each one compiles a pattern and
//! matches it once, and its contract names the result.

use vstd::prelude::*;

verus! {

/// A drive letter with a colon and a backslash, or two backslashes, at the
/// start.
pub const WINDOWS_PATH: &'static str = r"^([A-Za-z]:\\|\\\\)";

/// A protocol, which ends with a colon and holds no slash, and after it a
/// slash and something more.
pub const URI_PATH: &'static str = r"^([^/\\]+:)(/.+)";

/// A module's name, with its scope if it has one, and after it the path
/// inside the module.
pub const MODULE_PATH: &'static str = r"^((?:@[^/]+/)?[^/]+)(.*)";

/// Whether the regular expression `pattern` matches somewhere in `text`;
/// `false` also where `pattern` is no regular expression.
pub uninterp spec fn regex_matches(pattern: Seq<char>, text: Seq<char>) -> bool;

/// What the capture groups of the regular expression `pattern` hold at its
/// first match in `text`, the whole match first; nothing where there is no
/// match or `pattern` is no regular expression. A group that took no part in
/// the match holds nothing.
pub uninterp spec fn regex_groups(pattern: Seq<char>, text: Seq<char>) -> Option<
    Seq<Option<Seq<char>>>,
>;

/// What a list of capture groups holds.
pub open spec fn groups_view(groups: Seq<Option<String>>) -> Seq<Option<Seq<char>>> {
    groups.map_values(
        |g: Option<String>|
            match g {
                Some(text) => Some(text@),
                None => None,
            },
    )
}

/// Compiles `pattern` with `regex::Regex::new` and calls
/// `regex::Regex::is_match` on `text`.
///
/// Claimed: the answer is a function of the pattern and the text alone; it
/// is `false` where the pattern does not compile.
#[verifier::external_body]
pub(crate) fn is_match(pattern: &str, text: &str) -> (found: bool)
    ensures
        found == regex_matches(pattern@, text@),
{
    match regex::Regex::new(pattern) {
        Ok(compiled) => compiled.is_match(text),
        Err(_) => false,
    }
}

/// Compiles `pattern` with `regex::Regex::new`, calls
/// `regex::Regex::captures` on `text` and copies every group out of what it
/// finds.
///
/// Claimed: the groups are a function of the pattern and the text alone;
/// there are none where the pattern does not compile or does not match.
#[verifier::external_body]
pub(crate) fn captures(pattern: &str, text: &str) -> (found: Option<Vec<Option<String>>>)
    ensures
        match found {
            Some(groups) => regex_groups(pattern@, text@) == Some(groups_view(groups@)),
            None => regex_groups(pattern@, text@) is None,
        },
{
    let compiled = regex::Regex::new(pattern).ok()?;
    let groups = compiled.captures(text)?;
    Some((0..groups.len()).map(|i| groups.get(i).map(|m| m.as_str().to_string())).collect())
}

} // verus!
