//! The library's bridges to outside crates: JSON encoding of argument lists,
//! and regular-expression matching. Each outside call sits in one trusted
//! wrapper; everything around the calls is verified against the contracts
//! stated here. Times reach the library as plain arguments; reading the
//! clock stays outside.
use vstd::prelude::*;

verus! {

/// The JSON text that encodes an argument list. Encoding depends on the
/// arguments alone; its exact shape is not restated here.
pub uninterp spec fn json_of_args(args: Seq<Seq<char>>) -> Seq<char>;

/// What decoding JSON text into an argument list yields, when it succeeds.
pub uninterp spec fn args_of_json(s: Seq<char>) -> Option<Seq<Seq<char>>>;

/// The JSON string literal that encodes a piece of text.
pub uninterp spec fn json_of_str(s: Seq<char>) -> Seq<char>;

/// Whether a regular-expression pattern compiles.
pub uninterp spec fn regex_pattern_ok(pattern: Seq<char>) -> bool;

/// What matching a compiled pattern against text yields. The answer depends
/// on the pattern and the text alone.
pub uninterp spec fn regex_match_of(pattern: Seq<char>, text: Seq<char>) -> bool;

/// Relies on `serde_json::to_string` for `Vec<String>`: encoding an argument
/// list never fails, and decoding the result gives the list back.
#[verifier::external_body]
pub(crate) fn args_to_json(args: &Vec<String>) -> (r: String)
    ensures
        r@ == json_of_args(args.deep_view()),
        args_of_json(r@) == Some(args.deep_view()),
{
    serde_json::to_string(args).unwrap_or_else(|_| String::new())
}

/// Relies on `serde_json::from_str` for `Vec<String>`: decoding reports the
/// decoded list, or that the text does not encode one.
#[verifier::external_body]
pub(crate) fn args_from_json(s: &str) -> (r: Option<Vec<String>>)
    ensures
        match r {
            Some(v) => args_of_json(s@) == Some(v.deep_view()),
            None => args_of_json(s@) is None,
        },
{
    serde_json::from_str::<Vec<String>>(s).ok()
}

/// Relies on `serde_json::to_string` for `&str`: a string encodes as a JSON
/// string literal, quoted on both ends.
#[verifier::external_body]
pub(crate) fn str_to_json(s: &str) -> (r: String)
    ensures
        r@ == json_of_str(s@),
        r@.len() >= 2,
        r@[0] == '"',
        r@.last() == '"',
{
    serde_json::to_string(s).unwrap_or_else(|_| String::new())
}

/// Relies on `regex::Regex::new`: whether the pattern compiles.
#[verifier::external_body]
pub(crate) fn regex_check(pattern: &str) -> (r: bool)
    ensures
        r == regex_pattern_ok(pattern@),
{
    regex::Regex::new(pattern).is_ok()
}

/// Relies on `regex::Regex::is_match` on a pattern known to compile.
#[verifier::external_body]
pub(crate) fn regex_is_match(pattern: &str, text: &str) -> (r: bool)
    requires
        regex_pattern_ok(pattern@),
    ensures
        r == regex_match_of(pattern@, text@),
{
    match regex::Regex::new(pattern) {
        Ok(re) => re.is_match(text),
        Err(_) => false,
    }
}

} // verus!
