//! The trusted boundary to the `regex` crate, and byte decoding.

use vstd::prelude::*;

verus! {

/// Whether the byte-oriented regular expression `pattern`, compiled with the
/// given `ignore_whitespace` setting, matches somewhere in `haystack`;
/// `None` when the pattern does not compile.
pub uninterp spec fn regex_is_match(pattern: Seq<char>, ignore_whitespace: bool, haystack: Seq<u8>) -> Option<bool>;

/// The successive non-overlapping matches of the byte-oriented regular
/// expression `pattern` in `haystack`, as `regex::bytes::Regex::find_iter`
/// yields them; `None` when the pattern does not compile.
pub uninterp spec fn regex_find_all(pattern: Seq<char>, haystack: Seq<u8>) -> Option<Seq<Seq<u8>>>;

/// `haystack` with the first match of the byte-oriented regular expression
/// `pattern` replaced by the expansion of `replacement`; `None` when the
/// pattern does not compile.
pub uninterp spec fn regex_replace_first(pattern: Seq<char>, haystack: Seq<u8>, replacement: Seq<u8>) -> Option<Seq<u8>>;

/// `haystack` with every non-overlapping match of the byte-oriented regular
/// expression `pattern` replaced by the expansion of `replacement`; `None`
/// when the pattern does not compile.
pub uninterp spec fn regex_replace_all(pattern: Seq<char>, haystack: Seq<u8>, replacement: Seq<u8>) -> Option<Seq<u8>>;

/// Whether the regular expression `pattern` matches somewhere in the text
/// `haystack`; `None` when the pattern does not compile.
pub uninterp spec fn text_regex_is_match(pattern: Seq<char>, haystack: Seq<char>) -> Option<bool>;

/// The text that lossy UTF-8 decoding makes of `bytes`.
pub uninterp spec fn utf8_lossy(bytes: Seq<u8>) -> Seq<char>;

/// Compiles `pattern` with `regex::bytes::RegexBuilder` (setting
/// `ignore_whitespace`) and runs `is_match` on `haystack`.  The result is
/// named, not described: what a pattern matches is the regex crate's.
#[verifier::external_body]
pub(crate) fn bytes_regex_is_match(pattern: &str, ignore_whitespace: bool, haystack: &[u8]) -> (r: Option<bool>)
    ensures
        r == regex_is_match(pattern@, ignore_whitespace, haystack@),
{
    match regex::bytes::RegexBuilder::new(pattern).ignore_whitespace(ignore_whitespace).build() {
        Ok(re) => Some(re.is_match(haystack)),
        Err(_) => None,
    }
}

/// Compiles `pattern` with `regex::Regex::new` and runs `is_match` on
/// `haystack`.  The result is named, not described: what a pattern matches
/// is the regex crate's.
#[verifier::external_body]
pub(crate) fn str_regex_is_match(pattern: &str, haystack: &str) -> (r: Option<bool>)
    ensures
        r == text_regex_is_match(pattern@, haystack@),
{
    match regex::Regex::new(pattern) {
        Ok(re) => Some(re.is_match(haystack)),
        Err(_) => None,
    }
}

/// Compiles `pattern` with `regex::bytes::Regex::new` and collects the bytes
/// of each match of `find_iter` on `haystack`.  The result is named, not
/// described.
#[verifier::external_body]
pub(crate) fn bytes_regex_find_all(pattern: &str, haystack: &[u8]) -> (r: Option<Vec<Vec<u8>>>)
    ensures
        r is Some == regex_find_all(pattern@, haystack@) is Some,
        r is Some ==> r->0@.map_values(|m: Vec<u8>| m@) == regex_find_all(pattern@, haystack@)->0,
{
    match regex::bytes::Regex::new(pattern) {
        Ok(re) => Some(re.find_iter(haystack).map(|m| m.as_bytes().to_vec()).collect()),
        Err(_) => None,
    }
}

/// Compiles `pattern` with `regex::bytes::Regex::new` and runs `replace` on
/// `haystack`.  The result is named, not described.
#[verifier::external_body]
pub(crate) fn bytes_regex_replace(pattern: &str, haystack: &[u8], replacement: &[u8]) -> (r: Option<Vec<u8>>)
    ensures
        r is Some == regex_replace_first(pattern@, haystack@, replacement@) is Some,
        r is Some ==> r->0@ == regex_replace_first(pattern@, haystack@, replacement@)->0,
{
    match regex::bytes::Regex::new(pattern) {
        Ok(re) => Some(re.replace(haystack, replacement).into_owned()),
        Err(_) => None,
    }
}

/// Compiles `pattern` with `regex::bytes::Regex::new` and runs `replace_all`
/// on `haystack`.  The result is named, not described.
#[verifier::external_body]
pub(crate) fn bytes_regex_replace_all(pattern: &str, haystack: &[u8], replacement: &[u8]) -> (r: Option<Vec<u8>>)
    ensures
        r is Some == regex_replace_all(pattern@, haystack@, replacement@) is Some,
        r is Some ==> r->0@ == regex_replace_all(pattern@, haystack@, replacement@)->0,
{
    match regex::bytes::Regex::new(pattern) {
        Ok(re) => Some(re.replace_all(haystack, replacement).into_owned()),
        Err(_) => None,
    }
}

/// The text that `bytes` encode, when they are UTF-8 (`String::from_utf8`).
pub open spec fn decoded(bytes: Seq<u8>) -> Option<Seq<char>> {
    if vstd::utf8::valid_utf8(bytes) {
        Some(vstd::utf8::decode_utf8(bytes))
    } else {
        None
    }
}

/// `String::from_utf8`: the text, when `bytes` are valid UTF-8.
#[verifier::external_body]
pub(crate) fn string_from_utf8(bytes: Vec<u8>) -> (r: Option<String>)
    ensures
        r is Some == decoded(bytes@) is Some,
        r is Some ==> r->0@ == decoded(bytes@)->0,
{
    String::from_utf8(bytes).ok()
}

/// `String::from_utf8_lossy`: valid UTF-8 decodes to the characters it
/// encodes; other input is named, not described.
#[verifier::external_body]
pub(crate) fn utf8_lossy_string(bytes: &[u8]) -> (r: String)
    ensures
        r@ == utf8_lossy(bytes@),
        vstd::utf8::valid_utf8(bytes@) ==> r@ == vstd::utf8::decode_utf8(bytes@),
{
    String::from_utf8_lossy(bytes).into_owned()
}

} // verus!
