//! The trusted boundary: the external regular-expression engine, and the one
//! `std` function used here that the verifier has no specification for.
//!
//! Everything in this module is believed, not proved; each item's comment
//! names the outside function it relies on.

use vstd::prelude::*;

verus! {

#[verifier::external_type_specification]
#[verifier::external_body]
pub struct ExRegex(fancy_regex::Regex);

#[verifier::external_type_specification]
#[verifier::external_body]
pub struct ExRegexError(fancy_regex::Error);

/// The pattern text a compiled regex was built from; `Regex::as_str` returns
/// it unchanged.
pub uninterp spec fn regex_pattern(re: fancy_regex::Regex) -> Seq<char>;

/// Whether the engine accepts the pattern text: `Regex::new` succeeds or
/// fails depending on the pattern alone.
pub uninterp spec fn regex_compiles(pattern: Seq<char>) -> bool;

/// The leftmost match the engine finds for the compiled `pattern` in `text`:
/// the match's start offset and length, both in characters, or `None` when
/// nothing matches or the engine gives up at run time. A function of the
/// pattern and the text alone.
pub uninterp spec fn regex_find_spec(pattern: Seq<char>, text: Seq<char>) -> Option<(nat, nat)>;

/// Relies on `fancy_regex::Regex::new`: parses and compiles a pattern with
/// the default options, deterministically in the pattern text, and the
/// compiled regex keeps that text.
#[verifier::external_body]
pub(crate) fn regex_new(pattern: &str) -> (r: Result<fancy_regex::Regex, Box<fancy_regex::Error>>)
    ensures
        r is Ok <==> regex_compiles(pattern@),
        r matches Ok(re) ==> regex_pattern(re) == pattern@,
{
    match fancy_regex::Regex::new(pattern) {
        Ok(re) => Ok(re),
        Err(e) => Err(Box::new(e)),
    }
}

/// Relies on `fancy_regex::Regex::find`: reports the leftmost match as byte
/// offsets into `text`, converted here to character counts; a run-time
/// failure of the engine counts as no match.
#[verifier::external_body]
pub(crate) fn regex_find(re: &fancy_regex::Regex, text: &str) -> (r: Option<(usize, usize)>)
    ensures
        r matches Some(p) ==> regex_find_spec(regex_pattern(*re), text@) == Some(
            (p.0 as nat, p.1 as nat),
        ) && p.0 + p.1 <= text@.len(),
        r is None ==> regex_find_spec(regex_pattern(*re), text@) is None,
{
    match re.find(text) {
        Ok(Some(m)) => {
            let start = text[..m.start()].chars().count();
            let len = m.as_str().chars().count();
            Some((start, len))
        },
        _ => None,
    }
}

/// Relies on `String::push`: appends one character at the end.
#[verifier::external_body]
pub(crate) fn string_push(s: &mut String, c: char)
    ensures
        final(s)@ == old(s)@.push(c),
{
    s.push(c);
}

} // verus!
