//! The trusted boundary to the `regex` crate, and to std's case
//! folding.
//!
//! Whether a pattern compiles, whether it matches a text, and what a
//! substitution produces are functions of the pattern, replacement and
//! text alone, so each result is given a name that contracts can speak
//! of exactly. The language compiles every pattern fresh at each
//! evaluation, so each wrapper compiles and applies in one step and no
//! compiled value escapes.

use vstd::prelude::*;

verus! {

/// Whether the regex crate accepts this pattern text.
pub uninterp spec fn pattern_ok(pat: Seq<char>) -> bool;

/// Whether a pattern matches somewhere in a text.
pub uninterp spec fn matches_of(pat: Seq<char>, text: Seq<char>) -> bool;

/// The text after replacing the first match of a pattern, with the
/// replacement's capture-group references expanded.
pub uninterp spec fn replace_first_of(pat: Seq<char>, repl: Seq<char>, text: Seq<char>) -> Seq<
    char,
>;

/// The text after replacing every non-overlapping match of a pattern.
pub uninterp spec fn replace_all_of(pat: Seq<char>, repl: Seq<char>, text: Seq<char>) -> Seq<char>;

/// Lowercase folding of text.
pub uninterp spec fn lower_of(s: Seq<char>) -> Seq<char>;

/// Uppercase folding of text.
pub uninterp spec fn upper_of(s: Seq<char>) -> Seq<char>;

/// Relies on `regex::Regex::new` and `regex::Regex::is_match`: whether
/// the pattern compiles, and whether it matches, depend on the pattern
/// and text alone.
#[verifier::external_body]
pub fn regex_match(pat: &Vec<char>, text: &Vec<char>) -> (r: Option<bool>)
    ensures
        (r is Some) == pattern_ok(pat@),
        r matches Some(b) ==> b == matches_of(pat@, text@),
{
    let p: String = pat.iter().collect();
    let t: String = text.iter().collect();
    match regex::Regex::new(&p) {
        Ok(re) => Some(re.is_match(&t)),
        Err(_) => None,
    }
}

/// Relies on `regex::Regex::new` and `regex::Regex::replace`: the
/// rewritten text depends on the pattern, replacement and text alone.
#[verifier::external_body]
pub fn regex_replace_first(pat: &Vec<char>, repl: &Vec<char>, text: &Vec<char>) -> (r: Option<
    Vec<char>,
>)
    ensures
        (r is Some) == pattern_ok(pat@),
        r matches Some(s) ==> s@ == replace_first_of(pat@, repl@, text@),
{
    let p: String = pat.iter().collect();
    let rp: String = repl.iter().collect();
    let t: String = text.iter().collect();
    match regex::Regex::new(&p) {
        Ok(re) => Some(re.replace(&t, rp.as_str()).to_string().chars().collect()),
        Err(_) => None,
    }
}

/// Relies on `regex::Regex::new` and `regex::Regex::replace_all`: the
/// rewritten text depends on the pattern, replacement and text alone.
#[verifier::external_body]
pub fn regex_replace_all(pat: &Vec<char>, repl: &Vec<char>, text: &Vec<char>) -> (r: Option<
    Vec<char>,
>)
    ensures
        (r is Some) == pattern_ok(pat@),
        r matches Some(s) ==> s@ == replace_all_of(pat@, repl@, text@),
{
    let p: String = pat.iter().collect();
    let rp: String = repl.iter().collect();
    let t: String = text.iter().collect();
    match regex::Regex::new(&p) {
        Ok(re) => Some(re.replace_all(&t, rp.as_str()).to_string().chars().collect()),
        Err(_) => None,
    }
}

/// Relies on `str::to_lowercase`: the result depends on the characters
/// alone.
#[verifier::external_body]
pub fn to_lower(s: &Vec<char>) -> (r: Vec<char>)
    ensures
        r@ == lower_of(s@),
{
    let t: String = s.iter().collect();
    t.to_lowercase().chars().collect()
}

/// Relies on `str::to_uppercase`: the result depends on the characters
/// alone.
#[verifier::external_body]
pub fn to_upper(s: &Vec<char>) -> (r: Vec<char>)
    ensures
        r@ == upper_of(s@),
{
    let t: String = s.iter().collect();
    t.to_uppercase().chars().collect()
}

} // verus!
