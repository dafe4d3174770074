//! Telling a formula over variables from one over digits.

use vstd::prelude::*;
use regex::Regex;
use crate::operators::is_variable_name;

verus! {

/// Whether `c` is a letter or a connective.
pub open spec fn is_symbol(c: char) -> bool {
    is_variable_name(c) || c == '!' || c == '&' || c == '|' || c == '^' || c == '>' || c == '='
}

/// Whether a text is made of letters and connectives alone, and of at least
/// one of them: such a formula is read in variable mode.
pub open spec fn only_vars(tokens: Seq<char>) -> bool {
    tokens.len() > 0 && forall|i: int| 0 <= i < tokens.len() ==> is_symbol(#[trigger] tokens[i])
}

/// `Regex::new` compiles the pattern and `Regex::is_match` says whether it
/// matches somewhere in the haystack.
///
/// The contract is for one pattern only. In it `^` and `$` stand for the two
/// ends of the haystack, the bracket for one character out of `A` to `Z` and
/// the six connectives (a `^` that is not the first in a bracket stands for
/// itself), and `+` for one or more of them. So the pattern matches exactly
/// the texts that are not empty and hold nothing else.
#[verifier::external_body]
fn regex_is_match(pattern: &str, haystack: &str) -> (matched: bool)
    requires
        pattern@ == "^[A-Z!&|^>=]+$"@,
    ensures
        matched == only_vars(haystack@),
{
    Regex::new(pattern).unwrap().is_match(haystack)
}

/// Whether `input` is a formula over variables: letters and connectives,
/// no digit nor anything else.
pub fn check_only_vars(input: &str) -> (r: bool)
    ensures
        r == only_vars(input@),
{
    regex_is_match("^[A-Z!&|^>=]+$", input)
}

} // verus!
