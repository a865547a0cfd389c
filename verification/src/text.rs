//! Characters and strings: moving between `str`, `String` and sequences of `char`.
use vstd::prelude::*;

verus! {

/// The Unicode scalar values: the numbers that name a `char`.
pub open spec fn is_char_code(code: u32) -> bool {
    code < 0xD800 || (0xE000 <= code && code <= 0x10FFFF)
}

/// Calls `char::from_u32`, which (as its documentation says) gives the `char` with
/// that number exactly when the number is a Unicode scalar value.
#[verifier::external_body]
pub(crate) fn char_from_code(code: u32) -> (c: Option<char>)
    ensures
        c is Some <==> is_char_code(code),
        c matches Some(ch) ==> ch as u32 == code,
{
    char::from_u32(code)
}

/// The characters of a string slice, in order.
pub fn chars_of(s: &str) -> (v: Vec<char>)
    ensures
        v@ == s@,
{
    broadcast use vstd::string::group_string_axioms;
    let mut v: Vec<char> = Vec::new();
    for c in it: s.chars()
        invariant
            v@ == it.seq().take(it.index() as int),
    {
        v.push(c);
    }
    v
}

/// Calls `String::from_iter` on the characters: the string holds exactly them.
#[verifier::external_body]
pub(crate) fn string_from_chars(cs: &[char]) -> (s: String)
    ensures
        s@ == cs@,
{
    cs.iter().collect()
}

} // verus!
