use vstd::prelude::*;

verus! {

/// Relies on `str::chars`, collected into a `Vec`: the characters of the text, in order.
#[verifier::external_body]
pub(crate) fn chars_of(s: &str) -> (r: Vec<char>)
    ensures
        r@ == s@,
{
    s.chars().collect()
}

/// Relies on `String: FromIterator<char>`: the string of those characters, in order.
#[verifier::external_body]
pub(crate) fn string_of(cs: &[char]) -> (r: String)
    ensures
        r@ == cs@,
{
    cs.iter().collect()
}

/// Relies on `char::from_u32`: `Some` exactly for a Unicode scalar value, holding
/// the character of that code point.
#[verifier::external_body]
pub(crate) fn char_from_code(n: u32) -> (r: Option<char>)
    ensures
        match r {
            Some(c) => n < 0xD800 || (0xE000 <= n && n <= 0x10FFFF),
            None => !(n < 0xD800 || (0xE000 <= n && n <= 0x10FFFF)),
        },
        r matches Some(c) ==> c == n as char,
{
    char::from_u32(n)
}

} // verus!
