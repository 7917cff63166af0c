use vstd::prelude::*;

verus! {

/// Relies on `Iterator::collect` via `str::chars`: collecting the characters
/// of a string slice yields exactly its character sequence.
#[verifier::external_body]
pub fn chars_of_str(s: &str) -> (r: Vec<char>)
    ensures
        r@ == s@,
{
    s.chars().collect()
}

/// Relies on `FromIterator for String`: collecting a vector of characters
/// yields the string with exactly that character sequence.
#[verifier::external_body]
pub fn string_of_chars(v: &Vec<char>) -> (r: String)
    ensures
        r@ == v@,
{
    v.iter().collect()
}

} // verus!
