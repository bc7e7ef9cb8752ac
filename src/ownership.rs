//! Small functions that take, borrow, lend and hand back strings.
use vstd::prelude::*;
use vstd::string::StringExecFns;

verus! {

/// The number of bytes in the UTF-8 encoding of `s`.
pub open spec fn byte_len(s: Seq<char>) -> nat {
    vstd::utf8::encode_utf8(s).len()
}

/// The length of `s` in bytes, borrowing it.
pub fn calculate_length(s: &String) -> (len: usize)
    ensures
        len == byte_len(s@) as usize,
{
    s.as_str().len()
}

/// The length of `s` in bytes, taking `s` and handing it back with it.
pub fn calculate_length_take_ownership(s: String) -> (res: (String, usize))
    ensures
        res.0@ == s@,
        res.1 == byte_len(s@) as usize,
{
    let length = s.as_str().len();
    (s, length)
}

/// Hands back the string it was given.
pub fn takes_and_gives_back(a_string: String) -> (res: String)
    ensures
        res@ == a_string@,
{
    a_string
}

/// Takes a nonempty string and drops it.
pub fn takes_ownership(s: String)
    requires
        s@.len() > 0,
{
    let empty = s.as_str().is_empty();
    assert(!empty);
}

/// Makes a new string and hands it to the caller.
pub fn gives_ownership() -> (s: String)
    ensures
        s@ == "I own this, but not for long..."@,
{
    let s = String::from_str("I own this, but not for long...");
    s
}

/// Whether `s` is `l` bytes long, borrowing it.
pub fn check_length(s: &String, l: usize) -> (r: bool)
    ensures
        r == (byte_len(s@) as usize == l),
{
    s.as_str().len() == l
}

/// Appends `other` to the end of `s`.
pub fn append(s: &mut String, other: String)
    ensures
        final(s)@ == old(s)@ + other@,
{
    s.append(other.as_str());
}

} // verus!
