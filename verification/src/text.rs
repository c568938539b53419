//! Building text: the two calls into std that vstd gives no specification.
use vstd::prelude::*;

verus! {

/// Calls `String::push`, which appends one character: the string afterwards
/// is the string before followed by `c`.
#[verifier::external_body]
pub(crate) fn push_char(s: &mut String, c: char)
    ensures
        final(s)@ == old(s)@.push(c),
{
    s.push(c);
}

/// Calls `char::from_u32`, which gives the character with code point `v`
/// when `v` is at most U+10FFFF and not a surrogate, and `None` otherwise.
#[verifier::external_body]
pub(crate) fn char_from_u32(v: u32) -> (c: Option<char>)
    ensures
        c is Some <==> (v <= 0x10FFFF && !(0xD800 <= v && v <= 0xDFFF)),
        c matches Some(ch) ==> ch as u32 == v,
{
    char::from_u32(v)
}

/// The string holding the characters of `chars`, in order.
pub fn chars_to_string(chars: &Vec<char>) -> (s: String)
    ensures
        s@ == chars@,
{
    let mut s = String::new();
    let mut i: usize = 0;
    while i < chars.len()
        invariant
            i <= chars.len(),
            s@ == chars@.take(i as int),
        decreases chars.len() - i,
    {
        push_char(&mut s, chars[i]);
        assert(chars@.take(i + 1) =~= chars@.take(i as int).push(chars@[i as int]));
        i += 1;
    }
    assert(chars@.take(chars.len() as int) =~= chars@);
    s
}

} // verus!
