//! Bridges between byte buffers and character sequences. The contracts are
//! stated against vstd's UTF-8 model, so the codecs can reason about text
//! and bytes interchangeably.

use vstd::prelude::*;

verus! {

/// Relies on std::str::from_utf8: it succeeds exactly on valid UTF-8 input
/// and returns the borrowed text whose characters decode those bytes.
#[verifier::external_body]
pub fn parse_utf8(bytes: &[u8]) -> (r: Option<&str>)
    ensures
        match r {
            Some(s) => vstd::utf8::valid_utf8(bytes@) && s@ == vstd::utf8::decode_utf8(bytes@),
            None => !vstd::utf8::valid_utf8(bytes@),
        },
{
    std::str::from_utf8(bytes).ok()
}

/// Relies on String::push: it appends exactly the one character.
#[verifier::external_body]
pub fn push_char(s: &mut String, c: char)
    ensures
        final(s)@ == old(s)@.push(c),
{
    s.push(c);
}

} // verus!
