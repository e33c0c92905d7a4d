use vstd::prelude::*;

verus! {

/// The characters that bytes stand for, one character per byte: byte `n`
/// is the character with code point `n`.
pub open spec fn chars_of_bytes(bytes: Seq<u8>) -> Seq<char> {
    bytes.map_values(|b: u8| b as char)
}

/// Relies on `String::push`: appends one character at the end.
#[verifier::external_body]
fn push_char(s: &mut String, c: char)
    ensures
        final(s)@ == old(s)@.push(c),
{
    s.push(c)
}

/// Appends the characters that `bytes` stand for to `s`.
pub fn append_bytes(s: &mut String, bytes: &[u8])
    ensures
        final(s)@ == old(s)@ + chars_of_bytes(bytes@),
{
    let mut i: usize = 0;
    while i < bytes.len()
        invariant
            i <= bytes@.len(),
            s@ == old(s)@ + chars_of_bytes(bytes@.subrange(0, i as int)),
        decreases bytes@.len() - i,
    {
        push_char(s, bytes[i] as char);
        assert(chars_of_bytes(bytes@.subrange(0, i + 1)) =~= chars_of_bytes(
            bytes@.subrange(0, i as int),
        ).push(bytes@[i as int] as char));
        i = i + 1;
    }
    assert(bytes@.subrange(0, i as int) =~= bytes@);
}

/// The text that `bytes` stand for, one character per byte.
pub fn text_of_bytes(bytes: &[u8]) -> (r: String)
    ensures
        r@ == chars_of_bytes(bytes@),
{
    let mut r = String::new();
    append_bytes(&mut r, bytes);
    assert(r@ =~= chars_of_bytes(bytes@));
    r
}

} // verus!
