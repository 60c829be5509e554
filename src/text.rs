//! UTF-8 text: byte offsets of character positions, and appending to a `String`.

use vstd::prelude::*;
use vstd::utf8::*;

verus! {

/// The number of bytes that the first `n` characters of `s` take in UTF-8.
pub open spec fn byte_offset(s: Seq<char>, n: int) -> nat {
    encode_utf8(s.take(n)).len()
}

/// The UTF-8 encoding of a concatenation is the concatenation of the encodings.
pub proof fn lemma_encode_concat(a: Seq<char>, b: Seq<char>)
    ensures
        encode_utf8(a + b) == encode_utf8(a) + encode_utf8(b),
    decreases a.len(),
{
    if a.len() == 0 {
        assert(a + b =~= b);
        assert(encode_utf8(a) + encode_utf8(b) =~= encode_utf8(b));
    } else {
        assert((a + b).drop_first() =~= a.drop_first() + b);
        lemma_encode_concat(a.drop_first(), b);
        assert(encode_utf8(a + b) =~= encode_utf8(a) + encode_utf8(b));
    }
}

/// One more character moves the byte offset on by the width of that character.
pub proof fn lemma_byte_offset_step(s: Seq<char>, n: int)
    requires
        0 <= n < s.len(),
    ensures
        byte_offset(s, n + 1) == byte_offset(s, n) + encode_scalar(s[n] as u32).len(),
        byte_offset(s, n) < byte_offset(s, n + 1),
        byte_offset(s, n + 1) <= byte_offset(s, s.len() as int),
{
    assert(s.take(n + 1) =~= s.take(n) + seq![s[n]]);
    lemma_encode_concat(s.take(n), seq![s[n]]);
    let one = seq![s[n]];
    assert(one.drop_first() =~= Seq::<char>::empty());
    assert(encode_utf8(one.drop_first()) =~= Seq::<u8>::empty());
    assert(encode_utf8(one) =~= encode_scalar(s[n] as u32));
    assert(s.take(s.len() as int) =~= s.take(n + 1) + s.skip(n + 1));
    lemma_encode_concat(s.take(n + 1), s.skip(n + 1));
}

/// How many bytes the UTF-8 encoding of `c` takes.
pub fn utf8_width(c: char) -> (w: usize)
    ensures
        w == encode_scalar(c as u32).len(),
{
    let v = c as u32;
    if v <= 0x7F {
        1
    } else if v <= 0x7FF {
        2
    } else if v <= 0xFFFF {
        proof {
            char_is_scalar(c);
        }
        3
    } else {
        4
    }
}

} // verus!

verus! {

/// Relies on `String::push`: the character is appended at the end.
#[verifier::external_body]
pub(crate) fn push_char(s: &mut String, c: char)
    ensures
        final(s)@ == old(s)@.push(c),
{
    s.push(c);
}

} // verus!
