//! A forward-only cursor over the characters of a string.

use vstd::prelude::*;
use vstd::std_specs::iter::IteratorSpec;
use vstd::utf8::encode_utf8;
use std::str::Chars;

use crate::text::{byte_offset, lemma_byte_offset_step, utf8_width};

verus! {

/// A position in a string, counted both in characters and in bytes, with the
/// characters that are still to be read.
pub struct Cursor<'a> {
    pub chars: Chars<'a>,
    pub char_pos: usize,
    pub byte_pos: usize,
}

/// The positions of a cursor that has read the first `char_pos` characters of
/// `s`, and room for the byte offset of every position of `s`.
pub open spec fn positions_ok(s: Seq<char>, char_pos: usize, byte_pos: usize) -> bool {
    &&& char_pos <= s.len()
    &&& byte_pos == byte_offset(s, char_pos as int)
    &&& char_pos <= byte_pos
    &&& byte_offset(s, s.len() as int) <= usize::MAX
}

impl<'a> Cursor<'a> {
    /// A cursor at the start of `source`.
    pub fn new(source: &'a str) -> (c: Cursor<'a>)
        ensures
            c.chars.remaining() == source@,
            positions_ok(source@, c.char_pos, c.byte_pos),
            c.char_pos == 0,
    {
        let total_bytes = source.as_bytes().len();
        proof {
            assert(total_bytes == encode_utf8(source@).len());
            assert(source@.take(source@.len() as int) =~= source@);
            assert(source@.take(0) =~= Seq::<char>::empty());
        }
        Cursor { chars: source.chars(), char_pos: 0, byte_pos: 0 }
    }

    /// Reads the next character, if any, and moves past it.
    pub fn next(&mut self, Ghost(s): Ghost<Seq<char>>) -> (r: Option<char>)
        requires
            old(self).chars.remaining() == s.skip(old(self).char_pos as int),
            positions_ok(s, old(self).char_pos, old(self).byte_pos),
        ensures
            final(self).chars.remaining() == s.skip(final(self).char_pos as int),
            positions_ok(s, final(self).char_pos, final(self).byte_pos),
            old(self).char_pos < s.len() ==> {
                &&& r == Some(s[old(self).char_pos as int])
                &&& final(self).char_pos == old(self).char_pos + 1
            },
            old(self).char_pos == s.len() ==> {
                &&& r is None
                &&& final(self).char_pos == old(self).char_pos
            },
    {
        let r = self.chars.next();
        match r {
            Some(c) => {
                proof {
                    lemma_byte_offset_step(s, self.char_pos as int);
                    assert(s.skip(self.char_pos as int).drop_first() =~= s.skip(self.char_pos + 1));
                }
                self.char_pos = self.char_pos + 1;
                self.byte_pos = self.byte_pos + utf8_width(c);
            },
            None => {},
        }
        r
    }
}

} // verus!
