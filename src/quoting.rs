//! Quoting of arbitrary strings as single shell tokens.

use vstd::prelude::*;
use vstd::std_specs::iter::IteratorSpec;

use crate::cursor::{positions_ok, Cursor};
use crate::model::{quoted, quoted_body};
use crate::text::push_char;

verus! {

/// Quotes `source` by POSIX shell rules: the whole text in single quotes, each
/// single quote inside it written as `'\''`. A shell reads the result back as
/// one token whose value is `source`.
pub fn quote(source: &str) -> (r: String)
    ensures
        r@ == quoted(source@),
{
    let ghost s = source@;
    let mut acc = String::new();
    push_char(&mut acc, '\'');
    let mut cursor = Cursor::new(source);
    proof {
        assert(s.take(0) =~= Seq::<char>::empty());
        assert(seq!['\''] + quoted_body(s.take(0)) =~= acc@);
    }
    loop
        invariant
            s == source@,
            cursor.chars.remaining() == s.skip(cursor.char_pos as int),
            positions_ok(s, cursor.char_pos, cursor.byte_pos),
            acc@ == seq!['\''] + quoted_body(s.take(cursor.char_pos as int)),
        decreases s.len() - cursor.char_pos,
    {
        let ghost n = cursor.char_pos as int;
        match cursor.next(Ghost(s)) {
            Some(c) => {
                proof {
                    assert(s.take(n + 1).drop_last() =~= s.take(n));
                }
                if c == '\'' {
                    push_char(&mut acc, '\'');
                    push_char(&mut acc, '\\');
                    push_char(&mut acc, '\'');
                    push_char(&mut acc, '\'');
                } else {
                    push_char(&mut acc, c);
                }
                proof {
                    assert(acc@ =~= seq!['\''] + quoted_body(s.take(n + 1)));
                }
            },
            None => {
                proof {
                    assert(s.take(n) =~= s);
                }
                push_char(&mut acc, '\'');
                return acc;
            },
        }
    }
}

} // verus!
