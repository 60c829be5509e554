//! Decoding of shell tokens.

use vstd::prelude::*;
use vstd::std_specs::iter::IteratorSpec;

use crate::cursor::{positions_ok, Cursor};
use crate::model::{lemma_state_after_step, state_after, unquoted, Mode};
use crate::text::push_char;

verus! {

/// Why a token could not be unquoted. Each variant holds the character index
/// and the byte offset of the quote that opened and was never closed.
#[derive(Debug, Clone, Copy, PartialEq, Eq, Structural)]
pub enum UnquoteError {
    UnterminatedSingleQuote { char_cursor: usize, byte_cursor: usize },
    UnterminatedDoubleQuote { char_cursor: usize, byte_cursor: usize },
}

impl UnquoteError {
    /// The character index of the quote that was left open.
    pub fn char_cursor(&self) -> (r: usize)
        ensures
            r == match *self {
                UnquoteError::UnterminatedSingleQuote { char_cursor, .. } => char_cursor,
                UnquoteError::UnterminatedDoubleQuote { char_cursor, .. } => char_cursor,
            },
    {
        match *self {
            UnquoteError::UnterminatedSingleQuote { char_cursor, .. } => char_cursor,
            UnquoteError::UnterminatedDoubleQuote { char_cursor, .. } => char_cursor,
        }
    }

    /// The byte offset of the quote that was left open.
    pub fn byte_cursor(&self) -> (r: usize)
        ensures
            r == match *self {
                UnquoteError::UnterminatedSingleQuote { byte_cursor, .. } => byte_cursor,
                UnquoteError::UnterminatedDoubleQuote { byte_cursor, .. } => byte_cursor,
            },
    {
        match *self {
            UnquoteError::UnterminatedSingleQuote { byte_cursor, .. } => byte_cursor,
            UnquoteError::UnterminatedDoubleQuote { byte_cursor, .. } => byte_cursor,
        }
    }
}

/// The decoded text of a result, or its error.
pub open spec fn outcome(r: Result<String, UnquoteError>) -> Result<Seq<char>, UnquoteError> {
    match r {
        Ok(out) => Ok(out@),
        Err(e) => Err(e),
    }
}

/// Decodes the inside of a single-quoted run, up to and including the closing
/// quote. Returns whether that quote was found before the end.
fn unquote_open_single(
    acc: &mut String,
    cursor: &mut Cursor,
    Ghost(s): Ghost<Seq<char>>,
    Ghost(o): Ghost<int>,
) -> (closed: bool)
    requires
        old(cursor).chars.remaining() == s.skip(old(cursor).char_pos as int),
        positions_ok(s, old(cursor).char_pos, old(cursor).byte_pos),
        state_after(s, old(cursor).char_pos as nat) == (Mode::Single(o), old(acc)@),
    ensures
        final(cursor).chars.remaining() == s.skip(final(cursor).char_pos as int),
        positions_ok(s, final(cursor).char_pos, final(cursor).byte_pos),
        old(cursor).char_pos <= final(cursor).char_pos,
        old(acc)@.is_prefix_of(final(acc)@),
        final(acc)@.len() + (if closed { 1int } else { 0int }) <= old(acc)@.len() + (
        final(cursor).char_pos - old(cursor).char_pos),
        forall|k: int|
            old(cursor).char_pos <= k < final(cursor).char_pos ==> #[trigger] state_after(
                s,
                k as nat,
            ).0 == Mode::Single(o),
        state_after(s, final(cursor).char_pos as nat) == (
            if closed { Mode::Plain } else { Mode::Single(o) },
            final(acc)@,
        ),
        !closed ==> final(cursor).char_pos == s.len(),
{
    loop
        invariant
            cursor.chars.remaining() == s.skip(cursor.char_pos as int),
            positions_ok(s, cursor.char_pos, cursor.byte_pos),
            old(cursor).char_pos <= cursor.char_pos,
            old(acc)@.is_prefix_of(acc@),
            acc@.len() <= old(acc)@.len() + (cursor.char_pos - old(cursor).char_pos),
            forall|k: int|
                old(cursor).char_pos <= k < cursor.char_pos ==> #[trigger] state_after(
                    s,
                    k as nat,
                ).0 == Mode::Single(o),
            state_after(s, cursor.char_pos as nat) == (Mode::Single(o), acc@),
        decreases s.len() - cursor.char_pos,
    {
        proof {
            lemma_state_after_step(s, cursor.char_pos as nat);
        }
        match cursor.next(Ghost(s)) {
            Some(c) => {
                if c == '\'' {
                    return true;
                }
                push_char(acc, c);
            },
            None => {
                return false;
            },
        }
    }
}

/// Decodes the inside of a double-quoted run, up to and including the closing
/// quote. Returns whether that quote was found before the end.
fn unquote_open_double(
    acc: &mut String,
    cursor: &mut Cursor,
    Ghost(s): Ghost<Seq<char>>,
    Ghost(o): Ghost<int>,
) -> (closed: bool)
    requires
        old(cursor).chars.remaining() == s.skip(old(cursor).char_pos as int),
        positions_ok(s, old(cursor).char_pos, old(cursor).byte_pos),
        state_after(s, old(cursor).char_pos as nat) == (Mode::Double(o), old(acc)@),
    ensures
        final(cursor).chars.remaining() == s.skip(final(cursor).char_pos as int),
        positions_ok(s, final(cursor).char_pos, final(cursor).byte_pos),
        old(cursor).char_pos <= final(cursor).char_pos,
        old(acc)@.is_prefix_of(final(acc)@),
        final(acc)@.len() + (if closed { 1int } else { 0int }) <= old(acc)@.len() + (
        final(cursor).char_pos - old(cursor).char_pos),
        forall|k: int|
            old(cursor).char_pos <= k < final(cursor).char_pos ==> (#[trigger] state_after(
                s,
                k as nat,
            ).0 == Mode::Double(o) || state_after(s, k as nat).0 == Mode::DoubleEscape(o)),
        closed ==> state_after(s, final(cursor).char_pos as nat) == (Mode::Plain, final(acc)@),
        !closed ==> {
            &&& final(cursor).char_pos == s.len()
            &&& final(acc)@ == state_after(s, s.len()).1
            &&& (state_after(s, s.len()).0 == Mode::Double(o) || state_after(s, s.len()).0
                == Mode::DoubleEscape(o))
        },
{
    loop
        invariant
            cursor.chars.remaining() == s.skip(cursor.char_pos as int),
            positions_ok(s, cursor.char_pos, cursor.byte_pos),
            old(cursor).char_pos <= cursor.char_pos,
            old(acc)@.is_prefix_of(acc@),
            acc@.len() <= old(acc)@.len() + (cursor.char_pos - old(cursor).char_pos),
            forall|k: int|
                old(cursor).char_pos <= k < cursor.char_pos ==> (#[trigger] state_after(
                    s,
                    k as nat,
                ).0 == Mode::Double(o) || state_after(s, k as nat).0 == Mode::DoubleEscape(o)),
            state_after(s, cursor.char_pos as nat) == (Mode::Double(o), acc@),
        decreases s.len() - cursor.char_pos,
    {
        proof {
            lemma_state_after_step(s, cursor.char_pos as nat);
        }
        match cursor.next(Ghost(s)) {
            Some(c) => {
                if c == '"' {
                    return true;
                } else if c == '\\' {
                    proof {
                        lemma_state_after_step(s, cursor.char_pos as nat);
                    }
                    match cursor.next(Ghost(s)) {
                        Some(e) => {
                            if e == '\n' {
                            } else if e == '"' || e == '\\' || e == '`' || e == '$' {
                                push_char(acc, e);
                            } else {
                                push_char(acc, '\\');
                                push_char(acc, e);
                            }
                        },
                        None => {
                            return false;
                        },
                    }
                } else {
                    push_char(acc, c);
                }
            },
            None => {
                return false;
            },
        }
    }
}

/// Decodes what follows a backslash outside quotes: the next character is
/// taken literally, a newline is dropped, and at the end nothing is added.
fn unquote_open_escape(acc: &mut String, cursor: &mut Cursor, Ghost(s): Ghost<Seq<char>>)
    requires
        old(cursor).chars.remaining() == s.skip(old(cursor).char_pos as int),
        positions_ok(s, old(cursor).char_pos, old(cursor).byte_pos),
        state_after(s, old(cursor).char_pos as nat) == (Mode::Escape, old(acc)@),
    ensures
        final(cursor).chars.remaining() == s.skip(final(cursor).char_pos as int),
        positions_ok(s, final(cursor).char_pos, final(cursor).byte_pos),
        old(cursor).char_pos <= final(cursor).char_pos <= old(cursor).char_pos + 1,
        old(acc)@.is_prefix_of(final(acc)@),
        final(acc)@.len() <= old(acc)@.len() + (final(cursor).char_pos - old(cursor).char_pos),
        state_after(s, final(cursor).char_pos as nat) == (
            if final(cursor).char_pos == old(cursor).char_pos { Mode::Escape } else { Mode::Plain },
            final(acc)@,
        ),
        final(cursor).char_pos == old(cursor).char_pos ==> final(cursor).char_pos == s.len(),
{
    proof {
        lemma_state_after_step(s, cursor.char_pos as nat);
    }
    if let Some(e) = cursor.next(Ghost(s)) {
        if e != '\n' {
            push_char(acc, e);
        }
    }
}

/// Unquotes a token by POSIX shell rules: the decoded text, or the position of
/// the first quote that is left open.
pub fn unquote(source: &str) -> (r: Result<String, UnquoteError>)
    ensures
        outcome(r) == unquoted(source@),
        r is Ok ==> r->Ok_0@.len() <= source@.len(),
{
    let ghost s = source@;
    let mut acc = String::new();
    let mut cursor = Cursor::new(source);
    loop
        invariant
            s == source@,
            cursor.chars.remaining() == s.skip(cursor.char_pos as int),
            positions_ok(s, cursor.char_pos, cursor.byte_pos),
            acc@.len() <= cursor.char_pos,
            state_after(s, cursor.char_pos as nat) == (Mode::Plain, acc@)
                || (cursor.char_pos == s.len() && state_after(s, s.len()) == (Mode::Escape, acc@)),
        decreases s.len() - cursor.char_pos,
    {
        let open_char = cursor.char_pos;
        let open_byte = cursor.byte_pos;
        proof {
            lemma_state_after_step(s, cursor.char_pos as nat);
        }
        match cursor.next(Ghost(s)) {
            Some(c) => {
                if c == '\'' {
                    if !unquote_open_single(&mut acc, &mut cursor, Ghost(s), Ghost(open_char as int)) {
                        return Err(
                            UnquoteError::UnterminatedSingleQuote {
                                char_cursor: open_char,
                                byte_cursor: open_byte,
                            },
                        );
                    }
                } else if c == '"' {
                    if !unquote_open_double(&mut acc, &mut cursor, Ghost(s), Ghost(open_char as int)) {
                        return Err(
                            UnquoteError::UnterminatedDoubleQuote {
                                char_cursor: open_char,
                                byte_cursor: open_byte,
                            },
                        );
                    }
                } else if c == '\\' {
                    unquote_open_escape(&mut acc, &mut cursor, Ghost(s));
                } else {
                    push_char(&mut acc, c);
                }
            },
            None => {
                return Ok(acc);
            },
        }
    }
}

} // verus!
