//! Mathematical models of quoting and unquoting.
//!
//! Unquoting is a state machine that reads one character per step. Its state is
//! the lexical mode together with the text decoded so far.

use vstd::prelude::*;

use crate::text::byte_offset;
use crate::unquoting::UnquoteError;

verus! {

/// The lexical mode of the scanner. A quoted mode remembers the character
/// index of the quote that opened it.
pub enum Mode {
    /// Outside any quote.
    Plain,
    /// Just after a backslash outside any quote.
    Escape,
    /// Inside single quotes.
    Single(int),
    /// Inside double quotes.
    Double(int),
    /// Just after a backslash inside double quotes.
    DoubleEscape(int),
}

/// The characters that a backslash escapes inside double quotes.
pub open spec fn escapable_in_double(c: char) -> bool {
    c == '"' || c == '\\' || c == '`' || c == '$' || c == '\n'
}

/// One step of the scanner: reading `c`, found at character index `i`.
pub open spec fn step(mode: Mode, out: Seq<char>, c: char, i: int) -> (Mode, Seq<char>) {
    match mode {
        Mode::Plain => {
            if c == '\'' {
                (Mode::Single(i), out)
            } else if c == '"' {
                (Mode::Double(i), out)
            } else if c == '\\' {
                (Mode::Escape, out)
            } else {
                (Mode::Plain, out.push(c))
            }
        },
        Mode::Escape => (Mode::Plain, if c == '\n' { out } else { out.push(c) }),
        Mode::Single(o) => {
            if c == '\'' {
                (Mode::Plain, out)
            } else {
                (Mode::Single(o), out.push(c))
            }
        },
        Mode::Double(o) => {
            if c == '"' {
                (Mode::Plain, out)
            } else if c == '\\' {
                (Mode::DoubleEscape(o), out)
            } else {
                (Mode::Double(o), out.push(c))
            }
        },
        Mode::DoubleEscape(o) => {
            let decoded = if c == '\n' {
                out
            } else if escapable_in_double(c) {
                out.push(c)
            } else {
                out.push('\\').push(c)
            };
            (Mode::Double(o), decoded)
        },
    }
}

/// The scanner's mode and decoded text after it has read the first `n`
/// characters of `s`.
pub open spec fn state_after(s: Seq<char>, n: nat) -> (Mode, Seq<char>)
    decreases n,
{
    if n == 0 || n > s.len() {
        (Mode::Plain, Seq::empty())
    } else {
        let prev = state_after(s, (n - 1) as nat);
        step(prev.0, prev.1, s[n - 1], n - 1)
    }
}

/// The error for a quote that opened at character index `o` of `s` and was
/// never closed.
pub open spec fn unterminated(s: Seq<char>, o: int, single: bool) -> UnquoteError {
    if single {
        UnquoteError::UnterminatedSingleQuote {
            char_cursor: o as usize,
            byte_cursor: byte_offset(s, o) as usize,
        }
    } else {
        UnquoteError::UnterminatedDoubleQuote {
            char_cursor: o as usize,
            byte_cursor: byte_offset(s, o) as usize,
        }
    }
}

/// What unquoting `s` gives: the decoded text once every character has been
/// read, or the error for the quote that is still open at the end. A trailing
/// backslash outside quotes is dropped; one inside double quotes leaves the
/// double quote open.
pub open spec fn unquoted(s: Seq<char>) -> Result<Seq<char>, UnquoteError> {
    let end = state_after(s, s.len());
    match end.0 {
        Mode::Plain => Ok(end.1),
        Mode::Escape => Ok(end.1),
        Mode::Single(o) => Err(unterminated(s, o, true)),
        Mode::Double(o) => Err(unterminated(s, o, false)),
        Mode::DoubleEscape(o) => Err(unterminated(s, o, false)),
    }
}

/// How `quote` writes one character inside its single quotes: a single quote
/// closes the run, is written escaped, and a new run opens.
pub open spec fn quoted_char(c: char) -> Seq<char> {
    if c == '\'' {
        seq!['\'', '\\', '\'', '\'']
    } else {
        seq![c]
    }
}

/// The text between the outer quotes that `quote` writes for `s`.
pub open spec fn quoted_body(s: Seq<char>) -> Seq<char>
    decreases s.len(),
{
    if s.len() == 0 {
        Seq::empty()
    } else {
        quoted_body(s.drop_last()) + quoted_char(s.last())
    }
}

/// What `quote` gives for `s`.
pub open spec fn quoted(s: Seq<char>) -> Seq<char> {
    seq!['\''] + quoted_body(s) + seq!['\'']
}

} // verus!

verus! {

/// Reading the character at index `n` takes the scanner one step on.
pub proof fn lemma_state_after_step(s: Seq<char>, n: nat)
    ensures
        n < s.len() ==> state_after(s, n + 1) == step(
            state_after(s, n).0,
            state_after(s, n).1,
            s[n as int],
            n as int,
        ),
{
}

} // verus!
