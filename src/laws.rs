//! Laws that relate quoting and unquoting.

use vstd::prelude::*;

use crate::model::{
    lemma_state_after_step, quoted, quoted_body, quoted_char, state_after, unquoted, unterminated,
    Mode,
};
use crate::text::{byte_offset, lemma_byte_offset_step};
use crate::unquoting::UnquoteError;

verus! {

/// What `quote` writes for a concatenation is what it writes for each part.
pub proof fn lemma_quoted_body_concat(a: Seq<char>, b: Seq<char>)
    ensures
        quoted_body(a + b) == quoted_body(a) + quoted_body(b),
    decreases b.len(),
{
    if b.len() == 0 {
        assert(a + b =~= a);
        assert(quoted_body(a) + quoted_body(b) =~= quoted_body(a));
    } else {
        assert((a + b).drop_last() =~= a + b.drop_last());
        lemma_quoted_body_concat(a, b.drop_last());
        assert(quoted_body(a + b) =~= quoted_body(a) + quoted_body(b));
    }
}

/// Scanning what `quote` wrote for `s`: once the opening quote and the text
/// written for the first `k` characters have been read, the scanner is inside
/// single quotes and has decoded exactly those `k` characters.
proof fn lemma_scan_quoted_prefix(s: Seq<char>, k: nat)
    requires
        k <= s.len(),
    ensures
        state_after(quoted(s), 1 + quoted_body(s.take(k as int)).len()).0 is Single,
        state_after(quoted(s), 1 + quoted_body(s.take(k as int)).len()).1 == s.take(k as int),
    decreases k,
{
    let q = quoted(s);
    if k == 0 {
        assert(s.take(0) =~= Seq::<char>::empty());
        assert(quoted_body(s.take(0)) =~= Seq::<char>::empty());
        lemma_state_after_step(q, 0);
        assert(q[0] == '\'');
    } else {
        let j = (k - 1) as nat;
        lemma_scan_quoted_prefix(s, j);
        let before = s.take(j as int);
        let upto = s.take(k as int);
        let c = s[j as int];
        let piece = quoted_char(c);
        assert(upto.drop_last() =~= before);
        assert(quoted_body(upto) == quoted_body(before) + piece);
        assert(s =~= upto + s.skip(k as int));
        lemma_quoted_body_concat(upto, s.skip(k as int));
        let m = 1 + quoted_body(before).len();
        let mi = m as int;
        assert(q =~= seq!['\''] + quoted_body(before) + piece + quoted_body(s.skip(k as int))
            + seq!['\'']);
        assert(forall|i: int| 0 <= i < piece.len() ==> q[mi + i] == piece[i]);
        let o = state_after(q, m).0->Single_0;
        assert(upto =~= before.push(c));
        if c == '\'' {
            lemma_state_after_step(q, m);
            lemma_state_after_step(q, m + 1);
            lemma_state_after_step(q, m + 2);
            lemma_state_after_step(q, m + 3);
            assert(q[mi] == '\'' && q[mi + 1] == '\\' && q[mi + 2] == '\'' && q[mi + 3] == '\'');
            assert(state_after(q, m + 1) == (Mode::Plain, before));
            assert(state_after(q, m + 2) == (Mode::Escape, before));
            assert(state_after(q, m + 3) == (Mode::Plain, upto));
            assert(state_after(q, m + 4) == (Mode::Single(mi + 3), upto));
        } else {
            lemma_state_after_step(q, m);
            assert(q[mi] == c);
            assert(state_after(q, m + 1) == (Mode::Single(o), upto));
        }
    }
}

/// Unquoting what `quote` gives yields the original text back, for every string.
pub proof fn lemma_unquote_quote(s: Seq<char>)
    ensures
        unquoted(quoted(s)) == Ok::<Seq<char>, UnquoteError>(s),
{
    let q = quoted(s);
    lemma_scan_quoted_prefix(s, s.len());
    assert(s.take(s.len() as int) =~= s);
    let m = 1 + quoted_body(s).len();
    assert(q.len() == m + 1);
    assert(q[m as int] == '\'');
    lemma_state_after_step(q, m);
}

/// A single quote that the scanner meets outside any quote, with no single
/// quote after it, makes unquoting fail with `UnterminatedSingleQuote` at
/// exactly that quote's position.
pub proof fn lemma_unterminated_single_quote(s: Seq<char>, i: nat)
    requires
        i < s.len(),
        s[i as int] == '\'',
        state_after(s, i).0 == Mode::Plain,
        forall|j: int| i < j < s.len() ==> s[j] != '\'',
    ensures
        unquoted(s) == Err::<Seq<char>, UnquoteError>(unterminated(s, i as int, true)),
{
    lemma_stays_in_single(s, i, s.len());
}

/// Past a single quote that opened at `i`, with no single quote after it, the
/// scanner stays inside that quote.
proof fn lemma_stays_in_single(s: Seq<char>, i: nat, k: nat)
    requires
        i < k <= s.len(),
        s[i as int] == '\'',
        state_after(s, i).0 == Mode::Plain,
        forall|j: int| i < j < s.len() ==> s[j] != '\'',
    ensures
        state_after(s, k).0 == Mode::Single(i as int),
    decreases k,
{
    lemma_state_after_step(s, (k - 1) as nat);
    if k > i + 1 {
        lemma_stays_in_single(s, i, (k - 1) as nat);
    }
}

/// The byte offset of a position is never below its character index, and is
/// above it once a character that takes more than one byte lies before it. An
/// error of `unquote` carries `byte_offset(s, char_cursor)` as its byte cursor.
pub proof fn lemma_byte_offset_vs_index(s: Seq<char>, i: nat)
    requires
        i <= s.len(),
    ensures
        byte_offset(s, i as int) >= i,
        (exists|j: int| 0 <= j < i && s[j] as u32 > 0x7F) ==> byte_offset(s, i as int) > i,
    decreases i,
{
    if i == 0 {
    } else {
        let p = (i - 1) as nat;
        lemma_byte_offset_vs_index(s, p);
        lemma_byte_offset_step(s, p as int);
        if exists|j: int| 0 <= j < i && s[j] as u32 > 0x7F {
            let j = choose|j: int| 0 <= j < i && s[j] as u32 > 0x7F;
            if j < p {
                assert(exists|j: int| 0 <= j < p && s[j] as u32 > 0x7F);
            }
        }
    }
}

} // verus!
