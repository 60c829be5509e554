use r_shquote::{quote, unquote, UnquoteError};

#[test]
fn basic() {
    assert_eq!(quote("foobar"), "'foobar'");
    assert_eq!(quote(""), "''");
    assert_eq!(quote("'"), "''\\'''");

    assert_eq!(unquote("foobar").unwrap(), "foobar");
    assert_eq!(unquote("foo'bar'").unwrap(), "foobar");
    assert_eq!(unquote("foo\"bar\"").unwrap(), "foobar");
    assert_eq!(unquote("\\foobar\\").unwrap(), "foobar");
    assert_eq!(unquote("\\'foobar\\'").unwrap(), "'foobar'");
}

#[test]
fn quote_of_lone_single_quote_has_six_characters() {
    let q = quote("'");
    assert_eq!(q.chars().count(), 6);
    assert_eq!(q, "''\\'''");
}

#[test]
fn quote_keeps_other_characters_verbatim() {
    assert_eq!(quote("a b\"$\\`\n"), "'a b\"$\\`\n'");
    assert_eq!(quote("it's"), "'it'\\''s'");
    assert_eq!(quote("''"), "''\\'''\\'''");
    assert_eq!(quote("ä€𝄞"), "'ä€𝄞'");
}

#[test]
fn round_trip_on_sample_strings() {
    let samples = [
        "",
        "foobar",
        "foo bar",
        "'",
        "''",
        "it's a \"test\"",
        "back\\slash",
        "new\nline",
        "$HOME `cmd`",
        "ä'€'𝄞",
        "\\'\"",
    ];
    for s in samples.iter() {
        assert_eq!(unquote(&quote(s)).unwrap(), *s);
    }
}

#[test]
fn unterminated_single_quote_at_start() {
    assert_eq!(
        unquote("'foobar").unwrap_err(),
        UnquoteError::UnterminatedSingleQuote { char_cursor: 0, byte_cursor: 0 }
    );
}

#[test]
fn unterminated_single_quote_after_closed_run() {
    assert_eq!(
        unquote("'Hello' 'World!").unwrap_err(),
        UnquoteError::UnterminatedSingleQuote { char_cursor: 8, byte_cursor: 8 }
    );
}

#[test]
fn unterminated_single_quote_points_at_its_own_quote() {
    let e = unquote("a\"b'c\"d\\'e'f").unwrap_err();
    assert_eq!(e, UnquoteError::UnterminatedSingleQuote { char_cursor: 10, byte_cursor: 10 });
    assert_eq!(e.char_cursor(), 10);
}

#[test]
fn unterminated_double_quote() {
    assert_eq!(
        unquote("ab\"cd").unwrap_err(),
        UnquoteError::UnterminatedDoubleQuote { char_cursor: 2, byte_cursor: 2 }
    );
}

#[test]
fn trailing_backslash_inside_double_quote_leaves_it_open() {
    assert_eq!(
        unquote("x\"ab\\").unwrap_err(),
        UnquoteError::UnterminatedDoubleQuote { char_cursor: 1, byte_cursor: 1 }
    );
}

#[test]
fn trailing_backslash_outside_quotes_is_dropped() {
    assert_eq!(unquote("ab\\").unwrap(), "ab");
    assert_eq!(unquote("\\").unwrap(), "");
}

#[test]
fn unknown_escape_inside_double_quotes_is_kept() {
    assert_eq!(unquote("\"a\\qb\"").unwrap(), "a\\qb");
}

#[test]
fn escaped_double_quote_inside_double_quotes() {
    assert_eq!(unquote("\"a\\\"b\"").unwrap(), "a\"b");
}

#[test]
fn known_escapes_inside_double_quotes() {
    assert_eq!(unquote("\"\\\\\\`\\$\"").unwrap(), "\\`$");
    assert_eq!(unquote("\"a\\\nb\"").unwrap(), "ab");
}

#[test]
fn escaped_newline_outside_quotes_vanishes() {
    assert_eq!(unquote("a\\\nb").unwrap(), "ab");
    assert_eq!(unquote("a\\ b").unwrap(), "a b");
}

#[test]
fn single_quotes_take_everything_literally() {
    assert_eq!(unquote("'a\\b\"c$'").unwrap(), "a\\b\"c$");
    assert_eq!(unquote("''").unwrap(), "");
}

#[test]
fn empty_input_unquotes_to_empty() {
    assert_eq!(unquote("").unwrap(), "");
}

#[test]
fn byte_offset_exceeds_char_offset_after_multibyte_text() {
    let e = unquote("ä€ '𝄞").unwrap_err();
    assert_eq!(e, UnquoteError::UnterminatedSingleQuote { char_cursor: 3, byte_cursor: 6 });
    assert!(e.byte_cursor() > e.char_cursor());
    let d = unquote("𝄞\"x").unwrap_err();
    assert_eq!(d, UnquoteError::UnterminatedDoubleQuote { char_cursor: 1, byte_cursor: 4 });
}

#[test]
fn unquoted_text_keeps_multibyte_characters() {
    assert_eq!(unquote("ä'€'\"𝄞\"\\ß").unwrap(), "ä€𝄞ß");
}
