use tidc::parser::scanner::Scanner;
use tidc::parser::{empty, ParseError};

#[test]
fn consume_and_drain() {
    let mut s = Scanner::over("abcdef");
    assert_eq!(s.consume(2), Ok("ab"));
    assert_eq!(s.remain(), "cdef");
    assert_eq!(s.consume(5), Err(ParseError::Empty));
    assert_eq!(s.remain(), "cdef");
    assert_eq!(s.drain(), Ok("cdef"));
    assert!(s.is_done());
    assert_eq!(s.peek_char(), None);
    assert_eq!(s.current_char(), '$');
    assert_eq!(empty(), ParseError::Empty);
}

#[test]
fn peek_multibyte_char() {
    let mut s = Scanner::over("µs");
    assert_eq!(s.peek_char(), Some('µ'));
    s.skip_until(|c| c == 's');
    assert_eq!(s.remain(), "s");
}

#[test]
fn consume_exact_reports_expected_and_got() {
    let mut s = Scanner::over("xyz");
    assert_eq!(
        s.consume_exact('['),
        Err(ParseError::Unexpected {
            expected: "[".to_string(),
            got: "x".to_string(),
            hint: "^>x<xyz".to_string(),
        })
    );
    assert_eq!(s.consume_exact('x'), Ok(()));
    assert_eq!(s.remain(), "yz");
    let mut e = Scanner::over("");
    assert_eq!(e.consume_exact('['), Err(ParseError::Empty));
}

#[test]
fn hint_window_is_bounded() {
    let mut s = Scanner::over("0123456789abcdefghijklmnop");
    s.consume(8).unwrap();
    assert_eq!(s.context_before(), "34567");
    assert_eq!(s.context_after(), "89abcdefgh");
    match s.unexpected("q", "8") {
        ParseError::Unexpected { expected, got, hint } => {
            assert_eq!(expected, "q");
            assert_eq!(got, "8");
            assert_eq!(hint, "34567>8<89abcdefgh");
        }
        ParseError::Empty => panic!("wrong error"),
    }
}

#[test]
fn hint_window_counts_characters() {
    let mut s = Scanner::over("ééééééx");
    s.consume(12).unwrap();
    assert_eq!(s.context_before(), "ééééé");
    assert_eq!(s.context_after(), "x");
}

#[test]
fn till_next_bracket_and_bracketed_text() {
    let mut s = Scanner::over("[abc] rest");
    assert_eq!(s.bracketed_text(), Ok("abc"));
    assert_eq!(s.remain(), " rest");
    s.skip_space();
    assert_eq!(s.remain(), "rest");
    assert_eq!(s.till_next_bracket(), Err(ParseError::Empty));
    assert_eq!(s.remain(), "rest");
}

#[test]
fn skip_until_without_match_stays() {
    let mut s = Scanner::over("abc");
    s.skip_until(|c| c == ']');
    assert_eq!(s.remain(), "abc");
    s.skip_while(|c| c == 'a' || c == 'b');
    assert_eq!(s.remain(), "c");
}

#[test]
fn skip_space_runs_to_the_end() {
    let mut s = Scanner::over(" \t \n");
    s.skip_space();
    assert!(s.is_done());
}

#[test]
fn unquoted_string_stops_at_control_characters() {
    let mut s = Scanner::over("ab\u{1}c");
    assert_eq!(s.unquoted_string(), Ok("ab"));
    let mut s = Scanner::over("a{b}c,d");
    assert_eq!(s.unquoted_object_string(), Ok("a"));
}

#[test]
fn in_bracket_runs_the_inner_scan() {
    let mut s = Scanner::over("[abc]x");
    assert_eq!(s.in_bracket(|s| s.till_next_bracket()), Ok("abc"));
    assert_eq!(s.remain(), "x");
    let mut s = Scanner::over("[abc");
    assert_eq!(s.in_bracket(|s| s.unquoted_string()), Err(ParseError::Empty));
    let mut s = Scanner::over("abc]");
    assert!(s.in_bracket(|s| s.till_next_bracket()).is_err());
    assert_eq!(s.remain(), "abc]");
}

#[test]
fn error_messages() {
    assert_eq!(ParseError::Empty.message(), "got empty string to parse");
    let e = ParseError::Unexpected {
        expected: "]".to_string(),
        got: "x".to_string(),
        hint: "ab>x<xy".to_string(),
    };
    assert_eq!(e.message(), "unexpected x, excepting ] (hint: `ab>x<xy`)");
}

#[test]
fn consume_exact_takes_any_character() {
    let mut s = Scanner::over("µs");
    assert_eq!(s.assert_current_is('µ'), Ok(()));
    assert_eq!(s.consume_exact('µ'), Ok(()));
    assert_eq!(s.remain(), "s");
    assert_eq!(
        s.consume_exact('µ'),
        Err(ParseError::Unexpected {
            expected: "µ".to_string(),
            got: "s".to_string(),
            hint: "µ>s<s".to_string(),
        })
    );
}

#[test]
fn in_bracket_passes_on_errors() {
    let mut s = Scanner::over("x]");
    assert_eq!(
        s.in_bracket(|s| s.till_next_bracket()),
        Err(ParseError::Unexpected {
            expected: "[".to_string(),
            got: "x".to_string(),
            hint: "^>x<x]".to_string(),
        })
    );
    let mut s = Scanner::over("[\"ab");
    assert_eq!(
        s.in_bracket(|s| s.quoted_string()),
        Err(ParseError::Unexpected {
            expected: "\"".to_string(),
            got: "EOF".to_string(),
            hint: "[>\"<\"ab".to_string(),
        })
    );
    let mut s = Scanner::over("[ab c]");
    assert_eq!(
        s.in_bracket(|s| s.unquoted_string()),
        Err(ParseError::Unexpected {
            expected: "]".to_string(),
            got: " ".to_string(),
            hint: "[ab> < c]".to_string(),
        })
    );
    assert_eq!(s.remain(), " c]");
}

#[test]
fn skip_space_takes_unicode_whitespace() {
    let mut s = Scanner::over("\u{3000}\u{a0} x");
    s.skip_space();
    assert_eq!(s.remain(), "x");
}

#[test]
fn bracketed_text_errors() {
    let mut s = Scanner::over("abc");
    assert!(matches!(s.bracketed_text(), Err(ParseError::Unexpected { .. })));
    let mut s = Scanner::over("[abc");
    assert_eq!(s.bracketed_text(), Err(ParseError::Empty));
}

#[test]
fn skip_predicates_see_whole_characters() {
    let mut s = Scanner::over("ééx");
    s.skip_while(|c| c == 'é');
    assert_eq!(s.remain(), "x");
    let mut s = Scanner::over("abµc");
    s.skip_until(|c| c == 'µ');
    assert_eq!(s.remain(), "µc");
}
