use json_parser::number::check_float_text;
use json_parser::text::Cursor;
use json_parser::tokenize::{lex, read_escaped_char, read_hex_digits_char, LexError};
use json_parser::{tokenize, Token};

fn chars(s: &str) -> Vec<char> {
    s.chars().collect()
}

#[test]
fn number_texts_follow_the_float_grammar() {
    for ok in ["0", "12", "-1", "1.", ".5", "-.5", "1.5e3", "1E+3", "2e-7", "+4", "007"] {
        assert!(check_float_text(&chars(ok)), "{} should be a number", ok);
    }
    for bad in ["", "-", ".", "1.2.3", "1e", "1e+", "e5", "1-2", "--1", "1e5e6", "+-1", "1.e"] {
        assert!(!check_float_text(&chars(bad)), "{} should not be a number", bad);
    }
}

#[test]
fn tokenize_invalid_number() {
    assert_eq!(
        tokenize("1.2.3"),
        Err("invalid number representation: 1.2.3".to_string())
    );
    assert_eq!(
        tokenize("[1-2]"),
        Err("invalid number representation: 1-2".to_string())
    );
}

#[test]
fn tokenize_number_text_is_kept() {
    assert_eq!(
        tokenize("[-0.5e+3,7]"),
        Ok(vec![
            Token::LeftSquareBracket,
            Token::Number("-0.5e+3".to_string()),
            Token::Comma,
            Token::Number("7".to_string()),
            Token::RightSquareBracket,
        ])
    );
}

#[test]
fn tokenize_invalid_escape() {
    assert_eq!(
        tokenize("\"a\\xb\""),
        Err("invalid escape sequence: x".to_string())
    );
}

#[test]
fn tokenize_eof_after_backslash() {
    assert_eq!(tokenize("\"abc\\"), Err("unexpected EOF".to_string()));
}

#[test]
fn tokenize_invalid_code_points() {
    // too few digits before the closing quote
    assert_eq!(tokenize("\"\\u12\""), Err("invalid code point: 12".to_string()));
    // not hexadecimal
    assert_eq!(tokenize("\"\\u12g4\""), Err("invalid code point: 12g4".to_string()));
    // a surrogate is no character
    assert_eq!(tokenize("\"\\uD800\""), Err("invalid code point: D800".to_string()));
    // four bytes of UTF-8 reached with a two-byte character
    assert_eq!(
        tokenize("\"\\uab\u{e9}x\""),
        Err("invalid code point: ab\u{e9}".to_string())
    );
    // four bytes skipped over: characters are taken up to the quote
    assert_eq!(
        tokenize("\"\\uabc\u{e9}de\""),
        Err("invalid code point: abc\u{e9}de".to_string())
    );
}

#[test]
fn tokenize_code_points() {
    assert_eq!(
        tokenize("\"\\u00e9\\u20AC\""),
        Ok(vec![Token::String("\u{e9}\u{20ac}".to_string())])
    );
    // an optional plus sign is accepted before the digits
    assert_eq!(
        tokenize("\"\\u+041\""),
        Ok(vec![Token::String("A".to_string())])
    );
}

#[test]
fn tokenize_unterminated_string() {
    assert_eq!(
        tokenize("\"abc"),
        Ok(vec![Token::String("abc".to_string())])
    );
}

#[test]
fn tokenize_unexpected_literals() {
    assert_eq!(tokenize("nul"), Err("unexpected literal: nul".to_string()));
    assert_eq!(tokenize("True"), Err("unexpected literal: True".to_string()));
    assert_eq!(tokenize("@"), Err("unexpected literal: ".to_string()));
    assert_eq!(tokenize("[true,nulls]"), Err("unexpected literal: nulls".to_string()));
}

#[test]
fn tokenize_mixed() {
    assert_eq!(
        tokenize(" {\"a\" : [true,false,null]}\n"),
        Ok(vec![
            Token::LeftCurlyBracket,
            Token::String("a".to_string()),
            Token::Colon,
            Token::LeftSquareBracket,
            Token::True,
            Token::Comma,
            Token::False,
            Token::Comma,
            Token::Null,
            Token::RightSquareBracket,
            Token::RightCurlyBracket,
        ])
    );
}

#[test]
fn lex_gives_typed_errors() {
    assert_eq!(lex("tru"), Err(LexError::UnexpectedLiteral("tru".to_string())));
    assert_eq!(lex("\"\\q"), Err(LexError::InvalidEscape('q')));
    assert_eq!(lex("\"\\"), Err(LexError::UnexpectedEof));
    assert_eq!(lex("-"), Err(LexError::InvalidNumber("-".to_string())));
    assert_eq!(lex("\"\\uZZZZ"), Err(LexError::InvalidCodePoint("ZZZZ".to_string())));
}

#[test]
fn lex_error_messages() {
    assert_eq!(
        LexError::InvalidNumber("1e".to_string()).message(),
        "invalid number representation: 1e"
    );
    assert_eq!(LexError::InvalidEscape('z').message(), "invalid escape sequence: z");
    assert_eq!(LexError::UnexpectedEof.message(), "unexpected EOF");
    assert_eq!(
        LexError::InvalidCodePoint("12".to_string()).message(),
        "invalid code point: 12"
    );
    assert_eq!(
        LexError::UnexpectedLiteral("yes".to_string()).message(),
        "unexpected literal: yes"
    );
}

#[test]
fn read_escaped_char_reads_one_escape() {
    let mut c = Cursor::new("n rest");
    assert_eq!(read_escaped_char(&mut c), Ok('\n'));
    assert_eq!(c.peek(), Some(' '));

    let mut c = Cursor::new("u0041BC");
    assert_eq!(read_escaped_char(&mut c), Ok('A'));
    assert_eq!(c.peek(), Some('B'));

    let mut c = Cursor::new("");
    assert_eq!(read_escaped_char(&mut c), Err(LexError::UnexpectedEof));

    let mut c = Cursor::new("k");
    assert_eq!(read_escaped_char(&mut c), Err(LexError::InvalidEscape('k')));
    assert_eq!(c.peek(), None);
}

#[test]
fn read_hex_digits_char_stops_at_quote() {
    let mut c = Cursor::new("00\"x");
    assert_eq!(
        read_hex_digits_char(&mut c),
        Err(LexError::InvalidCodePoint("00".to_string()))
    );
    // the quote is left unread
    assert_eq!(c.next(), Some('"'));

    let mut c = Cursor::new("263A!");
    assert_eq!(read_hex_digits_char(&mut c), Ok('\u{263a}'));
    assert_eq!(c.next(), Some('!'));
}

#[test]
fn token_to_string() {
    assert_eq!(Token::LeftSquareBracket.to_string(), "[");
    assert_eq!(Token::LeftCurlyBracket.to_string(), "{");
    assert_eq!(Token::RightSquareBracket.to_string(), "]");
    assert_eq!(Token::RightCurlyBracket.to_string(), "}");
    assert_eq!(Token::Colon.to_string(), ":");
    assert_eq!(Token::Comma.to_string(), ",");
    assert_eq!(Token::True.to_string(), "true");
    assert_eq!(Token::False.to_string(), "false");
    assert_eq!(Token::Null.to_string(), "null");
    assert_eq!(Token::String("a\"b\n".to_string()).to_string(), "\"a\\\"b\\n\"");
    assert_eq!(Token::Number("-1.5e3".to_string()).to_string(), "-1.5e3");
}

#[test]
fn shown_tokens_read_back() {
    let tokens = tokenize("{\"k\": [1.5e3, -2, true, false, null]}").unwrap();
    for t in tokens {
        if let Token::String(_) = t {
            continue;
        }
        assert_eq!(tokenize(&t.to_string()), Ok(vec![t.clone()]));
    }
}

#[test]
fn cursor_reads_in_order() {
    let mut c = Cursor::new("a\u{e9}");
    assert_eq!(c.peek(), Some('a'));
    assert_eq!(c.next(), Some('a'));
    assert_eq!(c.next(), Some('\u{e9}'));
    assert_eq!(c.next(), None);
    assert_eq!(c.peek(), None);
}

#[test]
fn float_grammar_agrees_with_float_parsing() {
    let alphabet = ['-', '+', '0', '1', 'e', 'E', '.'];
    let mut texts: Vec<String> = vec![String::new()];
    let mut frontier: Vec<String> = vec![String::new()];
    for _ in 0..5 {
        let mut next = Vec::new();
        for t in &frontier {
            for c in alphabet {
                let mut u = t.clone();
                u.push(c);
                next.push(u);
            }
        }
        texts.extend(next.iter().cloned());
        frontier = next;
    }
    for t in texts {
        assert_eq!(
            check_float_text(&chars(&t)),
            t.parse::<f64>().is_ok(),
            "disagreement on {:?}",
            t
        );
    }
}

#[test]
fn whitespace_joins_token_lists() {
    for (a, b) in [
        ("[1,\"a\\\"b\"]", "{\"k\":null}"),
        ("12", "-3.5e2"),
        ("true", "\"x\""),
        ("\"closed\"", "false"),
    ] {
        let ta = tokenize(a).unwrap();
        let tb = tokenize(b).unwrap();
        for w in [" ", "\n\t", "\r \r"] {
            let mut joined = ta.clone();
            joined.extend(tb.iter().cloned());
            assert_eq!(tokenize(&format!("{}{}{}", a, w, b)), Ok(joined));
        }
    }
    // a text that ends inside a string swallows what follows
    assert_eq!(
        tokenize("\"open true"),
        Ok(vec![Token::String("open true".to_string())])
    );
}
