use json_parser::chars::{decode_escape, digit};
use json_parser::offset::width;
use json_parser::token::{Error, Token, Tokenizer};

fn string_token(text: &str) -> Result<Option<Token>, Error> {
    Ok(Some(Token::String(text.to_string())))
}

fn number_token(text: &str) -> Result<Option<Token>, Error> {
    Ok(Some(Token::Number(text.to_string())))
}

#[test]
fn digits_are_the_ascii_digits() {
    for c in '0'..='9' {
        assert!(digit(c));
    }
    for c in ['/', ':', 'a', '-', '\u{660}', '\u{ff11}'] {
        assert!(!digit(c));
    }
}

#[test]
fn escapes_decode_to_their_characters() {
    assert_eq!(decode_escape('"'), Some('"'));
    assert_eq!(decode_escape('\\'), Some('\\'));
    assert_eq!(decode_escape('/'), Some('/'));
    assert_eq!(decode_escape('b'), Some('\u{8}'));
    assert_eq!(decode_escape('f'), Some('\u{c}'));
    assert_eq!(decode_escape('n'), Some('\n'));
    assert_eq!(decode_escape('r'), Some('\r'));
    assert_eq!(decode_escape('t'), Some('\t'));
    assert_eq!(decode_escape('u'), None);
    assert_eq!(decode_escape('q'), None);
    assert_eq!(decode_escape('0'), None);
}

#[test]
fn widths_are_those_of_utf8() {
    for c in ['\0', 'a', '\u{7f}', '\u{80}', 'é', '\u{7ff}', '\u{800}', '€', '\u{ffff}', '\u{10000}', '😀', '\u{10ffff}'] {
        assert_eq!(width(c), c.len_utf8());
    }
}

#[test]
fn offsets_count_bytes() {
    let input = "aé€😀b";
    let mut tokenizer = Tokenizer::new(input);
    let expected: Vec<(usize, char)> = input.char_indices().collect();
    assert_eq!(expected, vec![(0, 'a'), (1, 'é'), (3, '€'), (6, '😀'), (10, 'b')]);
    for pair in expected {
        assert_eq!(tokenizer.peek(), Some(pair));
        assert_eq!(tokenizer.one(), Some(pair));
    }
    assert_eq!(tokenizer.peek(), None);
    assert_eq!(tokenizer.one(), None);
    assert_eq!(tokenizer.one(), None);
}

#[test]
fn empty_text_is_end_of_input() {
    let mut tokenizer = Tokenizer::new("");
    assert_eq!(tokenizer.peek(), None);
    assert!(!tokenizer.eat_one());
    assert!(!tokenizer.eat_whitespaces());
    assert!(tokenizer.eats(""));
    assert_eq!(tokenizer.next(), Err(Error::EOF));
}

#[test]
fn structural_tokens_take_one_character() {
    let mut tokenizer = Tokenizer::new("{}[],:x");
    assert_eq!(tokenizer.next(), Ok(Some(Token::LeftBrace)));
    assert_eq!(tokenizer.next(), Ok(Some(Token::RightBrace)));
    assert_eq!(tokenizer.next(), Ok(Some(Token::LeftBracket)));
    assert_eq!(tokenizer.next(), Ok(Some(Token::RightBracket)));
    assert_eq!(tokenizer.next(), Ok(Some(Token::Comma)));
    assert_eq!(tokenizer.next(), Ok(Some(Token::Colon)));
    assert_eq!(tokenizer.peek(), Some((6, 'x')));
    assert_eq!(tokenizer.next(), Err(Error::InvalidToken));
    assert_eq!(tokenizer.peek(), Some((6, 'x')));
}

#[test]
fn next_skips_no_whitespace() {
    let mut tokenizer = Tokenizer::new(" 1");
    assert_eq!(tokenizer.next(), Err(Error::InvalidToken));
    assert_eq!(tokenizer.peek(), Some((0, ' ')));
    assert!(tokenizer.eat_whitespaces());
    assert_eq!(tokenizer.next(), number_token("1"));

    let mut tokenizer = Tokenizer::new("true \n");
    assert_eq!(tokenizer.next(), Ok(Some(Token::Bool(true))));
    assert_eq!(tokenizer.peek(), Some((4, ' ')));
}

#[test]
fn whitespace_runs() {
    let mut tokenizer = Tokenizer::new(" \t\r\n\n x  ");
    assert!(tokenizer.eat_whitespace());
    assert_eq!(tokenizer.peek(), Some((1, '\t')));
    assert!(tokenizer.eat_whitespaces());
    assert_eq!(tokenizer.peek(), Some((6, 'x')));
    assert!(!tokenizer.eat_whitespaces());
    assert!(!tokenizer.eat_whitespace());
    assert_eq!(tokenizer.peek(), Some((6, 'x')));
    assert!(tokenizer.eat_one());
    assert!(tokenizer.eat_whitespaces());
    assert_eq!(tokenizer.peek(), None);
    assert!(!tokenizer.eat_whitespaces());
}

#[test]
fn other_blank_characters_are_not_whitespace() {
    let mut tokenizer = Tokenizer::new("\u{c}1");
    assert!(!tokenizer.eat_whitespaces());
    assert_eq!(tokenizer.next(), Err(Error::InvalidToken));
}

#[test]
fn eat_token_takes_only_its_own_character() {
    let mut tokenizer = Tokenizer::new(",:]");
    assert!(!tokenizer.eat_token(Token::Colon));
    assert!(!tokenizer.eat_token(Token::RightBrace));
    assert_eq!(tokenizer.peek(), Some((0, ',')));
    assert!(tokenizer.eat_token(Token::Comma));
    assert!(!tokenizer.eat_token(Token::Comma));
    assert!(tokenizer.eat_token(Token::Colon));
    assert!(!tokenizer.eat_token(Token::LeftBracket));
    assert!(tokenizer.eat_token(Token::RightBracket));
    assert!(!tokenizer.eat_token(Token::RightBracket));
    assert_eq!(tokenizer.peek(), None);
}

#[test]
fn eat_token_refuses_tokens_with_a_payload() {
    let mut tokenizer = Tokenizer::new("null");
    assert!(!tokenizer.eat_token(Token::Null));
    assert!(!tokenizer.eat_token(Token::Bool(true)));
    assert!(!tokenizer.eat_token(Token::String("null".to_string())));
    assert!(!tokenizer.eat_token(Token::Number("n".to_string())));
    assert_eq!(tokenizer.peek(), Some((0, 'n')));
}

#[test]
fn token_characters() {
    assert_eq!(Token::LeftBracket.to_char(), Some('['));
    assert_eq!(Token::RightBracket.to_char(), Some(']'));
    assert_eq!(Token::LeftBrace.to_char(), Some('{'));
    assert_eq!(Token::RightBrace.to_char(), Some('}'));
    assert_eq!(Token::Comma.to_char(), Some(','));
    assert_eq!(Token::Colon.to_char(), Some(':'));
    assert_eq!(Token::Null.to_char(), None);
    assert_eq!(Token::Bool(false).to_char(), None);
    assert_eq!(Token::Integer("1".to_string()).to_char(), None);
}

#[test]
fn eats_is_all_or_nothing() {
    let mut tokenizer = Tokenizer::new("trux");
    assert!(!tokenizer.eats("true"));
    assert_eq!(tokenizer.peek(), Some((0, 't')));
    assert!(tokenizer.eats("tru"));
    assert_eq!(tokenizer.peek(), Some((3, 'x')));
    assert!(!tokenizer.eats("xy"));
    assert_eq!(tokenizer.peek(), Some((3, 'x')));
    assert!(tokenizer.eats("x"));
    assert!(!tokenizer.eats("x"));
}

#[test]
fn eats_keeps_byte_offsets() {
    let mut tokenizer = Tokenizer::new("één");
    assert!(tokenizer.eats("éé"));
    assert_eq!(tokenizer.peek(), Some((4, 'n')));
}

#[test]
fn literals_roll_back_on_mismatch() {
    for input in ["tru", "trux", "fals", "falsy", "t", "f", "talse", "True"] {
        let mut tokenizer = Tokenizer::new(input);
        let first = tokenizer.peek();
        assert_eq!(tokenizer.boolean(), Err(Error::InvalidToken));
        assert_eq!(tokenizer.peek(), first);
    }
    for input in ["nul", "nulL", "n", "nil", "Null"] {
        let mut tokenizer = Tokenizer::new(input);
        let first = tokenizer.peek();
        assert_eq!(tokenizer.null(), Err(Error::InvalidToken));
        assert_eq!(tokenizer.peek(), first);
    }
    let mut tokenizer = Tokenizer::new("nulx");
    assert_eq!(tokenizer.next(), Err(Error::InvalidToken));
    assert_eq!(tokenizer.peek(), Some((0, 'n')));
}

#[test]
fn literals_are_read() {
    let mut tokenizer = Tokenizer::new("truefalsenull!");
    assert_eq!(tokenizer.boolean(), Ok(Some(Token::Bool(true))));
    assert_eq!(tokenizer.boolean(), Ok(Some(Token::Bool(false))));
    assert_eq!(tokenizer.boolean(), Err(Error::InvalidToken));
    assert_eq!(tokenizer.null(), Ok(Some(Token::Null)));
    assert_eq!(tokenizer.null(), Err(Error::InvalidToken));
    assert_eq!(tokenizer.peek(), Some((13, '!')));
}

#[test]
fn string_escapes_are_resolved() {
    let mut tokenizer = Tokenizer::new(r#""\"\\\/\b\f\n\r\t""#);
    assert_eq!(tokenizer.next(), string_token("\"\\/\u{8}\u{c}\n\r\t"));
    assert_eq!(tokenizer.peek(), None);

    let mut tokenizer = Tokenizer::new(r#""hello\nworld""#);
    assert_eq!(tokenizer.string(), string_token("hello\nworld"));

    let mut tokenizer = Tokenizer::new(r#""\"a\\b\"""#);
    assert_eq!(tokenizer.string(), string_token("\"a\\b\""));
}

#[test]
fn string_keeps_other_characters() {
    let mut tokenizer = Tokenizer::new("\"\"rest");
    assert_eq!(tokenizer.string(), string_token(""));
    assert_eq!(tokenizer.peek(), Some((2, 'r')));

    let mut tokenizer = Tokenizer::new("\"a b\tc\nd é 😀 {}[],:\"");
    assert_eq!(tokenizer.string(), string_token("a b\tc\nd é 😀 {}[],:"));
    assert_eq!(tokenizer.peek(), None);
}

#[test]
fn string_needs_its_opening_quote() {
    let mut tokenizer = Tokenizer::new("abc\"");
    assert_eq!(tokenizer.string(), Err(Error::InvalidString));
    assert_eq!(tokenizer.peek(), Some((0, 'a')));

    let mut tokenizer = Tokenizer::new("");
    assert_eq!(tokenizer.string(), Err(Error::InvalidString));
}

#[test]
fn string_without_closing_quote_is_end_of_input() {
    for input in ["\"", "\"abc", "\"abc\\\"", "\"abc\\", "\"\\n"] {
        let mut tokenizer = Tokenizer::new(input);
        assert_eq!(tokenizer.next(), Err(Error::EOF));
        assert_eq!(tokenizer.peek(), None);
    }
}

#[test]
fn unknown_escape_is_refused() {
    let mut tokenizer = Tokenizer::new(r#""\q""#);
    assert_eq!(tokenizer.next(), Err(Error::InvalidEscapeChar));
    assert_eq!(tokenizer.peek(), Some((2, 'q')));

    let mut tokenizer = Tokenizer::new(r#""ab\u0041""#);
    assert_eq!(tokenizer.string(), Err(Error::InvalidEscapeChar));
    assert_eq!(tokenizer.peek(), Some((4, 'u')));

    for input in [r#""\a""#, r#""\0""#, r#""\N""#, r#""\ ""#, "\"\\\n\""] {
        let mut tokenizer = Tokenizer::new(input);
        assert_eq!(tokenizer.string(), Err(Error::InvalidEscapeChar));
    }
}

#[test]
fn numbers_are_kept_verbatim() {
    for input in [
        "0", "-0", "7", "-7", "100", "1234567890", "0.0", "-0.5", "3.14159", "1.0e10", "1.0E10",
        "1.5e+3", "1.5e-3", "-100.001e10", "0.000e000", "9.9E-0", "1e5", "0E1", "-2E+10", "-0e-0",
        "123456789012345678901234567890.123456789012345678901234567890e123456789",
    ] {
        let mut tokenizer = Tokenizer::new(input);
        assert_eq!(tokenizer.next(), number_token(input));
        assert_eq!(tokenizer.peek(), None);
    }
}

#[test]
fn number_stops_where_its_grammar_ends() {
    let cases = [
        ("01", "0", '1'),
        ("-012", "-0", '1'),
        ("00", "0", '0'),
        ("0x10", "0", 'x'),
        ("12,", "12", ','),
        ("12 ", "12", ' '),
        ("1e5e", "1e5", 'e'),
        ("0E1.5", "0E1", '.'),
        ("0e0123x", "0e0123", 'x'),
        ("12-3", "12", '-'),
        ("1.5.2", "1.5", '.'),
        ("1.5e3.2", "1.5e3", '.'),
        ("1.5e3e4", "1.5e3", 'e'),
        ("1.5]", "1.5", ']'),
        ("1.5-", "1.5", '-'),
        ("1.5e-3+", "1.5e-3", '+'),
    ];
    for (input, text, rest) in cases {
        let mut tokenizer = Tokenizer::new(input);
        assert_eq!(tokenizer.number(), number_token(text));
        assert_eq!(tokenizer.peek(), Some((text.len(), rest)));
    }
}

#[test]
fn malformed_numbers_are_refused() {
    let cases = [
        ("", 0),
        ("-", 1),
        ("-x", 1),
        ("--1", 1),
        ("+1", 0),
        (".5", 0),
        ("-.5", 1),
        ("x", 0),
        ("1.", 2),
        ("1.x", 2),
        ("1.e5", 2),
        ("-0.", 3),
        ("1e", 2),
        ("1ex", 2),
        ("0E+", 3),
        ("-0e-.", 4),
        ("1.5e", 4),
        ("1.5E", 4),
        ("1.5ex", 4),
        ("1.5e+", 5),
        ("1.5e-", 5),
        ("1.5e+-1", 5),
        ("1.5e-x", 5),
    ];
    for (input, stop) in cases {
        let mut tokenizer = Tokenizer::new(input);
        assert_eq!(tokenizer.number(), Err(Error::InvalidNumber));
        let mut expected = Tokenizer::new(input);
        for _ in 0..stop {
            expected.eat_one();
        }
        assert_eq!(tokenizer.peek(), expected.peek());
    }
}

#[test]
fn integer_part() {
    let cases = [("0", "0"), ("-0", "-0"), ("-12a", "-12"), ("007", "0"), ("90", "90"), ("5.5", "5")];
    for (input, text) in cases {
        let mut tokenizer = Tokenizer::new(input);
        assert_eq!(tokenizer.integer(), Ok(Some(Token::Integer(text.to_string()))));
    }
    for input in ["", "-", "a", "-a", ".", "+1"] {
        let mut tokenizer = Tokenizer::new(input);
        assert_eq!(tokenizer.integer(), Err(Error::InvalidNumber));
    }
}

#[test]
fn fraction_digits() {
    let cases = [("0", "0"), ("000", "000"), ("12a", "12"), ("5.5", "5"), ("9e1", "9")];
    for (input, text) in cases {
        let mut tokenizer = Tokenizer::new(input);
        assert_eq!(tokenizer.fraction(), Ok(Some(Token::Fraction(text.to_string()))));
    }
    for input in ["", "-1", "a", ".", "+1", " 1"] {
        let mut tokenizer = Tokenizer::new(input);
        assert_eq!(tokenizer.fraction(), Err(Error::InvalidNumber));
        let mut untouched = Tokenizer::new(input);
        assert_eq!(tokenizer.peek(), untouched.peek());
    }
}

#[test]
fn exponent_part() {
    let cases = [("10", "10"), ("+10", "+10"), ("-10", "-10"), ("-0x", "-0"), ("007", "007"), ("1-1", "1")];
    for (input, text) in cases {
        let mut tokenizer = Tokenizer::new(input);
        assert_eq!(tokenizer.exponent(), Ok(Some(Token::Exponent(text.to_string()))));
    }
    for input in ["", "-", "+", "a", "+-1", "e1", "+ 1"] {
        let mut tokenizer = Tokenizer::new(input);
        assert_eq!(tokenizer.exponent(), Err(Error::InvalidNumber));
    }
}

#[test]
fn next_never_returns_a_fragment() {
    let mut tokenizer = Tokenizer::new("12 1.5 1.5e5");
    loop {
        tokenizer.eat_whitespaces();
        match tokenizer.next() {
            Ok(Some(Token::Number(_))) => {}
            Err(Error::EOF) => break,
            other => panic!("unexpected {:?}", other),
        }
    }
}

#[test]
fn unknown_characters_are_invalid_tokens() {
    for input in ["@", "'a'", "+1", ".5", "Infinity", "NaN", "undefined", "é", "\u{feff}1", "/", "\\"] {
        let mut tokenizer = Tokenizer::new(input);
        let first = tokenizer.peek();
        assert_eq!(tokenizer.next(), Err(Error::InvalidToken));
        assert_eq!(tokenizer.peek(), first);
    }
}
