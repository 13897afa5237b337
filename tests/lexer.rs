use sled::{classify, lex, lex_permissive, LexicalError, Outcome, Severity, Token};

fn kinds(src: &str) -> Vec<Token> {
    lex(src).unwrap().into_iter().map(|(t, _, _)| t).collect()
}

#[test]
fn whence_is_one_keyword() {
    let out = lex("whence").unwrap();
    assert_eq!(out.len(), 1);
    assert_eq!(out[0].0, Token::Whence);
    assert_eq!(out[0].1, 0..6);
    assert_eq!(out[0].2, "whence");
}

#[test]
fn whencex_is_one_identifier() {
    let out = lex("whencex").unwrap();
    assert_eq!(out.len(), 1);
    assert_eq!(out[0].0, Token::Identifier);
    assert_eq!(out[0].2, "whencex");
}

#[test]
fn string_with_escaped_quote() {
    let src = "\"a\\\"b\"";
    let out = lex(src).unwrap();
    assert_eq!(out.len(), 1);
    assert_eq!(out[0].0, Token::String);
    assert_eq!(out[0].1, 0..6);
    assert_eq!(out[0].2, "\"a\\\"b\"");
}

#[test]
fn unclosed_string_fails_at_its_quote() {
    let d = lex("\"abc").unwrap_err();
    assert_eq!(d.error, LexicalError::UnclosedStringLiteral);
    assert_eq!(d.span.start, 0);
    assert_eq!(d.span, 0..4);
    assert_eq!(d.message, "unclosed string literal");
    assert_eq!(d.severity, Severity::Error);
}

#[test]
fn unclosed_string_after_tokens() {
    let d = lex("claim x = \"oops\n").unwrap_err();
    assert_eq!(d.error, LexicalError::UnclosedStringLiteral);
    assert_eq!(d.span, 10..16);
}

#[test]
fn escaped_quote_at_end_stays_unclosed() {
    let d = lex("\"a\\\"").unwrap_err();
    assert_eq!(d.error, LexicalError::UnclosedStringLiteral);
    assert_eq!(d.span, 0..3);
}

#[test]
fn trailing_backslash_stays_unclosed() {
    let d = lex("\"a\\").unwrap_err();
    assert_eq!(d.error, LexicalError::UnclosedStringLiteral);
    assert_eq!(d.span, 0..3);
}

#[test]
fn plus_equal_is_one_token() {
    assert_eq!(kinds("+="), vec![Token::PlusEqual]);
    assert_eq!(kinds("+ ="), vec![Token::Plus, Token::Assign]);
}

#[test]
fn number_with_fraction() {
    let out = lex("12.34").unwrap();
    assert_eq!(out.len(), 1);
    assert_eq!(out[0].0, Token::Number);
    assert_eq!(out[0].2, "12.34");
}

#[test]
fn number_with_trailing_dot() {
    assert_eq!(classify(b"12.", 0), (Outcome::Emit(Token::Number), 2));
    assert_eq!(classify(b"12.", 2), (Outcome::Unrecognized, 1));
    let d = lex("12.").unwrap_err();
    assert_eq!(d.error, LexicalError::UnrecognizedToken);
    assert_eq!(d.span, 2..3);
    assert_eq!(d.message, "unrecognized token");
    assert_eq!(d.label, "unexpected token");
}

#[test]
fn number_then_word() {
    let out = lex("12abc").unwrap();
    assert_eq!(out.len(), 2);
    assert_eq!((out[0].0, out[0].2), (Token::Number, "12"));
    assert_eq!((out[1].0, out[1].2), (Token::Identifier, "abc"));
}

#[test]
fn minus_before_digits_is_an_operator() {
    assert_eq!(kinds("-5"), vec![Token::Minus, Token::Number]);
}

#[test]
fn keywords() {
    assert_eq!(
        kinds("mold claim always whence orwhence other for while forin"),
        vec![
            Token::Mold,
            Token::Claim,
            Token::Always,
            Token::Whence,
            Token::OrWhence,
            Token::Other,
            Token::For,
            Token::While,
            Token::ForIn,
        ]
    );
}

#[test]
fn keyword_prefixes_are_identifiers() {
    assert_eq!(
        kinds("form whil _for for_ Mold orwhenc"),
        vec![Token::Identifier; 6]
    );
}

#[test]
fn operators() {
    assert_eq!(
        kinds("| -> <- [ ] + - * / == != > < >= <= += -= *= /= :: ? = ++ --"),
        vec![
            Token::Pipe,
            Token::LeftPointer,
            Token::RightPointer,
            Token::OpenBracket,
            Token::CloseBracket,
            Token::Plus,
            Token::Minus,
            Token::Multiply,
            Token::Divide,
            Token::Equal,
            Token::NotEqual,
            Token::GreaterThan,
            Token::LessThan,
            Token::GreaterThanOrEqual,
            Token::LessThanOrEqual,
            Token::PlusEqual,
            Token::MinusEqual,
            Token::MultiplyEqual,
            Token::DivideEqual,
            Token::DoubleColon,
            Token::QuestionMark,
            Token::Assign,
            Token::Increment,
            Token::Decrement,
        ]
    );
}

#[test]
fn operators_without_spaces() {
    assert_eq!(
        kinds("a<-b->c<=d"),
        vec![
            Token::Identifier,
            Token::RightPointer,
            Token::Identifier,
            Token::LeftPointer,
            Token::Identifier,
            Token::LessThanOrEqual,
            Token::Identifier,
        ]
    );
    assert_eq!(kinds("==="), vec![Token::Equal, Token::Assign]);
}

#[test]
fn comments_are_skipped() {
    let src = "claim -#- a comment + 1\nx";
    let out = lex(src).unwrap();
    assert_eq!(out.len(), 2);
    assert_eq!(out[0].0, Token::Claim);
    assert_eq!((out[1].0, out[1].1.clone()), (Token::Identifier, 24..25));
}

#[test]
fn comment_to_end_of_input() {
    assert_eq!(kinds("x -#- rest"), vec![Token::Identifier]);
}

#[test]
fn dash_hash_without_third_dash() {
    let d = lex("-#x").unwrap_err();
    assert_eq!(d.error, LexicalError::UnrecognizedToken);
    assert_eq!(d.span, 1..2);
}

#[test]
fn lone_bang_and_colon_are_unrecognized() {
    assert_eq!(lex("!").unwrap_err().span, 0..1);
    assert_eq!(lex("a : b").unwrap_err().span, 2..3);
}

#[test]
fn unrecognized_multibyte_character() {
    let d = lex("x é").unwrap_err();
    assert_eq!(d.error, LexicalError::UnrecognizedToken);
    assert_eq!(d.span, 2..4);
}

#[test]
fn carriage_return_is_unrecognized() {
    assert_eq!(lex("a\r\nb").unwrap_err().span, 1..2);
}

#[test]
fn multibyte_text_inside_string() {
    let src = "print \"héllo\" x";
    let out = lex(src).unwrap();
    assert_eq!(out.len(), 3);
    assert_eq!(out[1].0, Token::String);
    assert_eq!(out[1].2, "\"héllo\"");
    assert_eq!(out[1].1, 6..14);
    assert_eq!(out[2].1, 15..16);
}

#[test]
fn empty_and_blank_inputs() {
    assert!(lex("").unwrap().is_empty());
    assert!(lex(" \t\n\x0c ").unwrap().is_empty());
}

const PROGRAM: &str = r#"
    mold Glomdom [
      name :: string
      age :: integer
    ]

    claim x = 2.5 -#- a comment
    claim y = whence x == 2 [ 10 ] other [ 5 ]

    whence x > 10 [
      print "massiv \"balls\""
    ] orwhence x == 10 [
      print "latinas"
    ]

    | fnname
      <- in1 :: type ? default_value
      -> out_type []"#;

#[test]
fn spans_address_their_lexemes() {
    let out = lex(PROGRAM).unwrap();
    assert!(out.len() > 40);
    for (_, span, text) in &out {
        assert_eq!(&PROGRAM[span.clone()], *text);
    }
}

#[test]
fn spans_and_skipped_text_tile_the_source() {
    let out = lex(PROGRAM).unwrap();
    let mut at = 0;
    for (_, span, _) in &out {
        assert!(span.start < span.end);
        assert!(at <= span.start);
        let gap = &PROGRAM[at..span.start];
        let mut rest = gap;
        while !rest.is_empty() {
            if let Some(c) = rest.strip_prefix("-#-") {
                let end = c.find('\n').unwrap_or(c.len());
                rest = &c[end..];
            } else {
                assert!(rest.starts_with([' ', '\t', '\n', '\x0c']), "gap holds {:?}", gap);
                rest = &rest[1..];
            }
        }
        at = span.end;
    }
    assert!(PROGRAM[at..].trim().is_empty());
}

#[test]
fn scanning_twice_gives_the_same_output() {
    assert_eq!(lex(PROGRAM).unwrap(), lex(PROGRAM).unwrap());
    assert_eq!(lex("x \"abc").unwrap_err(), lex("x \"abc").unwrap_err());
}

#[test]
fn classifier_reports_unclosed_string() {
    assert_eq!(classify(b"\"abc", 0), (Outcome::Emit(Token::UnclosedString), 4));
    assert_eq!(classify(b"\"abc\"", 0), (Outcome::Emit(Token::String), 5));
    assert_eq!(classify(b"  x", 0), (Outcome::Skip, 2));
    assert_eq!(classify(b"-#- c\nx", 0), (Outcome::Skip, 5));
    assert_eq!(classify(b"forin", 0), (Outcome::Emit(Token::ForIn), 5));
    assert_eq!(classify(b"formx", 0), (Outcome::Emit(Token::Identifier), 5));
}

#[test]
fn permissive_skips_unrecognized_with_warnings() {
    let (out, warnings) = lex_permissive("12. a # b").unwrap();
    let kinds: Vec<Token> = out.iter().map(|t| t.0).collect();
    assert_eq!(kinds, vec![Token::Number, Token::Identifier, Token::Identifier]);
    assert_eq!(out[0].2, "12");
    assert_eq!(out[2].1, 8..9);
    assert_eq!(warnings.len(), 2);
    assert_eq!(warnings[0].span, 2..3);
    assert_eq!(warnings[1].span, 6..7);
    assert_eq!(warnings[1].error, LexicalError::UnrecognizedToken);
    assert_eq!(warnings[1].severity, Severity::Warning);
    assert_eq!(warnings[1].message, "unrecognized token");
}

#[test]
fn permissive_still_stops_at_unclosed_string() {
    let d = lex_permissive("x ! \"abc").unwrap_err();
    assert_eq!(d.error, LexicalError::UnclosedStringLiteral);
    assert_eq!(d.span, 4..8);
    assert_eq!(d.severity, Severity::Error);
}

#[test]
fn permissive_agrees_with_strict_on_clean_input() {
    let (out, warnings) = lex_permissive(PROGRAM).unwrap();
    assert!(warnings.is_empty());
    assert_eq!(out, lex(PROGRAM).unwrap());
}
