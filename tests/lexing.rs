use lexer::{
    dispatch, lex, rules, to_lex_input, to_parse_input, BoolLexer, CharClass, Decimal, Input,
    IntegerLexer, JunkLexer, KeywordLexer, Lexeme, Lexer, PunctuationLexer, StringLexer,
    SymbolLexer, Token,
};

fn token(lexeme: Lexeme, start: usize, end: usize) -> Token {
    Token { lexeme, start, end }
}

fn lower(s: &str) -> Lexeme {
    Lexeme::LowerCaseSymbol(s.to_string())
}

fn upper(s: &str) -> Lexeme {
    Lexeme::UpperCaseSymbol(s.to_string())
}

#[test]
fn numerals_lex_to_one_integer() {
    for n in [0i64, 7, 10, 1234, 99999, 9223372036854775807] {
        let text = n.to_string();
        assert_eq!(lex(&text), Ok(vec![token(Lexeme::Integer(n), 0, text.len())]));
    }
}

#[test]
fn integer_out_of_range_fails_at_its_start() {
    assert_eq!(lex("9223372036854775808"), Err(0));
    assert_eq!(lex("x 99999999999999999999"), Err(2));
    let mut input = Input::new("99999999999999999999");
    assert_eq!(IntegerLexer {}.lex(&mut input), Err(0));
    assert_eq!(input.peek(), Ok((0, '9')));
}

#[test]
fn smallest_integer_is_read() {
    assert_eq!(
        lex("-9223372036854775808"),
        Ok(vec![token(Lexeme::Integer(i64::MIN), 0, 20)])
    );
}

#[test]
fn negative_decimal_leaves_trailing_symbol() {
    let mut input = Input::new("-1234.5678s");
    let r = IntegerLexer {}.lex(&mut input);
    assert_eq!(r, Ok(Lexeme::Decimal(Decimal { mantissa: -12345678, scale: 4 })));
    if let Ok(Lexeme::Decimal(d)) = r {
        let value = d.mantissa as f64 / 10f64.powi(d.scale as i32);
        assert!((value - (-1234.5678)).abs() < 1e-9);
    }
    assert_eq!(input.next(), Ok((10, 's')));
}

#[test]
fn trailing_dot_is_not_part_of_number() {
    let mut input = Input::new("1234.");
    assert_eq!(IntegerLexer {}.lex(&mut input), Ok(Lexeme::Integer(1234)));
    assert_eq!(input.next(), Ok((4, '.')));

    let mut input = Input::new("1.x");
    assert_eq!(IntegerLexer {}.lex(&mut input), Ok(Lexeme::Integer(1)));
    assert_eq!(input.next(), Ok((1, '.')));
}

#[test]
fn second_decimal_point_fails() {
    let mut input = Input::new("-1234.5678.99s");
    assert_eq!(IntegerLexer {}.lex(&mut input), Err(10));
    assert_eq!(input.next(), Ok((0, '-')));
    assert_eq!(lex("-1234.5678.99s"), Err(10));
}

#[test]
fn small_decimals() {
    let mut input = Input::new("0.5");
    assert_eq!(
        IntegerLexer {}.lex(&mut input),
        Ok(Lexeme::Decimal(Decimal { mantissa: 5, scale: 1 }))
    );
    assert_eq!(
        lex("-0.025"),
        Ok(vec![token(Lexeme::Decimal(Decimal { mantissa: -25, scale: 3 }), 0, 6)])
    );
}

#[test]
fn minus_without_digits_fails_after_it() {
    let mut input = Input::new("-x");
    assert!(IntegerLexer {}.usable(&mut input));
    assert_eq!(IntegerLexer {}.lex(&mut input), Err(1));
    assert_eq!(input.peek(), Ok((0, '-')));
    assert_eq!(lex("-"), Err(1));
}

#[test]
fn boolish_symbol_falls_to_symbol_rule() {
    let mut input = Input::new("trueish");
    assert!(!BoolLexer {}.usable(&mut input));
    assert_eq!(input.peek(), Ok((0, 't')));
    assert_eq!(BoolLexer {}.lex(&mut input), Err(0));
    assert_eq!(input.peek(), Ok((0, 't')));
    assert_eq!(SymbolLexer {}.lex(&mut input), Ok(lower("trueish")));
    assert!(input.peek().is_err());
    assert_eq!(lex("trueish"), Ok(vec![token(lower("trueish"), 0, 7)]));
    assert_eq!(lex("True"), Ok(vec![token(upper("True"), 0, 4)]));
    let mut input = Input::new("false");
    assert!(BoolLexer {}.usable(&mut input));
    assert_eq!(lex("false"), Ok(vec![token(Lexeme::Bool(false), 0, 5)]));
}

#[test]
fn nested_comment_is_one_junk_token() {
    assert_eq!(
        lex(" /* /* /* blah */ */ */ a"),
        Ok(vec![token(Lexeme::Junk, 0, 24), token(lower("a"), 24, 25)])
    );
}

#[test]
fn comment_closed_after_stars() {
    assert_eq!(
        lex("/* **/a"),
        Ok(vec![token(Lexeme::Junk, 0, 6), token(lower("a"), 6, 7)])
    );
}

#[test]
fn unterminated_comment_fails_at_end_of_input() {
    let mut input = Input::new(" /* abc");
    assert_eq!(JunkLexer {}.lex(&mut input), Err(7));
    assert_eq!(input.peek(), Ok((0, ' ')));
    assert_eq!(lex("a /* /* */"), Err(10));
}

#[test]
fn string_escapes_decode() {
    let source = "\"this is a \\t \\n \\r \\\" \\\\ string\"";
    assert_eq!(
        lex(source),
        Ok(vec![token(
            Lexeme::String("this is a \t \n \r \" \\ string".to_string()),
            0,
            source.len()
        )])
    );
}

#[test]
fn unterminated_string_fails_at_end_of_input() {
    let mut input = Input::new("\"abc");
    assert_eq!(StringLexer {}.lex(&mut input), Err(4));
    assert_eq!(input.peek(), Ok((0, '"')));
    assert_eq!(lex("\"abc\\"), Err(5));
}

#[test]
fn unknown_escape_fails_at_its_character() {
    let mut input = Input::new("\"a\\qb\"");
    assert_eq!(StringLexer {}.lex(&mut input), Err(3));
    assert_eq!(input.peek(), Ok((0, '"')));
}

#[test]
fn peek_is_idempotent() {
    let mut input = Input::new("ab");
    let first = input.peek();
    let second = input.peek();
    assert_eq!(first, Ok((0, 'a')));
    assert_eq!(first, second);
    assert_eq!(input.next(), first);
    assert_eq!(input.peek(), Ok((1, 'b')));
    assert_eq!(input.next(), Ok((1, 'b')));
    assert_eq!(input.peek(), Err(2));
    assert_eq!(input.next(), Err(2));
}

#[test]
fn double_arrow_is_one_token() {
    assert_eq!(lex("=>"), Ok(vec![token(Lexeme::RightDoubleArrow, 0, 2)]));
    assert_eq!(
        lex("= >"),
        Ok(vec![
            token(Lexeme::Equal, 0, 1),
            token(Lexeme::Junk, 1, 2),
            token(Lexeme::RAngle, 2, 3),
        ])
    );
}

#[test]
fn punctuation_mismatch_fails_where_it_differs() {
    let arrow = PunctuationLexer::new("=>", Lexeme::RightDoubleArrow);
    let mut input = Input::new("=<");
    assert!(!arrow.usable(&mut input));
    assert_eq!(arrow.lex(&mut input), Err(1));
    assert_eq!(input.peek(), Ok((0, '=')));
    let mut input = Input::new("=");
    assert_eq!(arrow.lex(&mut input), Err(1));
}

#[test]
fn all_punctuation() {
    let text = "(){}<>|;,=";
    let expected = [
        Lexeme::LParen,
        Lexeme::RParen,
        Lexeme::LCurl,
        Lexeme::RCurl,
        Lexeme::LAngle,
        Lexeme::RAngle,
        Lexeme::OrBar,
        Lexeme::SemiColon,
        Lexeme::Comma,
        Lexeme::Equal,
    ];
    let tokens: Vec<Token> = expected
        .iter()
        .enumerate()
        .map(|(k, l)| token(l.clone(), k, k + 1))
        .collect();
    assert_eq!(lex(text), Ok(tokens));
}

#[test]
fn keywords_and_symbols() {
    assert_eq!(
        lex("fun let data spec funny Spec"),
        Ok(vec![
            token(Lexeme::Fun, 0, 3),
            token(Lexeme::Junk, 3, 4),
            token(Lexeme::Let, 4, 7),
            token(Lexeme::Junk, 7, 8),
            token(Lexeme::Data, 8, 12),
            token(Lexeme::Junk, 12, 13),
            token(Lexeme::Spec, 13, 17),
            token(Lexeme::Junk, 17, 18),
            token(lower("funny"), 18, 23),
            token(Lexeme::Junk, 23, 24),
            token(upper("Spec"), 24, 28),
        ])
    );
    let fun = KeywordLexer::new("fun", Lexeme::Fun);
    let mut input = Input::new("funny");
    assert!(!fun.usable(&mut input));
    assert_eq!(fun.lex(&mut input), Err(0));
    assert_eq!(input.peek(), Ok((0, 'f')));
}

#[test]
fn a_small_program() {
    let r = lex("let f = fun (x) => { x; 1.5 }").unwrap();
    let kinds: Vec<Lexeme> = r
        .iter()
        .map(|t| t.lexeme.clone())
        .filter(|l| *l != Lexeme::Junk)
        .collect();
    assert_eq!(
        kinds,
        vec![
            Lexeme::Let,
            lower("f"),
            Lexeme::Equal,
            Lexeme::Fun,
            Lexeme::LParen,
            lower("x"),
            Lexeme::RParen,
            Lexeme::RightDoubleArrow,
            Lexeme::LCurl,
            lower("x"),
            Lexeme::SemiColon,
            Lexeme::Decimal(Decimal { mantissa: 15, scale: 1 }),
            Lexeme::RCurl,
        ]
    );
    for w in r.windows(2) {
        assert_eq!(w[0].end_index(), w[1].start_index());
    }
    assert_eq!(r.last().unwrap().end_index(), 29);
}

#[test]
fn no_usable_rule_fails_at_cursor() {
    assert_eq!(lex("#"), Err(0));
    assert_eq!(lex("ab #"), Err(3));
    assert_eq!(lex(""), Ok(vec![]));
}

#[test]
fn byte_offsets_count_utf8() {
    assert_eq!(
        lex("é x"),
        Ok(vec![
            token(lower("é"), 0, 2),
            token(Lexeme::Junk, 2, 3),
            token(lower("x"), 3, 4),
        ])
    );
    assert_eq!(lex("Éa"), Ok(vec![token(upper("Éa"), 0, 3)]));
    assert_eq!(lex("ß \u{3000}€"), Err(6));
    assert_eq!(lex("日本"), Ok(vec![token(lower("日本"), 0, 6)]));
}

#[test]
fn unicode_white_space_is_junk() {
    assert_eq!(
        lex("a\u{a0}\u{2003}b"),
        Ok(vec![
            token(lower("a"), 0, 1),
            token(Lexeme::Junk, 1, 6),
            token(lower("b"), 6, 7),
        ])
    );
}

#[test]
fn cursor_operations() {
    let mut input = to_lex_input("ab12 c");
    let rp = input.restore_point();
    assert_eq!(input.take_while(CharClass::SymbolPart), (0, 4, "ab12".to_string()));
    assert_eq!(input.offset(), 4);
    assert_eq!(input.take_while(CharClass::Digit), (4, 4, String::new()));
    assert_eq!(input.expect(CharClass::Digit), Err(4));
    assert_eq!(input.expect(CharClass::Whitespace), Ok((4, ' ')));
    input.restore(rp);
    assert_eq!(input.peek(), Ok((0, 'a')));
    assert_eq!(input.expect(CharClass::Exactly('a')), Ok((0, 'a')));
    assert_eq!(input.expect(CharClass::SymbolStart), Ok((1, 'b')));
    assert_eq!(input.expect(CharClass::SymbolStart), Err(2));
}

#[test]
fn dispatch_picks_first_usable_rule() {
    let all = rules();
    assert_eq!(all.len(), 20);
    let mut input = Input::new("true x");
    assert_eq!(dispatch(&all, &mut input), Ok(Lexeme::Bool(true)));
    assert_eq!(dispatch(&all, &mut input), Ok(Lexeme::Junk));
    assert_eq!(dispatch(&all, &mut input), Ok(lower("x")));
    assert_eq!(dispatch(&all, &mut input), Err(6));
}

#[test]
fn parse_input_walks_tokens() {
    let tokens = lex("a b").unwrap();
    let mut stream = to_parse_input(tokens);
    assert_eq!(stream.position(), 0);
    assert_eq!(stream.peek().map(|(k, t)| (k, t.lexeme.clone())), Some((0, lower("a"))));
    assert_eq!(stream.next(), Some((0, token(lower("a"), 0, 1))));
    assert_eq!(stream.next(), Some((1, token(Lexeme::Junk, 1, 2))));
    assert_eq!(stream.next(), Some((2, token(lower("b"), 2, 3))));
    assert_eq!(stream.position(), 3);
    assert!(stream.peek().is_none());
    assert!(stream.next().is_none());
}
