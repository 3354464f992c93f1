use lexer::{BoolLexer, Input, IntegerLexer, JunkLexer, Lexeme, Lexer, StringLexer, SymbolLexer};

#[test]
fn junk_lexer_usable_should_leave_input_alone_for_lonely_slash() {
    let lex = JunkLexer {};
    let mut input = Input::new("/ *");

    let result = lex.usable(&mut input);

    assert_eq!(result, false);

    assert!(matches!(input.next(), Ok((_, '/'))));
}

#[test]
fn junk_lexer_should_lex_whitespace() {
    let lex = JunkLexer {};
    let mut input = Input::new("    \t \r \n a");

    let result = lex.lex(&mut input);

    assert_eq!(result, Ok(Lexeme::Junk));

    assert!(matches!(input.next(), Ok((_, 'a'))));
}

#[test]
fn junk_lexer_should_lex_whitespace_and_comment() {
    let lex = JunkLexer {};
    let mut input = Input::new(" /* blah blah blah */ a");

    let result = lex.lex(&mut input);

    assert_eq!(result, Ok(Lexeme::Junk));

    assert!(matches!(input.next(), Ok((_, 'a'))));
}

#[test]
fn junk_lexer_should_lex_nested_comment() {
    let lex = JunkLexer {};
    let mut input = Input::new(" /* /* /* blah blah blah */ */ */ a");

    let result = lex.lex(&mut input);

    assert_eq!(result, Ok(Lexeme::Junk));

    assert!(matches!(input.next(), Ok((_, 'a'))));
}

#[test]
fn junk_lexer_should_lex_almost_but_not_quite_comment_end() {
    let lex = JunkLexer {};
    let mut input = Input::new(" /* * / */ a");

    let result = lex.lex(&mut input);

    assert_eq!(result, Ok(Lexeme::Junk));

    assert!(matches!(input.next(), Ok((_, 'a'))));
}

#[test]
fn junk_lexer_should_leave_lonely_slash() {
    let lex = JunkLexer {};
    let mut input = Input::new(" / ");

    let result = lex.lex(&mut input);

    assert_eq!(result, Ok(Lexeme::Junk));

    assert!(matches!(input.next(), Ok((_, '/'))));
}

#[test]
fn string_lexer_should_lex_string() {
    let lex = StringLexer {};
    let mut input = Input::new(r#""this is a \t \n \r \" \\ string""#);

    let r = lex.lex(&mut input).expect("StringLexer should lex string");

    match r {
        Lexeme::String(s) => assert_eq!(s, "this is a \t \n \r \" \\ string"),
        _ => panic!("Expected string"),
    }

    assert!(input.next().is_err());
}

#[test]
fn bool_lexer_should_lex_true() {
    let lex = BoolLexer {};
    let mut input = Input::new("true");

    let r = lex.lex(&mut input).expect("BoolLexer should lex bool");

    assert_eq!(r, Lexeme::Bool(true));
}

#[test]
fn bool_lexer_should_lex_false() {
    let lex = BoolLexer {};
    let mut input = Input::new("false");

    let r = lex.lex(&mut input).expect("BoolLexer should lex bool");

    assert_eq!(r, Lexeme::Bool(false));
}

#[test]
fn bool_lexer_should_not_consume_boolish_symbol() {
    let lex = BoolLexer {};
    let mut input = Input::new("trueish");

    let r = lex.lex(&mut input);

    assert!(matches!(r, Err(_)));

    assert!(matches!(input.next(), Ok((_, 't'))));
}

#[test]
fn symbol_lexer_should_lex_upper_case_symbol() {
    let lex = SymbolLexer {};
    let mut input = Input::new("Blah__123");

    let r = lex.lex(&mut input).expect("SymbolLexer should lex symbol");

    match r {
        Lexeme::UpperCaseSymbol(s) => assert_eq!(s, "Blah__123"),
        _ => panic!("expected upper case symbol"),
    }
}

#[test]
fn symbol_lexer_should_lex_lower_case_symbol() {
    let lex = SymbolLexer {};
    let mut input = Input::new("blah__123");

    let r = lex.lex(&mut input).expect("SymbolLexer should lex symbol");

    match r {
        Lexeme::LowerCaseSymbol(s) => assert_eq!(s, "blah__123"),
        _ => panic!("expected upper case symbol"),
    }
}

#[test]
fn integer_lexer_should_lex_standard_integer() {
    let lex = IntegerLexer {};
    let mut input = Input::new("1234");

    let r = lex.lex(&mut input).expect("IntegerLexer should lex standard integer");

    assert_eq!(r, Lexeme::Integer(1234));
}

#[test]
fn integer_lexer_should_not_conume_ending_input() {
    let lex = IntegerLexer {};
    let mut input = Input::new("1234s");

    let r = lex.lex(&mut input).expect("IntegerLexer should lex standard integer");

    assert_eq!(r, Lexeme::Integer(1234));
    assert!(matches!(input.next(), Ok((_, 's'))));
}
