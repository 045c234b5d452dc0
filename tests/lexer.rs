use query_lexer::lexer::{Keyword, Lexer, LexerError, Op, Token};

fn lex(s: &str) -> Result<Vec<Token>, LexerError> {
    Lexer::new(s).tokenize()
}

fn lit(s: &str) -> Token {
    Token::Literal(s.to_string())
}

fn num(s: &str) -> Token {
    Token::Number(s.to_string())
}

#[test]
fn empty_input_gives_no_tokens() {
    assert_eq!(lex(""), Ok(vec![]));
}

#[test]
fn whitespace_only_gives_no_tokens() {
    assert_eq!(lex(" \t\n  "), Ok(vec![]));
}

#[test]
fn select_in_any_case_is_keyword() {
    assert_eq!(lex("select"), Ok(vec![Token::Keyword(Keyword::Select)]));
    assert_eq!(lex("SELECT"), Ok(vec![Token::Keyword(Keyword::Select)]));
    assert_eq!(lex("SeLeCt"), Ok(vec![Token::Keyword(Keyword::Select)]));
}

#[test]
fn operator_words_ignore_case() {
    assert_eq!(
        lex("and OR Not"),
        Ok(vec![Token::Operator(Op::And), Token::Operator(Op::Or), Token::Operator(Op::Not)])
    );
}

#[test]
fn other_words_are_literals_keeping_case() {
    assert_eq!(lex("Users _x1 selected"), Ok(vec![lit("Users"), lit("_x1"), lit("selected")]));
    assert_eq!(lex("insert delete"), Ok(vec![lit("insert"), lit("delete")]));
}

#[test]
fn decimal_number() {
    let r = lex("123.45").unwrap();
    assert_eq!(r, vec![num("123.45")]);
    match &r[0] {
        Token::Number(t) => assert_eq!(t.parse::<f64>().unwrap(), 123.45),
        _ => panic!("not a number"),
    }
}

#[test]
fn integer_number_and_trailing_dot() {
    assert_eq!(lex("42"), Ok(vec![num("42")]));
    assert_eq!(lex("7."), Ok(vec![num("7.")]));
    assert_eq!("7.".parse::<f64>().unwrap(), 7.0);
}

#[test]
fn second_dot_ends_numeral_and_fails() {
    assert_eq!(lex("12.3.4"), Err(LexerError::UnrecognizedToken));
    let l = Lexer::new("12.3.4");
    assert_eq!(l.scan_token(0), Ok((Some(num("12.3")), 4)));
    assert_eq!(l.scan_token(4), Err(LexerError::UnrecognizedToken));
}

#[test]
fn escaped_quote_stays_in_string() {
    let src = "\"ab\\\"cd\"";
    assert_eq!(lex(src), Ok(vec![lit(src)]));
}

#[test]
fn string_keeps_quotes_and_ends_at_closing_quote() {
    assert_eq!(lex("\"a b\" x"), Ok(vec![lit("\"a b\""), lit("x")]));
    assert_eq!(lex("\"a\\\\\"b"), Ok(vec![lit("\"a\\\\\""), lit("b")]));
}

#[test]
fn unterminated_string_runs_to_end() {
    assert_eq!(lex("\"abc @"), Ok(vec![lit("\"abc @")]));
}

#[test]
fn two_character_operators() {
    assert_eq!(lex("!="), Ok(vec![Token::Operator(Op::Neq)]));
    assert_eq!(lex("<>"), Ok(vec![Token::Operator(Op::Neq)]));
    assert_eq!(lex("<="), Ok(vec![Token::Operator(Op::Lte)]));
    assert_eq!(lex(">="), Ok(vec![Token::Operator(Op::Gte)]));
}

#[test]
fn less_than_then_number() {
    assert_eq!(lex("<5"), Ok(vec![Token::Operator(Op::Lt), num("5")]));
}

#[test]
fn one_character_comparison_and_negation() {
    assert_eq!(
        lex("> ! <"),
        Ok(vec![Token::Operator(Op::Gt), Token::Operator(Op::Not), Token::Operator(Op::Lt)])
    );
    assert_eq!(lex("><"), Ok(vec![Token::Operator(Op::Gt), Token::Operator(Op::Lt)]));
}

#[test]
fn single_character_operators() {
    assert_eq!(
        lex("+-*/=,():"),
        Ok(vec![
            Token::Operator(Op::Add),
            Token::Operator(Op::Sub),
            Token::Operator(Op::Mul),
            Token::Operator(Op::Div),
            Token::Operator(Op::Eq),
            Token::Operator(Op::Comma),
            Token::Operator(Op::LParen),
            Token::Operator(Op::RParen),
            Token::Operator(Op::Colon),
        ])
    );
}

#[test]
fn comment_excludes_newline() {
    assert_eq!(
        lex("# comment\nselect"),
        Ok(vec![Token::Comment("# comment".to_string()), Token::Keyword(Keyword::Select)])
    );
}

#[test]
fn unrecognized_character_fails() {
    assert_eq!(lex("@"), Err(LexerError::UnrecognizedToken));
    assert_eq!(lex("select a @ b"), Err(LexerError::UnrecognizedToken));
    assert_eq!(lex("é"), Err(LexerError::UnrecognizedToken));
}

#[test]
fn unicode_inside_string_and_comment_is_kept() {
    assert_eq!(
        lex("\"é\" #ü"),
        Ok(vec![lit("\"é\""), Token::Comment("#ü".to_string())])
    );
}

#[test]
fn query_in_source_order() {
    assert_eq!(
        lex("SELECT a, b FROM t WHERE x >= 10.5 AND y <> \"z\""),
        Ok(vec![
            Token::Keyword(Keyword::Select),
            lit("a"),
            Token::Operator(Op::Comma),
            lit("b"),
            lit("FROM"),
            lit("t"),
            lit("WHERE"),
            lit("x"),
            Token::Operator(Op::Gte),
            num("10.5"),
            Token::Operator(Op::And),
            lit("y"),
            Token::Operator(Op::Neq),
            lit("\"z\""),
        ])
    );
}

#[test]
fn tokenize_twice_gives_same_result() {
    let l = Lexer::new("select x <= 3");
    assert_eq!(l.tokenize(), l.tokenize());
}

#[test]
fn op_from_char_table() {
    assert_eq!(Op::from_char('+'), Some(Op::Add));
    assert_eq!(Op::from_char(':'), Some(Op::Colon));
    assert_eq!(Op::from_char('<'), None);
    assert_eq!(Op::from_char('a'), None);
}

#[test]
fn op_from_str_table() {
    assert_eq!(Op::from_str("!="), Some(Op::Neq));
    assert_eq!(Op::from_str("<>"), Some(Op::Neq));
    assert_eq!(Op::from_str("<="), Some(Op::Lte));
    assert_eq!(Op::from_str(">="), Some(Op::Gte));
    assert_eq!(Op::from_str("<"), Some(Op::Lt));
    assert_eq!(Op::from_str(">"), Some(Op::Gt));
    assert_eq!(Op::from_str("!"), Some(Op::Not));
    assert_eq!(Op::from_str("=="), None);
    assert_eq!(Op::from_str(""), None);
    assert_eq!(Op::from_str("<=>"), None);
}
