use exprcc::lexer::{LexError, Lexer, Reserved, Token, TokenKind};
use exprcc::literal::parse_isize;
use exprcc::report::render_error;
use exprcc::parser::SyntaxError;

#[test]
fn take_num_str() {
    {
        let input = "123".to_string();
        let mut lexer = Lexer::new(&input);

        assert_eq!(input, lexer.take_num_str().unwrap());
    }

    {
        let input = "+456".to_string();
        let mut lexer = Lexer::new(&input);

        assert_eq!(input[1..4], lexer.take_num_str().unwrap());
    }

    {
        let input = "-789".to_string();
        let mut lexer = Lexer::new(&input);

        assert_eq!(input, lexer.take_num_str().unwrap());
    }

    {
        let input = "0".to_string();
        let mut lexer = Lexer::new(&input);

        assert_eq!(input, lexer.take_num_str().unwrap());
    }

    {
        let input = "-0".to_string();
        let mut lexer = Lexer::new(&input);

        assert_eq!(input[1..2], lexer.take_num_str().unwrap());
    }

    {
        let input = "123a".to_string();
        let mut lexer = Lexer::new(&input);

        assert_eq!(("123".to_string(), 'a'), lexer.take_num_str().unwrap_err());
    }

    {
        let input = "5+20".to_string();
        let mut lexer = Lexer::new(&input);

        assert_eq!(("5".to_string(), '+'), lexer.take_num_str().unwrap_err());
    }
}

#[test]
fn start_with() {
    let input = "hello".to_string();
    let lexer = Lexer::new(&input);

    assert_eq!(true, lexer.start_with("hello"));
    assert_eq!(true, lexer.start_with("h"));
    assert_eq!(false, lexer.start_with("adsf"));
    assert_eq!(false, lexer.start_with("ha"));
    assert_eq!(false, lexer.start_with("ha"));
    assert_eq!(false, lexer.start_with("hello world"));
}

fn kinds(input: &str) -> Result<Vec<TokenKind>, LexError> {
    let input = input.to_string();
    let mut lexer = Lexer::new(&input);
    lexer.tokenize().map(|v| v.iter().map(|t| t.kind).collect())
}

#[test]
fn scanner_skips_leading_space_and_stops_at_other_chars() {
    let input = "  42".to_string();
    let mut lexer = Lexer::new(&input);
    assert_eq!(Ok("42".to_string()), lexer.take_num_str());
    assert_eq!(4, lexer.pos);

    let input = "  42 ".to_string();
    let mut lexer = Lexer::new(&input);
    assert_eq!(Err(("42".to_string(), ' ')), lexer.take_num_str());

    let input = "+x".to_string();
    let mut lexer = Lexer::new(&input);
    assert_eq!(Err((String::new(), '+')), lexer.take_num_str());

    let input = "-".to_string();
    let mut lexer = Lexer::new(&input);
    assert_eq!(Err((String::new(), '-')), lexer.take_num_str());

    let input = "".to_string();
    let mut lexer = Lexer::new(&input);
    assert_eq!(Ok(String::new()), lexer.take_num_str());
}

#[test]
fn minus_zero_scans_as_zero() {
    let a = "-0".to_string();
    let b = "0".to_string();
    assert_eq!(Lexer::new(&a).take_num_str(), Lexer::new(&b).take_num_str());
    let a = "-0+1".to_string();
    let b = "0+1".to_string();
    assert_eq!(Lexer::new(&a).take_num_str(), Lexer::new(&b).take_num_str());
}

#[test]
fn leading_zero_ends_literal() {
    let input = "007".to_string();
    let mut lexer = Lexer::new(&input);
    assert_eq!(Err(("0".to_string(), '0')), lexer.take_num_str());
    assert_eq!(1, lexer.pos);
    assert_eq!(
        Ok(vec![TokenKind::Num(0), TokenKind::Num(0), TokenKind::Num(7), TokenKind::EOF]),
        kinds("007")
    );
}

#[test]
fn tokenize_symbols_and_positions() {
    let input = "(1+ 23)<=4 != 5>6>=7<8==9-1*2/3".to_string();
    let mut lexer = Lexer::new(&input);
    let tokens = lexer.tokenize().unwrap();
    let expected = vec![
        TokenKind::Reserved(Reserved::LeftParen),
        TokenKind::Num(1),
        TokenKind::Reserved(Reserved::Plus),
        TokenKind::Num(23),
        TokenKind::Reserved(Reserved::RightParen),
        TokenKind::Reserved(Reserved::Le),
        TokenKind::Num(4),
        TokenKind::Reserved(Reserved::Ne),
        TokenKind::Num(5),
        TokenKind::Reserved(Reserved::Gt),
        TokenKind::Num(6),
        TokenKind::Reserved(Reserved::Ge),
        TokenKind::Num(7),
        TokenKind::Reserved(Reserved::Lt),
        TokenKind::Num(8),
        TokenKind::Reserved(Reserved::Eq),
        TokenKind::Num(9),
        TokenKind::Reserved(Reserved::Minus),
        TokenKind::Num(1),
        TokenKind::Reserved(Reserved::Asterisk),
        TokenKind::Num(2),
        TokenKind::Reserved(Reserved::Slash),
        TokenKind::Num(3),
        TokenKind::EOF,
    ];
    assert_eq!(expected, tokens.iter().map(|t| t.kind).collect::<Vec<_>>());
    assert_eq!(Token::new(TokenKind::Num(23), 4), tokens[3]);
    assert_eq!(Token::new(TokenKind::Reserved(Reserved::Le), 7), tokens[5]);
    assert_eq!(Token::new(TokenKind::EOF, input.len()), tokens[23]);
    assert_eq!(tokens, lexer.get_tokens());
    assert_eq!(0, lexer.get_chars().len());
}

#[test]
fn tokenize_skips_unicode_white_space() {
    assert_eq!(
        Ok(vec![
            TokenKind::Num(1),
            TokenKind::Reserved(Reserved::Plus),
            TokenKind::Num(2),
            TokenKind::EOF
        ]),
        kinds("\t1\u{3000}+\n2\u{a0}")
    );
}

#[test]
fn tokenize_errors() {
    assert_eq!(Err(LexError::UnexpectedChar { pos: 2 }), kinds("1 $ 2"));
    assert_eq!(Err(LexError::InvalidOperator { pos: 2 }), kinds("1 = 2"));
    assert_eq!(Err(LexError::InvalidOperator { pos: 0 }), kinds("!"));
    assert_eq!(Err(LexError::NumberOutOfRange), kinds("1 + 99999999999999999999"));
    assert_eq!(Ok(vec![TokenKind::Num(isize::MAX), TokenKind::EOF]), kinds(&isize::MAX.to_string()));

    let input = "12 # 3".to_string();
    let mut lexer = Lexer::new(&input);
    assert!(lexer.tokenize().is_err());
    assert_eq!(3, lexer.pos);
    assert_eq!(vec!['#', ' ', '3'], lexer.get_chars());
}

#[test]
fn reserved_lengths_and_chars() {
    assert_eq!(1, Reserved::Plus.len());
    assert_eq!(1, Reserved::Lt.len());
    assert_eq!(2, Reserved::Le.len());
    assert_eq!(2, Reserved::Ne.len());
    assert_eq!(2, Reserved::Eq.len());
    assert!(matches!(Reserved::try_from_char(&'('), Ok(Reserved::LeftParen)));
    assert!(matches!(Reserved::try_from_char(&'/'), Ok(Reserved::Slash)));
    match Reserved::try_from_char(&'x') {
        Err(e) => assert_eq!('x', e.0),
        Ok(_) => panic!("x is no symbol"),
    }
}

#[test]
fn token_cursor_moves_only_on_a_match() {
    let input = "( 7".to_string();
    let mut lexer = Lexer::new(&input);
    lexer.tokenize().unwrap();
    assert!(!lexer.consume(Reserved::RightParen));
    assert_eq!(0, lexer.next);
    assert_eq!(
        Err(SyntaxError::Expected { symbol: Reserved::RightParen, pos: 0 }),
        lexer.expect(Reserved::RightParen)
    );
    assert_eq!(Err(SyntaxError::ExpectedNumber { pos: 0 }), lexer.expect_number());
    assert_eq!(Ok(()), lexer.expect(Reserved::LeftParen));
    assert_eq!(Ok(7), lexer.expect_number());
    assert!(lexer.at_eof());
    assert_eq!(Err(SyntaxError::ExpectedNumber { pos: 3 }), lexer.expect_number());
    assert_eq!(input, lexer.get_input());
}

#[test]
fn parse_isize_like_std() {
    for s in ["0", "123", "-5", "+5", "9223372036854775807", "-9223372036854775808", "", "-", "12a", "9223372036854775808", "1-2"] {
        assert_eq!(s.parse::<isize>().ok(), parse_isize(s), "{}", s);
    }
}

#[test]
fn error_report_points_at_byte_offset() {
    assert_eq!("1 $ 2\n  ^ bad".to_string(), render_error("1 $ 2", 2, "bad"));
    // 'é' takes two bytes, so the third character starts at byte 3
    assert_eq!("é $\n   ^ x".to_string(), render_error("é $", 2, "x"));

    let input = "1 $ 2".to_string();
    let mut lexer = Lexer::new(&input);
    assert!(lexer.tokenize().is_err());
    assert_eq!("1 $ 2\n  ^ unexpected".to_string(), lexer.error_at("unexpected"));
}

#[test]
fn reserved_text() {
    assert_eq!(")", Reserved::RightParen.to_text());
    assert_eq!(">=", Reserved::Ge.to_text());
    assert_eq!("!=", Reserved::Ne.to_text());
}
