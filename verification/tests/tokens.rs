use tree::scanner::{can_scan, keyword_type, scan_tokens, Literal, Token, TokenType};

fn scan(source: &str) -> Vec<Token> {
    scan_tokens(source.to_string()).unwrap()
}

fn kinds(tokens: &[Token]) -> Vec<TokenType> {
    tokens.iter().map(|token| token.tty).collect()
}

fn numeral(token: &Token) -> String {
    match &token.literal {
        Some(Literal::Number(numeral)) => numeral.clone(),
        other => panic!("not a number: {:?}", other),
    }
}

#[test]
fn punctuation() {
    let tokens = scan("(){}[],.-+;/*");
    assert_eq!(
        kinds(&tokens),
        vec![
            TokenType::LeftParen,
            TokenType::RightParen,
            TokenType::LeftBrace,
            TokenType::RightBrace,
            TokenType::LeftBracket,
            TokenType::RightBracket,
            TokenType::Comma,
            TokenType::Dot,
            TokenType::Minus,
            TokenType::Plus,
            TokenType::Semicolon,
            TokenType::Slash,
            TokenType::Star,
            TokenType::Eof,
        ]
    );
    for (i, token) in tokens.iter().enumerate().take(13) {
        assert_eq!(token.lexeme.len(), 1);
        assert!(token.literal.is_none());
        assert_eq!(token.line, 1);
        assert_eq!(token.col, i as i64);
    }
}

#[test]
fn operators_of_one_and_two_characters() {
    let tokens = scan("! != = == < <= > >=");
    assert_eq!(
        kinds(&tokens),
        vec![
            TokenType::Bang,
            TokenType::BangEqual,
            TokenType::Equal,
            TokenType::EqualEqual,
            TokenType::Less,
            TokenType::LessEqual,
            TokenType::Greater,
            TokenType::GreaterEqual,
            TokenType::Eof,
        ]
    );
    let lexemes: Vec<Vec<u8>> = tokens.iter().map(|token| token.lexeme.clone()).collect();
    assert_eq!(
        lexemes,
        vec![
            b"!".to_vec(),
            b"!=".to_vec(),
            b"=".to_vec(),
            b"==".to_vec(),
            b"<".to_vec(),
            b"<=".to_vec(),
            b">".to_vec(),
            b">=".to_vec(),
            Vec::new(),
        ]
    );
}

#[test]
fn the_longer_operator_wins_and_only_with_equal() {
    assert_eq!(
        kinds(&scan("===")),
        vec![TokenType::EqualEqual, TokenType::Equal, TokenType::Eof]
    );
    assert_eq!(
        kinds(&scan("!==")),
        vec![TokenType::BangEqual, TokenType::Equal, TokenType::Eof]
    );
    assert_eq!(kinds(&scan("<>")), vec![TokenType::Less, TokenType::Greater, TokenType::Eof]);
    assert_eq!(kinds(&scan("=!")), vec![TokenType::Equal, TokenType::Bang, TokenType::Eof]);
    assert_eq!(
        kinds(&scan("! =")),
        vec![TokenType::Bang, TokenType::Equal, TokenType::Eof]
    );
}

#[test]
fn keywords() {
    let tokens =
        scan("and class else false fun for if nil or print return super this true var while lambda");
    assert_eq!(
        kinds(&tokens),
        vec![
            TokenType::And,
            TokenType::Class,
            TokenType::Else,
            TokenType::False,
            TokenType::Fun,
            TokenType::For,
            TokenType::If,
            TokenType::Nil,
            TokenType::Or,
            TokenType::Print,
            TokenType::Return,
            TokenType::Super,
            TokenType::This,
            TokenType::True,
            TokenType::Var,
            TokenType::While,
            TokenType::Lambda,
            TokenType::Eof,
        ]
    );
    for token in &tokens {
        assert!(token.literal.is_none());
    }
}

#[test]
fn keyword_lookup() {
    assert_eq!(keyword_type("and"), Some(TokenType::And));
    assert_eq!(keyword_type("class"), Some(TokenType::Class));
    assert_eq!(keyword_type("else"), Some(TokenType::Else));
    assert_eq!(keyword_type("false"), Some(TokenType::False));
    assert_eq!(keyword_type("for"), Some(TokenType::For));
    assert_eq!(keyword_type("fun"), Some(TokenType::Fun));
    assert_eq!(keyword_type("if"), Some(TokenType::If));
    assert_eq!(keyword_type("nil"), Some(TokenType::Nil));
    assert_eq!(keyword_type("or"), Some(TokenType::Or));
    assert_eq!(keyword_type("print"), Some(TokenType::Print));
    assert_eq!(keyword_type("return"), Some(TokenType::Return));
    assert_eq!(keyword_type("super"), Some(TokenType::Super));
    assert_eq!(keyword_type("this"), Some(TokenType::This));
    assert_eq!(keyword_type("true"), Some(TokenType::True));
    assert_eq!(keyword_type("var"), Some(TokenType::Var));
    assert_eq!(keyword_type("while"), Some(TokenType::While));
    assert_eq!(keyword_type("lambda"), Some(TokenType::Lambda));
}

#[test]
fn keyword_lookup_is_exact() {
    assert_eq!(keyword_type(""), None);
    assert_eq!(keyword_type("fu"), None);
    assert_eq!(keyword_type("funct"), None);
    assert_eq!(keyword_type("Fun"), None);
    assert_eq!(keyword_type("FUN"), None);
    assert_eq!(keyword_type("fun "), None);
    assert_eq!(keyword_type("eof"), None);
    assert_eq!(keyword_type("identifier"), None);
    assert_eq!(keyword_type("o\u{72}"), Some(TokenType::Or));
    assert_eq!(keyword_type("\u{f6}r"), None);
}

#[test]
fn keywords_are_case_sensitive() {
    let tokens = scan("Fun WHILE nil1 Nil");
    assert_eq!(
        kinds(&tokens),
        vec![
            TokenType::Identifier,
            TokenType::Identifier,
            TokenType::Identifier,
            TokenType::Identifier,
            TokenType::Eof,
        ]
    );
}

#[test]
fn identifiers_hold_letters_and_digits() {
    let tokens = scan("a1b2 Z9 x");
    assert_eq!(
        kinds(&tokens),
        vec![TokenType::Identifier, TokenType::Identifier, TokenType::Identifier, TokenType::Eof]
    );
    let texts: Vec<String> = tokens[..3]
        .iter()
        .map(|token| match &token.literal {
            Some(Literal::Identifier(text)) => text.clone(),
            other => panic!("not an identifier: {:?}", other),
        })
        .collect();
    assert_eq!(texts, vec!["a1b2", "Z9", "x"]);
    assert_eq!(tokens[0].lexeme, b"a1b2".to_vec());
}

#[test]
fn a_digit_starts_a_number_not_a_word() {
    let tokens = scan("1a");
    assert_eq!(kinds(&tokens), vec![TokenType::Number, TokenType::Identifier, TokenType::Eof]);
    assert_eq!(numeral(&tokens[0]), "1");
}

#[test]
fn number_with_a_fraction() {
    let tokens = scan("12.50");
    assert_eq!(kinds(&tokens), vec![TokenType::Number, TokenType::Eof]);
    assert_eq!(numeral(&tokens[0]), "12.50");
    assert_eq!(numeral(&tokens[0]).parse::<f64>().unwrap(), 12.5);
    assert_eq!(tokens[0].lexeme, b"12.50".to_vec());
    assert_eq!(tokens[0].col, 4);
}

#[test]
fn number_with_many_digits() {
    let tokens = scan("00123456789012345678901234567890");
    assert_eq!(kinds(&tokens), vec![TokenType::Number, TokenType::Eof]);
    assert_eq!(numeral(&tokens[0]), "00123456789012345678901234567890");
    assert_eq!(numeral(&tokens[0]).parse::<f64>().unwrap(), 123456789012345678901234567890.0);
}

#[test]
fn trailing_dot_is_left_for_the_next_token() {
    let tokens = scan("5.");
    assert_eq!(kinds(&tokens), vec![TokenType::Number, TokenType::Dot, TokenType::Eof]);
    assert_eq!(numeral(&tokens[0]), "5");

    let tokens = scan("5.x");
    assert_eq!(
        kinds(&tokens),
        vec![TokenType::Number, TokenType::Dot, TokenType::Identifier, TokenType::Eof]
    );
}

#[test]
fn leading_dot_is_a_token_of_its_own() {
    let tokens = scan(".5");
    assert_eq!(kinds(&tokens), vec![TokenType::Dot, TokenType::Number, TokenType::Eof]);
    assert_eq!(numeral(&tokens[1]), "5");
}

#[test]
fn a_number_has_one_dot_at_most() {
    let tokens = scan("1.2.3");
    assert_eq!(
        kinds(&tokens),
        vec![TokenType::Number, TokenType::Dot, TokenType::Number, TokenType::Eof]
    );
    assert_eq!(numeral(&tokens[0]), "1.2");
    assert_eq!(numeral(&tokens[2]), "3");
}

#[test]
fn minus_is_not_part_of_a_number() {
    let tokens = scan("-1");
    assert_eq!(kinds(&tokens), vec![TokenType::Minus, TokenType::Number, TokenType::Eof]);
}

#[test]
fn slash_and_comment() {
    let tokens = scan("a / b // c / d\n/ e");
    assert_eq!(
        kinds(&tokens),
        vec![
            TokenType::Identifier,
            TokenType::Slash,
            TokenType::Identifier,
            TokenType::Slash,
            TokenType::Identifier,
            TokenType::Eof,
        ]
    );
    assert_eq!(tokens[3].line, 2);
}

#[test]
fn comment_at_the_end_of_the_source() {
    let tokens = scan("x //");
    assert_eq!(kinds(&tokens), vec![TokenType::Identifier, TokenType::Eof]);
    assert_eq!(tokens[1].line, 1);
    assert_eq!(tokens[1].col, 3);
}

#[test]
fn slashes_inside_a_string_start_no_comment() {
    let tokens = scan("\"a // b\" c");
    assert_eq!(kinds(&tokens), vec![TokenType::String, TokenType::Identifier, TokenType::Eof]);
    assert_eq!(tokens[0].literal.as_ref().map(|l| format!("{:?}", l)), Some("Str(\"a // b\")".to_string()));
}

#[test]
fn quote_inside_a_comment_starts_no_string() {
    let tokens = scan("// \"\nx");
    assert_eq!(kinds(&tokens), vec![TokenType::Identifier, TokenType::Eof]);
}

#[test]
fn any_source_at_hand_can_be_scanned() {
    assert!(can_scan(""));
    assert!(can_scan("print \"hello\";"));
}
