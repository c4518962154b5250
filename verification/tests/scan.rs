use tree::scanner::{scan_tokens, Literal, Scanner, ScannerError, Token, TokenType};

fn scan(source: &str) -> Vec<Token> {
    scan_tokens(source.to_string()).unwrap()
}

fn scan_err(source: &str) -> ScannerError {
    scan_tokens(source.to_string()).unwrap_err()
}

fn kinds(tokens: &[Token]) -> Vec<TokenType> {
    tokens.iter().map(|token| token.tty).collect()
}

fn number_value(token: &Token) -> f64 {
    match &token.literal {
        Some(Literal::Number(numeral)) => numeral.parse::<f64>().unwrap(),
        other => panic!("not a number: {:?}", other),
    }
}

fn identifier_text(token: &Token) -> String {
    match &token.literal {
        Some(Literal::Identifier(text)) => text.clone(),
        other => panic!("not an identifier: {:?}", other),
    }
}

fn string_text(token: &Token) -> String {
    match &token.literal {
        Some(Literal::Str(text)) => text.clone(),
        other => panic!("not a string: {:?}", other),
    }
}

#[test]
fn empty_source_scans_to_the_end_of_input_token() {
    let tokens = scan("");
    assert_eq!(tokens.len(), 1);
    assert_eq!(tokens[0].tty, TokenType::Eof);
    assert!(tokens[0].lexeme.is_empty());
    assert!(tokens[0].literal.is_none());
    assert_eq!(tokens[0].line, 1);
    assert_eq!(tokens[0].col, -1);
}

#[test]
fn whitespace_and_comments_scan_to_the_end_of_input_token() {
    let tokens = scan("  \t\r\n// a comment, with \"quotes\" and @\n\t// another");
    assert_eq!(tokens.len(), 1);
    assert_eq!(tokens[0].tty, TokenType::Eof);
    assert!(tokens[0].lexeme.is_empty());
    assert!(tokens[0].literal.is_none());
    assert_eq!(tokens[0].line, 3);
}

#[test]
fn one_plus_two() {
    let tokens = scan("1+2");
    assert_eq!(
        kinds(&tokens),
        vec![TokenType::Number, TokenType::Plus, TokenType::Number, TokenType::Eof]
    );
    assert_eq!(number_value(&tokens[0]), 1.0);
    assert!(tokens[1].literal.is_none());
    assert_eq!(number_value(&tokens[2]), 2.0);
    assert!(tokens[3].literal.is_none());
    assert_eq!(tokens[0].lexeme, b"1".to_vec());
    assert_eq!(tokens[1].lexeme, b"+".to_vec());
    assert_eq!(tokens[2].lexeme, b"2".to_vec());
    assert!(tokens[3].lexeme.is_empty());
    for pair in tokens.windows(2) {
        assert!(pair[0].line <= pair[1].line);
    }
    assert_eq!(tokens.iter().map(|token| token.line).collect::<Vec<_>>(), vec![1, 1, 1, 1]);
    assert_eq!(tokens.iter().map(|token| token.col).collect::<Vec<_>>(), vec![0, 1, 2, 2]);
}

#[test]
fn string_literal_carries_the_text_between_its_quotes() {
    let tokens = scan("\"hi\"");
    assert_eq!(kinds(&tokens), vec![TokenType::String, TokenType::Eof]);
    assert_eq!(string_text(&tokens[0]), "hi");
    assert_eq!(tokens[0].lexeme, b"\"hi\"".to_vec());
    assert_eq!(tokens[0].line, 1);
    assert_eq!(tokens[0].col, 3);
}

#[test]
fn empty_string_literal() {
    let tokens = scan("\"\"");
    assert_eq!(kinds(&tokens), vec![TokenType::String, TokenType::Eof]);
    assert_eq!(string_text(&tokens[0]), "");
    assert_eq!(tokens[0].lexeme, b"\"\"".to_vec());
}

#[test]
fn backslash_in_a_string_is_an_ordinary_character() {
    let tokens = scan("\"a\\\" b");
    assert_eq!(kinds(&tokens), vec![TokenType::String, TokenType::Identifier, TokenType::Eof]);
    assert_eq!(string_text(&tokens[0]), "a\\");
    assert_eq!(identifier_text(&tokens[1]), "b");
}

#[test]
fn string_may_hold_text_outside_ascii() {
    let tokens = scan("\"h\u{e9}llo \u{4eac}\" x");
    assert_eq!(kinds(&tokens), vec![TokenType::String, TokenType::Identifier, TokenType::Eof]);
    assert_eq!(string_text(&tokens[0]), "h\u{e9}llo \u{4eac}");
    assert_eq!(tokens[0].lexeme, "\"h\u{e9}llo \u{4eac}\"".as_bytes().to_vec());
    // The column counts bytes: 12 in the literal, the last at column 11.
    assert_eq!(tokens[0].col, 11);
}

#[test]
fn unterminated_string_fails() {
    let err = scan_err("\"unterminated");
    assert_eq!(err.what, "Unterminated string.");
    assert_eq!(err.line, 1);
    assert_eq!(err.col, 12);
}

#[test]
fn unterminated_string_is_reported_at_the_end_of_the_source() {
    let err = scan_err("x \"a\nb\n");
    assert_eq!(err.what, "Unterminated string.");
    assert_eq!(err.line, 3);
    assert_eq!(err.col, 6);
}

#[test]
fn fun_is_a_keyword_and_funct_is_an_identifier() {
    let tokens = scan("fun");
    assert_eq!(kinds(&tokens), vec![TokenType::Fun, TokenType::Eof]);
    assert!(tokens[0].literal.is_none());
    assert_eq!(tokens[0].lexeme, b"fun".to_vec());

    let tokens = scan("funct");
    assert_eq!(kinds(&tokens), vec![TokenType::Identifier, TokenType::Eof]);
    assert_eq!(identifier_text(&tokens[0]), "funct");
    assert_eq!(tokens[0].lexeme, b"funct".to_vec());
}

#[test]
fn bang_equal_is_one_token() {
    let tokens = scan("!=");
    assert_eq!(kinds(&tokens), vec![TokenType::BangEqual, TokenType::Eof]);
    assert_eq!(tokens[0].lexeme, b"!=".to_vec());
    assert_eq!(tokens[0].col, 1);

    let tokens = scan("!");
    assert_eq!(kinds(&tokens), vec![TokenType::Bang, TokenType::Eof]);
    assert_eq!(tokens[0].lexeme, b"!".to_vec());
    assert_eq!(tokens[0].col, 0);
}

#[test]
fn newline_inside_a_string_counts_as_a_line() {
    let tokens = scan("\"a\nb\" c");
    assert_eq!(kinds(&tokens), vec![TokenType::String, TokenType::Identifier, TokenType::Eof]);
    assert_eq!(string_text(&tokens[0]), "a\nb");
    assert_eq!(tokens[0].lexeme, b"\"a\nb\"".to_vec());
    assert_eq!(tokens[0].line, 2);
    assert_eq!(tokens[1].line, 2);
    assert_eq!(tokens[2].line, 2);
    // A newline inside a string does not reset the column.
    assert_eq!(tokens[0].col, 4);
    assert_eq!(tokens[1].col, 6);
}

#[test]
fn every_lexeme_is_the_slice_of_the_source_it_was_read_from() {
    let source = "var answer = (40 + 2.5) / x1; // why\nprint \"so\nit is\" != nil;";
    let bytes = source.as_bytes();
    let tokens = scan(source);
    let spans: Vec<(usize, usize)> = vec![
        (0, 3),
        (4, 10),
        (11, 12),
        (13, 14),
        (14, 16),
        (17, 18),
        (19, 22),
        (22, 23),
        (24, 25),
        (26, 28),
        (28, 29),
        (37, 42),
        (43, 53),
        (54, 56),
        (57, 60),
        (60, 61),
        (61, 61),
    ];
    assert_eq!(tokens.len(), spans.len());
    for (token, (start, end)) in tokens.iter().zip(spans) {
        assert_eq!(token.lexeme, bytes[start..end].to_vec());
    }
    assert_eq!(
        kinds(&tokens),
        vec![
            TokenType::Var,
            TokenType::Identifier,
            TokenType::Equal,
            TokenType::LeftParen,
            TokenType::Number,
            TokenType::Plus,
            TokenType::Number,
            TokenType::RightParen,
            TokenType::Slash,
            TokenType::Identifier,
            TokenType::Semicolon,
            TokenType::Print,
            TokenType::String,
            TokenType::BangEqual,
            TokenType::Nil,
            TokenType::Semicolon,
            TokenType::Eof,
        ]
    );
    assert_eq!(number_value(&tokens[6]), 2.5);
    assert_eq!(string_text(&tokens[12]), "so\nit is");
}

#[test]
fn lexemes_rebuild_a_source_without_blanks() {
    let source = "{a1<=b2}[3.25,!c]==\"s\";";
    let tokens = scan(source);
    let mut rebuilt: Vec<u8> = Vec::new();
    for token in &tokens {
        rebuilt.extend_from_slice(&token.lexeme);
    }
    assert_eq!(rebuilt, source.as_bytes().to_vec());
}

#[test]
fn unrecognized_byte_fails() {
    let err = scan_err("@");
    assert_eq!(err.what, "Unexpected character at @");
    assert_eq!(err.line, 1);
    assert_eq!(err.col, 0);
}

#[test]
fn unrecognized_byte_leaves_no_tokens() {
    let mut scanner = Scanner::new();
    scanner.scan_tokens("@".to_string());
    assert!(scanner.tokens.is_empty());
    let err = scanner.err.unwrap();
    assert_eq!(err.what, "Unexpected character at @");
    assert_eq!(err.line, 1);
    assert_eq!(err.col, 0);
    assert_eq!(scanner.current, 1);
}

#[test]
fn first_error_ends_the_scan() {
    let mut scanner = Scanner::new();
    scanner.scan_tokens("1 + # 2 $".to_string());
    assert_eq!(kinds(&scanner.tokens), vec![TokenType::Number, TokenType::Plus]);
    let err = scanner.err.unwrap();
    assert_eq!(err.what, "Unexpected character at #");
    assert_eq!(err.line, 1);
    assert_eq!(err.col, 4);
    assert_eq!(scanner.current, 5);
    assert_eq!(scanner.source, b"1 + # 2 $".to_vec());

    assert!(scan_tokens("1 + # 2 $".to_string()).is_err());
}

#[test]
fn underscore_is_not_part_of_a_word() {
    let mut scanner = Scanner::new();
    scanner.scan_tokens("foo_bar".to_string());
    assert_eq!(kinds(&scanner.tokens), vec![TokenType::Identifier]);
    assert_eq!(identifier_text(&scanner.tokens[0]), "foo");
    let err = scanner.err.unwrap();
    assert_eq!(err.what, "Unexpected character at _");
    assert_eq!(err.col, 3);
}

#[test]
fn byte_outside_ascii_is_unexpected_outside_strings_and_comments() {
    // The first byte of the two that encode the letter is reported, as the
    // character with its code.
    let err = scan_err("\u{e9}t\u{e9}");
    assert_eq!(err.what, "Unexpected character at \u{c3}");
    assert_eq!(err.line, 1);
    assert_eq!(err.col, 0);

    let tokens = scan("// \u{e9}t\u{e9}\nx");
    assert_eq!(kinds(&tokens), vec![TokenType::Identifier, TokenType::Eof]);
}

#[test]
fn fresh_scanner() {
    let scanner = Scanner::new();
    assert!(scanner.source.is_empty());
    assert!(scanner.tokens.is_empty());
    assert!(scanner.err.is_none());
    assert_eq!(scanner.start, 0);
    assert_eq!(scanner.current, 0);
    assert_eq!(scanner.line, 1);
    assert_eq!(scanner.col, -1);
}

#[test]
fn scanner_ends_at_the_end_of_the_source() {
    let mut scanner = Scanner::new();
    scanner.scan_tokens("a\n b".to_string());
    assert!(scanner.err.is_none());
    assert_eq!(scanner.source, b"a\n b".to_vec());
    assert_eq!(scanner.current, 4);
    assert_eq!(scanner.line, 2);
    assert_eq!(scanner.col, 2);
    assert_eq!(
        kinds(&scanner.tokens),
        vec![TokenType::Identifier, TokenType::Identifier, TokenType::Eof]
    );
}
