use tree::scanner::{scan_tokens, Token, TokenType};

fn scan(source: &str) -> Vec<Token> {
    scan_tokens(source.to_string()).unwrap()
}

fn lines(tokens: &[Token]) -> Vec<usize> {
    tokens.iter().map(|token| token.line).collect()
}

fn cols(tokens: &[Token]) -> Vec<i64> {
    tokens.iter().map(|token| token.col).collect()
}

#[test]
fn the_first_byte_is_at_column_zero() {
    let tokens = scan("a");
    assert_eq!(lines(&tokens), vec![1, 1]);
    assert_eq!(cols(&tokens), vec![0, 0]);
}

#[test]
fn a_token_is_at_the_column_of_its_last_byte() {
    let tokens = scan("abc  12 ==");
    assert_eq!(cols(&tokens), vec![2, 6, 9, 9]);
}

#[test]
fn newline_starts_a_line_at_column_zero() {
    let tokens = scan("a\nb\n\ncd");
    assert_eq!(lines(&tokens), vec![1, 2, 4, 4]);
    assert_eq!(cols(&tokens), vec![0, 1, 2, 2]);
}

#[test]
fn end_of_input_after_a_newline() {
    let tokens = scan("a\n");
    assert_eq!(tokens[1].tty, TokenType::Eof);
    assert_eq!(lines(&tokens), vec![1, 2]);
    assert_eq!(cols(&tokens), vec![0, 0]);
}

#[test]
fn carriage_return_and_tab_count_as_columns() {
    let tokens = scan("\ta\r\n\tb");
    assert_eq!(lines(&tokens), vec![1, 2, 2]);
    assert_eq!(cols(&tokens), vec![1, 2, 2]);
}

#[test]
fn comment_counts_as_columns_and_ends_before_the_newline() {
    let tokens = scan("a // bc\nd");
    assert_eq!(lines(&tokens), vec![1, 2, 2]);
    assert_eq!(cols(&tokens), vec![0, 1, 1]);
}

#[test]
fn lines_never_decrease() {
    let tokens = scan("a \"b\n\nc\" d\n// e\nf \"g\n\" h");
    assert_eq!(lines(&tokens), vec![1, 3, 3, 5, 6, 6, 6]);
    for pair in tokens.windows(2) {
        assert!(pair[0].line <= pair[1].line);
    }
}

#[test]
fn the_line_counts_the_newlines_up_to_the_end_of_the_token() {
    let source = "a \"b\n\nc\" d\n// e\nf \"g\n\" h\n";
    let tokens = scan(source);
    let ends = [1, 8, 10, 17, 22, 24, 25];
    assert_eq!(tokens.len(), ends.len());
    for (token, end) in tokens.iter().zip(ends) {
        let newlines = source.as_bytes()[..end].iter().filter(|b| **b == b'\n').count();
        assert_eq!(token.line, 1 + newlines);
    }
}
