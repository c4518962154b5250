//! The lexical grammar as mathematics.
//!
//! Source text is a sequence of bytes. The grammar is written over ASCII:
//! letters are `a`-`z` and `A`-`Z`, digits are `0`-`9`. A byte outside ASCII
//! is accepted inside a string literal or a comment and is an unexpected
//! character anywhere else, so every identifier and every numeral is ASCII
//! text.
//!
//! [`scan_at`] says what is read at one position, [`Cursor::after`] how the
//! line and the column are counted, [`lex`] what a whole source scans to, and
//! [`token_of`] which token a lexeme yields.

use crate::text::as_chars;
use crate::token::{LiteralView, ScannerErrorView, TokenType, TokenView};
use vstd::prelude::*;
use vstd::utf8::decode_utf8;

verus! {

/// An ASCII digit.
pub open spec fn is_digit(b: u8) -> bool {
    '0' as u8 <= b <= '9' as u8
}

/// An ASCII letter.
pub open spec fn is_alpha(b: u8) -> bool {
    ('a' as u8 <= b <= 'z' as u8) || ('A' as u8 <= b <= 'Z' as u8)
}

/// An ASCII letter or digit.
pub open spec fn is_alphanumeric(b: u8) -> bool {
    is_alpha(b) || is_digit(b)
}

/// Whitespace that stays on the line: space, carriage return, tab.
pub open spec fn is_blank(b: u8) -> bool {
    b == ' ' as u8 || b == '\r' as u8 || b == '\t' as u8
}

/// Whether `src` has the byte `b` at index `at`.
pub open spec fn has_byte(src: Seq<u8>, at: int, b: u8) -> bool {
    0 <= at < src.len() && src[at] == b
}

/// Whitespace: what stays on the line, and the newline.
pub open spec fn is_whitespace(b: u8) -> bool {
    is_blank(b) || b == '\n' as u8
}

/// The token of a byte that is a token by itself, whatever follows it.
pub open spec fn punctuation(b: u8) -> Option<TokenType> {
    if b == '(' as u8 {
        Some(TokenType::LeftParen)
    } else if b == ')' as u8 {
        Some(TokenType::RightParen)
    } else if b == '{' as u8 {
        Some(TokenType::LeftBrace)
    } else if b == '}' as u8 {
        Some(TokenType::RightBrace)
    } else if b == '[' as u8 {
        Some(TokenType::LeftBracket)
    } else if b == ']' as u8 {
        Some(TokenType::RightBracket)
    } else if b == ',' as u8 {
        Some(TokenType::Comma)
    } else if b == '.' as u8 {
        Some(TokenType::Dot)
    } else if b == '-' as u8 {
        Some(TokenType::Minus)
    } else if b == '+' as u8 {
        Some(TokenType::Plus)
    } else if b == ';' as u8 {
        Some(TokenType::Semicolon)
    } else if b == '*' as u8 {
        Some(TokenType::Star)
    } else {
        None
    }
}

/// The token of a byte that starts an operator of one or two characters:
/// the two-character one where `=` follows it (`long`), else the
/// one-character one.
pub open spec fn operator(b: u8, long: bool) -> Option<TokenType> {
    if b == '!' as u8 {
        Some(if long { TokenType::BangEqual } else { TokenType::Bang })
    } else if b == '=' as u8 {
        Some(if long { TokenType::EqualEqual } else { TokenType::Equal })
    } else if b == '<' as u8 {
        Some(if long { TokenType::LessEqual } else { TokenType::Less })
    } else if b == '>' as u8 {
        Some(if long { TokenType::GreaterEqual } else { TokenType::Greater })
    } else {
        None
    }
}

/// The keyword that `text` spells, if it spells one. The match is exact and
/// case-sensitive.
pub open spec fn keyword(text: Seq<char>) -> Option<TokenType> {
    if text == "and"@ {
        Some(TokenType::And)
    } else if text == "class"@ {
        Some(TokenType::Class)
    } else if text == "else"@ {
        Some(TokenType::Else)
    } else if text == "false"@ {
        Some(TokenType::False)
    } else if text == "for"@ {
        Some(TokenType::For)
    } else if text == "fun"@ {
        Some(TokenType::Fun)
    } else if text == "if"@ {
        Some(TokenType::If)
    } else if text == "nil"@ {
        Some(TokenType::Nil)
    } else if text == "or"@ {
        Some(TokenType::Or)
    } else if text == "print"@ {
        Some(TokenType::Print)
    } else if text == "return"@ {
        Some(TokenType::Return)
    } else if text == "super"@ {
        Some(TokenType::Super)
    } else if text == "this"@ {
        Some(TokenType::This)
    } else if text == "true"@ {
        Some(TokenType::True)
    } else if text == "var"@ {
        Some(TokenType::Var)
    } else if text == "while"@ {
        Some(TokenType::While)
    } else if text == "lambda"@ {
        Some(TokenType::Lambda)
    } else {
        None
    }
}

/// Whether something the grammar knows starts with the byte `b`: a token,
/// whitespace or a comment.
pub open spec fn is_recognized(b: u8) -> bool {
    ||| punctuation(b) is Some
    ||| operator(b, false) is Some
    ||| b == '/' as u8
    ||| is_whitespace(b)
    ||| b == '"' as u8
    ||| is_digit(b)
    ||| is_alpha(b)
}

/// The kind of a word: the keyword it spells, else an identifier.
pub open spec fn word_kind(text: Seq<char>) -> TokenType {
    match keyword(text) {
        Some(kind) => kind,
        None => TokenType::Identifier,
    }
}

/// The kinds of run that the scanner reads byte after byte.
#[derive(Clone, Copy)]
pub enum Run {
    /// ASCII digits.
    Digits,
    /// ASCII letters and digits.
    Word,
    /// Anything up to the end of the line.
    Comment,
    /// Anything up to the next double quote.
    Text,
}

impl Run {
    /// Whether the byte `b` continues a run of this kind.
    pub open spec fn admits(self, b: u8) -> bool {
        match self {
            Run::Digits => is_digit(b),
            Run::Word => is_alphanumeric(b),
            Run::Comment => b != '\n' as u8,
            Run::Text => b != '"' as u8,
        }
    }
}

/// Where the longest run of the given kind that starts at `from` ends: the
/// index of the first byte at or after `from` that the run does not admit,
/// or the length of `src` if there is none.
pub open spec fn run_end(src: Seq<u8>, from: int, run: Run) -> int
    decreases src.len() - from,
{
    if 0 <= from < src.len() && run.admits(src[from]) {
        run_end(src, from + 1, run)
    } else {
        from
    }
}

/// How many newline bytes `bytes` holds.
pub open spec fn newlines(bytes: Seq<u8>) -> nat
    decreases bytes.len(),
{
    if bytes.len() == 0 {
        0
    } else {
        newlines(bytes.drop_last()) + if bytes.last() == '\n' as u8 {
            1nat
        } else {
            0nat
        }
    }
}

/// Where the numeral that starts at the digit `src[start]` ends: after its
/// digits, and after a dot and further digits where a dot and a digit follow.
pub open spec fn number_end(src: Seq<u8>, start: int) -> int {
    let whole = run_end(src, start, Run::Digits);
    if has_byte(src, whole, '.' as u8) && whole + 1 < src.len() && is_digit(src[whole + 1]) {
        run_end(src, whole + 1, Run::Digits)
    } else {
        whole
    }
}

/// What is read at one position.
pub enum Scanned {
    /// A lexeme of this kind.
    Token { kind: TokenType, end: int },
    /// Whitespace or a comment.
    Skipped { end: int },
    /// Nothing the grammar knows.
    Failed { fault: FaultKind, end: int },
}

impl Scanned {
    /// The index after the last byte read.
    pub open spec fn end(self) -> int {
        match self {
            Scanned::Token { kind, end } => end,
            Scanned::Skipped { end } => end,
            Scanned::Failed { fault, end } => end,
        }
    }
}

/// The two ways a scan fails.
pub enum FaultKind {
    /// A byte that starts nothing the grammar knows.
    UnexpectedCharacter(u8),
    /// A string literal that the source ends in.
    UnterminatedString,
}

impl FaultKind {
    /// The message that reports this failure. An unexpected byte is shown as
    /// the character with that code.
    pub open spec fn message(self) -> Seq<char> {
        match self {
            FaultKind::UnexpectedCharacter(b) => "Unexpected character at "@.push(b as char),
            FaultKind::UnterminatedString => "Unterminated string."@,
        }
    }
}

/// What is read from the byte at index `at` of `src` on.
///
/// The longer operator wins where `=` follows `!`, `=`, `<` or `>`. Two
/// slashes start a comment that runs up to, not over, the end of the line. A
/// string runs to the next double quote, across newlines; where there is no
/// such quote, all the rest is read and the scan fails. A word is a keyword
/// only if it spells one in full. A byte that starts nothing is read and the
/// scan fails.
pub open spec fn scan_at(src: Seq<u8>, at: int) -> Scanned
    recommends
        0 <= at < src.len(),
{
    let b = src[at];
    if punctuation(b) is Some {
        Scanned::Token { kind: punctuation(b).unwrap(), end: at + 1 }
    } else if operator(b, false) is Some {
        let long = has_byte(src, at + 1, '=' as u8);
        Scanned::Token { kind: operator(b, long).unwrap(), end: at + if long { 2int } else { 1 } }
    } else if b == '/' as u8 {
        if has_byte(src, at + 1, '/' as u8) {
            Scanned::Skipped { end: run_end(src, at + 2, Run::Comment) }
        } else {
            Scanned::Token { kind: TokenType::Slash, end: at + 1 }
        }
    } else if is_whitespace(b) {
        Scanned::Skipped { end: at + 1 }
    } else if b == '"' as u8 {
        let close = run_end(src, at + 1, Run::Text);
        if close < src.len() {
            Scanned::Token { kind: TokenType::String, end: close + 1 }
        } else {
            Scanned::Failed { fault: FaultKind::UnterminatedString, end: close }
        }
    } else if is_digit(b) {
        Scanned::Token { kind: TokenType::Number, end: number_end(src, at) }
    } else if is_alpha(b) {
        let end = run_end(src, at + 1, Run::Word);
        Scanned::Token { kind: word_kind(as_chars(src.subrange(at, end))), end }
    } else {
        Scanned::Failed { fault: FaultKind::UnexpectedCharacter(b), end: at + 1 }
    }
}

/// The state of a scan between two lexemes: the offset of the next byte, the
/// line counter and the column counter.
pub struct Cursor {
    pub pos: int,
    pub line: int,
    pub col: int,
}

impl Cursor {
    /// The cursor before the first byte: line 1, and a column from which the
    /// first byte read is at column 0.
    pub open spec fn start() -> Cursor {
        Cursor { pos: 0, line: 1, col: -1 }
    }

    /// The cursor after what was read from it up to `end`. The line counter
    /// has counted the newlines read. The column counter has counted the
    /// bytes read, but a newline that was read by itself, between lexemes,
    /// has set it to 0; a newline within a string has not.
    pub open spec fn after(self, src: Seq<u8>, end: int) -> Cursor {
        Cursor {
            pos: end,
            line: self.line + newlines(src.subrange(self.pos, end)),
            col: if has_byte(src, self.pos, '\n' as u8) {
                0
            } else {
                self.col + (end - self.pos)
            },
        }
    }
}

/// A failure and the line and column at which the scan stopped.
pub struct Fault {
    pub kind: FaultKind,
    pub line: int,
    pub col: int,
}

impl Fault {
    /// The error that reports this failure.
    pub open spec fn report(self) -> ScannerErrorView {
        ScannerErrorView { what: self.kind.message(), line: self.line, col: self.col }
    }
}

/// A lexeme: the kind of a token, the bytes `start..end` of the source that
/// it was read from, and the line and column of the cursor after it.
pub struct Lexeme {
    pub kind: TokenType,
    pub start: int,
    pub end: int,
    pub line: int,
    pub col: int,
}

/// The outcome of a scan: the lexemes read, the failure that stopped it if
/// one did, and where the cursor was left.
///
/// Without a failure the last lexeme is the end of input. With one, the
/// lexemes are those read before it.
pub struct Lexed {
    pub lexemes: Seq<Lexeme>,
    pub fault: Option<Fault>,
    pub end: Cursor,
}

impl Lexed {
    /// This outcome with the lexemes `before` read first.
    pub open spec fn after(self, before: Seq<Lexeme>) -> Lexed {
        Lexed { lexemes: before + self.lexemes, fault: self.fault, end: self.end }
    }
}

/// The end-of-input lexeme at the cursor `c`: no bytes, the cursor's line
/// and column.
pub open spec fn end_of_input(c: Cursor) -> Lexeme {
    Lexeme { kind: TokenType::Eof, start: c.pos, end: c.pos, line: c.line, col: c.col }
}

/// What `src` scans to from the cursor `c` on: lexeme after lexeme, up to
/// the end of input or the first failure.
pub open spec fn lex_from(src: Seq<u8>, c: Cursor) -> Lexed
    decreases src.len() - c.pos,
    via lex_from_terminates
{
    if !(0 <= c.pos < src.len()) {
        Lexed { lexemes: seq![end_of_input(c)], fault: None, end: c }
    } else {
        let read = scan_at(src, c.pos);
        let next = c.after(src, read.end());
        match read {
            Scanned::Token { kind, end } => lex_from(src, next).after(
                seq![Lexeme { kind, start: c.pos, end, line: next.line, col: next.col }],
            ),
            Scanned::Skipped { end } => lex_from(src, next),
            Scanned::Failed { fault, end } => Lexed {
                lexemes: Seq::empty(),
                fault: Some(Fault { kind: fault, line: next.line, col: next.col }),
                end: next,
            },
        }
    }
}

#[via_fn]
proof fn lex_from_terminates(src: Seq<u8>, c: Cursor) {
    if 0 <= c.pos < src.len() {
        lemma_scan_at_advances(src, c.pos);
    }
}

/// What `src` scans to.
pub open spec fn lex(src: Seq<u8>) -> Lexed {
    lex_from(src, Cursor::start())
}

/// The token that the lexeme `lx` of `src` yields. An identifier and a
/// number carry the characters of their bytes, which are ASCII; a string
/// carries the text between its quotes, read as UTF-8, with nothing
/// unescaped.
pub open spec fn token_of(src: Seq<u8>, lx: Lexeme) -> TokenView {
    let lexeme = src.subrange(lx.start, lx.end);
    TokenView {
        tty: lx.kind,
        lexeme,
        literal: match lx.kind {
            TokenType::Identifier => Some(LiteralView::Identifier(as_chars(lexeme))),
            TokenType::Number => Some(LiteralView::Number(as_chars(lexeme))),
            TokenType::String => Some(
                LiteralView::Str(decode_utf8(src.subrange(lx.start + 1, lx.end - 1))),
            ),
            _ => None,
        },
        line: lx.line,
        col: lx.col,
    }
}

/// The tokens that the lexemes of `src` yield, in order.
pub open spec fn tokens_of(src: Seq<u8>, lexemes: Seq<Lexeme>) -> Seq<TokenView> {
    lexemes.map_values(|lx: Lexeme| token_of(src, lx))
}

/// A run ends at or after its start and within the source.
pub proof fn lemma_run_end_bounds(src: Seq<u8>, from: int, run: Run)
    requires
        0 <= from <= src.len(),
    ensures
        from <= run_end(src, from, run) <= src.len(),
    decreases src.len() - from,
{
    if from < src.len() && run.admits(src[from]) {
        lemma_run_end_bounds(src, from + 1, run);
    }
}

/// A run is the longest one: it admits every byte up to its end, and not the
/// byte at its end.
pub proof fn lemma_run_end_is_longest(src: Seq<u8>, from: int, run: Run)
    requires
        0 <= from <= src.len(),
    ensures
        forall|k: int| from <= k < run_end(src, from, run) ==> run.admits(#[trigger] src[k]),
        run_end(src, from, run) < src.len() ==> !run.admits(src[run_end(src, from, run)]),
    decreases src.len() - from,
{
    if from < src.len() && run.admits(src[from]) {
        lemma_run_end_is_longest(src, from + 1, run);
    }
}

/// The end of a run is the only index with the properties of
/// [`lemma_run_end_is_longest`].
pub proof fn lemma_run_end_unique(src: Seq<u8>, from: int, run: Run, end: int)
    requires
        0 <= from <= end <= src.len(),
        forall|k: int| from <= k < end ==> run.admits(#[trigger] src[k]),
        end < src.len() ==> !run.admits(src[end]),
    ensures
        run_end(src, from, run) == end,
    decreases end - from,
{
    if from < end {
        lemma_run_end_unique(src, from + 1, run, end);
    }
}

/// A numeral that starts at a digit is not empty and ends within the source.
pub proof fn lemma_number_end_bounds(src: Seq<u8>, start: int)
    requires
        0 <= start < src.len(),
        is_digit(src[start]),
    ensures
        start < number_end(src, start) <= src.len(),
{
    lemma_run_end_bounds(src, start + 1, Run::Digits);
    let whole = run_end(src, start, Run::Digits);
    if whole + 1 < src.len() {
        lemma_run_end_bounds(src, whole + 1, Run::Digits);
    }
}

/// Bytes that hold no newline count for none.
pub proof fn lemma_newlines_none(bytes: Seq<u8>)
    requires
        forall|i: int| 0 <= i < bytes.len() ==> #[trigger] bytes[i] != '\n' as u8,
    ensures
        newlines(bytes) == 0,
    decreases bytes.len(),
{
    if bytes.len() > 0 {
        lemma_newlines_none(bytes.drop_last());
    }
}

/// The newlines of two sequences of bytes, one after the other, add up.
pub proof fn lemma_newlines_add(first: Seq<u8>, second: Seq<u8>)
    ensures
        newlines(first + second) == newlines(first) + newlines(second),
    decreases second.len(),
{
    if second.len() == 0 {
        assert(first + second =~= first);
    } else {
        lemma_newlines_add(first, second.drop_last());
        assert((first + second).drop_last() =~= first + second.drop_last());
    }
}

/// Whatever is read at a position within the source holds at least one
/// byte and ends within the source.
pub proof fn lemma_scan_at_advances(src: Seq<u8>, at: int)
    requires
        0 <= at < src.len(),
    ensures
        at < scan_at(src, at).end() <= src.len(),
{
    let b = src[at];
    if b == '/' as u8 && has_byte(src, at + 1, '/' as u8) {
        lemma_run_end_bounds(src, at + 2, Run::Comment);
    } else if b == '"' as u8 {
        lemma_run_end_bounds(src, at + 1, Run::Text);
    } else if is_digit(b) {
        lemma_number_end_bounds(src, at);
    } else if is_alpha(b) {
        lemma_run_end_bounds(src, at + 1, Run::Word);
    }
}

} // verus!
