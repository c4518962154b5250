//! The scanner: one pass over the source, left to right, with one byte of
//! lookahead, proved to produce what the grammar says.

use crate::grammar::{
    end_of_input, has_byte, is_alpha, is_alphanumeric, is_digit, keyword, lemma_newlines_none,
    lemma_run_end_is_longest, lemma_run_end_unique, lemma_scan_at_advances, lex, lex_from,
    newlines, run_end, scan_at, token_of, tokens_of, Cursor, Fault, Lexeme, Run, Scanned,
};
use crate::text::{
    bytes_between, is_ascii_byte, lemma_ascii_is_utf8, lemma_utf8_between_ascii, push_char,
    same_text, text_between,
};
use crate::token::{token_views, TokenView};
pub use crate::token::{Literal, ScannerError, Token, TokenType};
use vstd::prelude::*;
use vstd::string::{StrSliceExecFns, StringExecFns};
use vstd::utf8::{encode_utf8, encode_utf8_valid_utf8, valid_utf8};

verus! {

/// Whether the line and column counters can count through a source of `len`
/// bytes.
pub open spec fn fits_counters(len: nat) -> bool {
    len < usize::MAX && len <= i64::MAX
}

/// Whether `input` is short enough to be scanned.
pub fn can_scan(input: &str) -> (can: bool)
    ensures
        can == fits_counters(encode_utf8(input@).len()),
{
    let len = input.as_bytes().len();
    len < usize::MAX && len as u64 <= 0x7fff_ffff_ffff_ffffu64
}

/// A scan in progress: the source, the tokens read so far, the error that
/// stopped it if one did, the offset at which the current lexeme starts, and
/// the cursor.
///
/// A scanner is made for one scan: see [`Scanner::is_fresh`].
pub struct Scanner {
    pub source: Vec<u8>,
    pub tokens: Vec<Token>,
    pub err: Option<ScannerError>,
    pub start: usize,
    pub current: usize,
    pub line: usize,
    pub col: i64,
}

/// Whether `b` is an ASCII digit.
fn byte_is_digit(b: u8) -> (r: bool)
    ensures
        r == is_digit(b),
{
    '0' as u8 <= b && b <= '9' as u8
}

/// Whether `b` is an ASCII letter.
fn byte_is_alpha(b: u8) -> (r: bool)
    ensures
        r == is_alpha(b),
{
    ('a' as u8 <= b && b <= 'z' as u8) || ('A' as u8 <= b && b <= 'Z' as u8)
}

/// Whether `b` is an ASCII letter or digit.
fn byte_is_alphanumeric(b: u8) -> (r: bool)
    ensures
        r == is_alphanumeric(b),
{
    byte_is_alpha(b) || byte_is_digit(b)
}

/// Whether the byte `b` continues a run of the given kind.
fn continues(run: Run, b: u8) -> (r: bool)
    ensures
        r == run.admits(b),
{
    match run {
        Run::Digits => byte_is_digit(b),
        Run::Word => byte_is_alphanumeric(b),
        Run::Comment => b != '\n' as u8,
        Run::Text => b != '"' as u8,
    }
}

/// The keyword that `text` spells, if it spells one.
pub fn keyword_type(text: &str) -> (kind: Option<TokenType>)
    ensures
        kind == keyword(text@),
{
    if same_text(text, "and") {
        Some(TokenType::And)
    } else if same_text(text, "class") {
        Some(TokenType::Class)
    } else if same_text(text, "else") {
        Some(TokenType::Else)
    } else if same_text(text, "false") {
        Some(TokenType::False)
    } else if same_text(text, "for") {
        Some(TokenType::For)
    } else if same_text(text, "fun") {
        Some(TokenType::Fun)
    } else if same_text(text, "if") {
        Some(TokenType::If)
    } else if same_text(text, "nil") {
        Some(TokenType::Nil)
    } else if same_text(text, "or") {
        Some(TokenType::Or)
    } else if same_text(text, "print") {
        Some(TokenType::Print)
    } else if same_text(text, "return") {
        Some(TokenType::Return)
    } else if same_text(text, "super") {
        Some(TokenType::Super)
    } else if same_text(text, "this") {
        Some(TokenType::This)
    } else if same_text(text, "true") {
        Some(TokenType::True)
    } else if same_text(text, "var") {
        Some(TokenType::Var)
    } else if same_text(text, "while") {
        Some(TokenType::While)
    } else if same_text(text, "lambda") {
        Some(TokenType::Lambda)
    } else {
        None
    }
}

/// The scanner `after` is the scanner `before` once it has read what the
/// grammar reads at the cursor `c`: the token is added, or the error is set,
/// and the cursor has moved on.
spec fn scanned(before: Scanner, after: Scanner, c: Cursor) -> bool {
    let src = before.source@;
    let read = scan_at(src, c.pos);
    &&& after.inv()
    &&& after.source == before.source
    &&& after.start == before.start
    &&& after.cursor() == c.after(src, read.end())
    &&& match read {
        Scanned::Token { kind, end } => {
            &&& after.err is None
            &&& token_views(after.tokens@) == token_views(before.tokens@).push(
                token_of(
                    src,
                    Lexeme {
                        kind,
                        start: c.pos,
                        end,
                        line: after.line as int,
                        col: after.col as int,
                    },
                ),
            )
        },
        Scanned::Skipped { end } => {
            &&& after.err is None
            &&& after.tokens == before.tokens
        },
        Scanned::Failed { fault, end } => {
            &&& after.tokens == before.tokens
            &&& after.err matches Some(e)
            &&& e@ == (Fault { kind: fault, line: after.line as int, col: after.col as int })
                .report()
        },
    }
}

/// Bytes of one line: none of the bytes `from..to` of `src` is a newline, so
/// they count for none.
proof fn lemma_same_line(src: Seq<u8>, from: int, to: int)
    requires
        0 <= from <= to <= src.len(),
        forall|k: int| from <= k < to ==> #[trigger] src[k] != '\n' as u8,
    ensures
        newlines(src.subrange(from, to)) == 0,
{
    lemma_newlines_none(src.subrange(from, to));
}

impl Scanner {
    /// The cursor of this scanner.
    pub open spec fn cursor(&self) -> Cursor {
        Cursor { pos: self.current as int, line: self.line as int, col: self.col as int }
    }

    /// A scanner that has read nothing yet: no tokens, no error, the cursor
    /// before the first byte.
    pub open spec fn is_fresh(&self) -> bool {
        &&& self.tokens@.len() == 0
        &&& self.err is None
        &&& self.start == 0
        &&& self.cursor() == Cursor::start()
    }

    /// What holds of a scanner at work: its source is UTF-8 text that the
    /// counters can count through, and the cursor is within the source, with
    /// counters that have counted no more than the bytes read.
    spec fn inv(&self) -> bool {
        &&& fits_counters(self.source@.len())
        &&& valid_utf8(self.source@)
        &&& self.start <= self.current <= self.source.len()
        &&& 1 <= self.line <= self.current + 1
        &&& -1 <= self.col < self.current
    }

    /// The cursor that this scanner had at the start of the lexeme it is
    /// reading, where it has read no newline since.
    spec fn cursor_at_start(&self) -> Cursor {
        Cursor {
            pos: self.start as int,
            line: self.line as int,
            col: self.col - (self.current - self.start),
        }
    }

    /// How far the scan has come: the tokens are those of the lexemes `done`,
    /// and what the source scans to is `done`, then the error if there is
    /// one, else what it scans to from the cursor on.
    spec fn progress(&self, done: Seq<Lexeme>) -> bool {
        let src = self.source@;
        let all = lex(src);
        &&& token_views(self.tokens@) == tokens_of(src, done)
        &&& match self.err {
            None => {
                let rest = lex_from(src, self.cursor());
                &&& all.lexemes == done + rest.lexemes
                &&& all.fault == rest.fault
                &&& all.end == rest.end
            },
            Some(e) => {
                &&& all.lexemes == done
                &&& all.end == self.cursor()
                &&& all.fault matches Some(fault)
                &&& e@ == fault.report()
            },
        }
    }

    /// A fresh scanner, with an empty source.
    pub fn new() -> (scanner: Scanner)
        ensures
            scanner.is_fresh(),
            scanner.source@ == Seq::<u8>::empty(),
    {
        Scanner {
            source: Vec::new(),
            tokens: Vec::new(),
            err: None,
            start: 0,
            current: 0,
            line: 1,
            col: -1,
        }
    }

    /// Scans `input`: reads its bytes lexeme after lexeme until they end or
    /// one cannot be read, collecting the tokens in `tokens`, with the
    /// end-of-input token last, or setting `err` to the first error and
    /// leaving in `tokens` what was read before it.
    pub fn scan_tokens(&mut self, input: String)
        requires
            old(self).is_fresh(),
            fits_counters(encode_utf8(input@).len()),
        ensures
            final(self).source@ == encode_utf8(input@),
            token_views(final(self).tokens@) == tokens_of(
                encode_utf8(input@),
                lex(encode_utf8(input@)).lexemes,
            ),
            match lex(encode_utf8(input@)).fault {
                None => final(self).err is None,
                Some(fault) => final(self).err matches Some(e) && e@ == fault.report(),
            },
            final(self).cursor() == lex(encode_utf8(input@)).end,
    {
        self.source = input.as_str().as_bytes_vec();
        let ghost src = self.source@;
        let ghost mut done: Seq<Lexeme> = Seq::empty();
        proof {
            encode_utf8_valid_utf8(input@);
            assert(lex_from(src, self.cursor()).after(done).lexemes =~= lex(src).lexemes);
            assert(token_views(self.tokens@) =~= tokens_of(src, done));
        }
        while !self.err.is_some() && !self.is_at_end()
            invariant
                self.inv(),
                self.source@ == src,
                self.progress(done),
            decreases self.source.len() - self.current,
        {
            let ghost c = self.cursor();
            self.start = self.current;
            self.scan_token();
            proof {
                let next = self.cursor();
                match scan_at(src, c.pos) {
                    Scanned::Token { kind, end } => {
                        let lexeme = Lexeme {
                            kind,
                            start: c.pos,
                            end,
                            line: next.line,
                            col: next.col,
                        };
                        assert(done + (seq![lexeme] + lex_from(src, next).lexemes) =~= done.push(
                            lexeme,
                        ) + lex_from(src, next).lexemes);
                        assert(tokens_of(src, done).push(token_of(src, lexeme)) =~= tokens_of(
                            src,
                            done.push(lexeme),
                        ));
                        done = done.push(lexeme);
                    },
                    Scanned::Skipped { end } => {},
                    Scanned::Failed { fault, end } => {
                        assert(done + Seq::<Lexeme>::empty() =~= done);
                    },
                }
                lemma_scan_at_advances(src, c.pos);
            }
        }
        match self.err {
            Some(_) => {},
            None => {
                proof {
                    let last = end_of_input(self.cursor());
                    assert(done + seq![last] =~= done.push(last));
                    assert(src.subrange(last.start, last.end) =~= Seq::<u8>::empty());
                    assert(tokens_of(src, done).push(token_of(src, last)) =~= tokens_of(
                        src,
                        done.push(last),
                    ));
                }
                let token = Token {
                    tty: TokenType::Eof,
                    lexeme: Vec::new(),
                    literal: None,
                    line: self.line,
                    col: self.col,
                };
                let ghost read = self.tokens@;
                self.tokens.push(token);
                assert(token_views(self.tokens@) =~= token_views(read).push(token@));
            },
        }
    }

    /// Whether the cursor is at the end of the source.
    fn is_at_end(&self) -> (at_end: bool)
        ensures
            at_end == (self.current >= self.source.len()),
    {
        self.current >= self.source.len()
    }

    /// Reads the byte at the cursor.
    fn advance(&mut self) -> (b: u8)
        requires
            old(self).current < old(self).source.len(),
            old(self).col < i64::MAX,
        ensures
            b == old(self).source@[old(self).current as int],
            *final(self) == (Scanner {
                current: (old(self).current + 1) as usize,
                col: (old(self).col + 1) as i64,
                ..*old(self)
            }),
    {
        self.current += 1;
        self.col += 1;
        self.source[self.current - 1]
    }

    /// The byte after the one at the cursor, or 0 if there is none.
    fn peek_next(&self) -> (b: u8)
        requires
            self.current < usize::MAX,
        ensures
            b == if self.current + 1 < self.source.len() {
                self.source@[self.current + 1]
            } else {
                0
            },
    {
        if self.current + 1 >= self.source.len() {
            0
        } else {
            self.source[self.current + 1]
        }
    }

    /// The byte at the cursor, or 0 if there is none.
    fn peek(&self) -> (b: u8)
        ensures
            b == if self.current < self.source.len() {
                self.source@[self.current as int]
            } else {
                0
            },
    {
        if self.is_at_end() {
            0
        } else {
            self.source[self.current]
        }
    }

    /// Reads the byte at the cursor if it is `c`, and says whether it was.
    fn matches(&mut self, c: u8) -> (found: bool)
        requires
            old(self).col < i64::MAX,
        ensures
            found == has_byte(old(self).source@, old(self).current as int, c),
            found ==> *final(self) == (Scanner {
                current: (old(self).current + 1) as usize,
                col: (old(self).col + 1) as i64,
                ..*old(self)
            }),
            !found ==> *final(self) == *old(self),
    {
        if self.is_at_end() {
            return false;
        }
        if self.source[self.current] != c {
            return false;
        }
        self.current += 1;
        self.col += 1;
        true
    }

    /// Reads the lexeme that starts at the cursor: adds its token, or skips
    /// it, or sets the error.
    fn scan_token(&mut self)
        requires
            old(self).inv(),
            old(self).err is None,
            old(self).start == old(self).current,
            old(self).current < old(self).source.len(),
        ensures
            scanned(*old(self), *final(self), old(self).cursor()),
    {
        let ghost src = self.source@;
        let ghost at = self.current as int;
        let c = self.advance();
        proof {
            if c == '\n' as u8 {
                assert(src.subrange(at, at + 1).drop_last() =~= Seq::<u8>::empty());
                reveal_with_fuel(newlines, 2);
            } else {
                lemma_same_line(src, at, at + 1);
                if has_byte(src, at + 1, '=' as u8) {
                    lemma_same_line(src, at, at + 2);
                }
            }
        }
        match c as char {
            '(' => self.add_token(TokenType::LeftParen),
            ')' => self.add_token(TokenType::RightParen),
            '{' => self.add_token(TokenType::LeftBrace),
            '}' => self.add_token(TokenType::RightBrace),
            '[' => self.add_token(TokenType::LeftBracket),
            ']' => self.add_token(TokenType::RightBracket),
            ',' => self.add_token(TokenType::Comma),
            '.' => self.add_token(TokenType::Dot),
            '-' => self.add_token(TokenType::Minus),
            '+' => self.add_token(TokenType::Plus),
            ';' => self.add_token(TokenType::Semicolon),
            '*' => self.add_token(TokenType::Star),
            '!' => {
                let matches_eq = self.matches('=' as u8);
                self.add_token(
                    if matches_eq {
                        TokenType::BangEqual
                    } else {
                        TokenType::Bang
                    },
                )
            },
            '=' => {
                let matches_eq = self.matches('=' as u8);
                self.add_token(
                    if matches_eq {
                        TokenType::EqualEqual
                    } else {
                        TokenType::Equal
                    },
                )
            },
            '<' => {
                let matches_eq = self.matches('=' as u8);
                self.add_token(
                    if matches_eq {
                        TokenType::LessEqual
                    } else {
                        TokenType::Less
                    },
                )
            },
            '>' => {
                let matches_eq = self.matches('=' as u8);
                self.add_token(
                    if matches_eq {
                        TokenType::GreaterEqual
                    } else {
                        TokenType::Greater
                    },
                )
            },
            '/' => {
                if self.matches('/' as u8) {
                    self.read_run(Run::Comment);
                    proof {
                        lemma_run_end_is_longest(src, at + 2, Run::Comment);
                        lemma_same_line(src, at, self.current as int);
                    }
                } else {
                    self.add_token(TokenType::Slash)
                }
            },
            ' ' | '\r' | '\t' => {},
            '\n' => {
                self.line += 1;
                self.col = 0
            },
            '"' => self.string(),
            _ => {
                if byte_is_digit(c) {
                    self.number()
                } else if byte_is_alpha(c) {
                    self.identifier()
                } else {
                    let mut what = String::from_str("Unexpected character at ");
                    push_char(&mut what, c as char);
                    self.err = Some(ScannerError { what, line: self.line, col: self.col })
                }
            },
        }
    }

    /// Reads the rest of a numeral whose first digit has been read, and adds
    /// its token.
    fn number(&mut self)
        requires
            old(self).inv(),
            old(self).err is None,
            old(self).current == old(self).start + 1,
            is_digit(old(self).source@[old(self).start as int]),
        ensures
            scanned(*old(self), *final(self), old(self).cursor_at_start()),
    {
        let ghost src = self.source@;
        let ghost start = self.start as int;
        self.read_run(Run::Digits);
        let ghost whole = self.current as int;
        proof {
            lemma_run_end_is_longest(src, start, Run::Digits);
        }
        if self.peek() == '.' as u8 && byte_is_digit(self.peek_next()) {
            self.advance();
            self.read_run(Run::Digits);
            proof {
                lemma_run_end_is_longest(src, whole + 1, Run::Digits);
            }
        }
        proof {
            let text = src.subrange(start, self.current as int);
            assert forall|i: int| 0 <= i < text.len() implies is_ascii_byte(
                #[trigger] text[i],
            ) by {
                let k = start + i;
                assert(text[i] == src[k]);
                assert(is_digit(src[k]) || src[k] == '.' as u8);
            }
            lemma_ascii_is_utf8(text);
            lemma_newlines_none(text);
        }
        let val = text_between(&self.source, self.start, self.current);
        self.add_token_literal(TokenType::Number, Some(Literal::Number(val)))
    }

    /// Reads the rest of a word whose first letter has been read, and adds
    /// the token of the keyword it spells, or else of an identifier.
    fn identifier(&mut self)
        requires
            old(self).inv(),
            old(self).err is None,
            old(self).current == old(self).start + 1,
            is_alpha(old(self).source@[old(self).start as int]),
        ensures
            scanned(*old(self), *final(self), old(self).cursor_at_start()),
    {
        let ghost src = self.source@;
        let ghost start = self.start as int;
        self.read_run(Run::Word);
        proof {
            lemma_run_end_is_longest(src, start + 1, Run::Word);
            let text = src.subrange(start, self.current as int);
            assert forall|i: int| 0 <= i < text.len() implies is_ascii_byte(
                #[trigger] text[i],
            ) by {
                let k = start + i;
                assert(text[i] == src[k]);
                assert(is_alphanumeric(src[k]));
            }
            lemma_ascii_is_utf8(text);
            lemma_newlines_none(text);
        }
        let literal_val = text_between(&self.source, self.start, self.current);
        match keyword_type(literal_val.as_str()) {
            Some(kw_token_type) => self.add_token(kw_token_type),
            None => self.add_token_literal(
                TokenType::Identifier,
                Some(Literal::Identifier(literal_val)),
            ),
        }
    }

    /// Reads the rest of a string literal whose opening quote has been read:
    /// adds its token, or sets the error where the source ends in it.
    fn string(&mut self)
        requires
            old(self).inv(),
            old(self).err is None,
            old(self).current == old(self).start + 1,
            old(self).source@[old(self).start as int] == '"' as u8,
        ensures
            scanned(*old(self), *final(self), old(self).cursor_at_start()),
    {
        let ghost src = self.source@;
        let ghost start = self.start as int;
        proof {
            lemma_same_line(src, start, start + 1);
        }
        while self.peek() != '"' as u8 && !self.is_at_end()
            invariant
                old(self).inv(),
                old(self).current == old(self).start + 1,
                old(self).current <= self.current <= self.source.len(),
                src == old(self).source@,
                start == old(self).start,
                *self == (Scanner {
                    current: self.current,
                    line: (old(self).line + newlines(
                        src.subrange(start, self.current as int),
                    )) as usize,
                    col: (old(self).col + (self.current - old(self).current)) as i64,
                    ..*old(self)
                }),
                old(self).line + newlines(src.subrange(start, self.current as int))
                    <= self.current + 1,
                forall|k: int|
                    start + 1 <= k < self.current ==> Run::Text.admits(#[trigger] src[k]),
            decreases self.source.len() - self.current,
        {
            proof {
                let read = src.subrange(start, self.current as int);
                let more = src.subrange(start, self.current + 1);
                assert(more.drop_last() =~= read);
                assert(more.last() == src[self.current as int]);
            }
            if self.peek() == '\n' as u8 {
                self.line += 1;
            }
            self.advance();
        }
        proof {
            lemma_run_end_unique(src, start + 1, Run::Text, self.current as int);
        }
        if self.is_at_end() {
            self.err = Some(
                ScannerError {
                    what: String::from_str("Unterminated string."),
                    line: self.line,
                    col: self.col,
                },
            );
            return ;
        }
        proof {
            let read = src.subrange(start, self.current as int);
            let more = src.subrange(start, self.current + 1);
            assert(more.drop_last() =~= read);
            assert(more.last() == src[self.current as int]);
        }
        self.advance();
        proof {
            lemma_utf8_between_ascii(src, start + 1, self.current - 1);
        }
        let val = text_between(&self.source, self.start + 1, self.current - 1);
        self.add_token_literal(TokenType::String, Some(Literal::Str(val)))
    }

    /// Reads on to the end of the run of the given kind that starts at the
    /// cursor.
    fn read_run(&mut self, run: Run)
        requires
            old(self).inv(),
        ensures
            final(self).inv(),
            final(self).current == run_end(old(self).source@, old(self).current as int, run),
            *final(self) == (Scanner {
                current: final(self).current,
                col: (old(self).col + (final(self).current - old(self).current)) as i64,
                ..*old(self)
            }),
    {
        while !self.is_at_end() && continues(run, self.peek())
            invariant
                old(self).inv(),
                old(self).current <= self.current <= self.source.len(),
                *self == (Scanner {
                    current: self.current,
                    col: (old(self).col + (self.current - old(self).current)) as i64,
                    ..*old(self)
                }),
                forall|k: int|
                    old(self).current <= k < self.current ==> run.admits(
                        #[trigger] old(self).source@[k],
                    ),
            decreases self.source.len() - self.current,
        {
            self.advance();
        }
        proof {
            lemma_run_end_unique(self.source@, old(self).current as int, run, self.current as int);
        }
    }

    /// Adds the token of the given kind, without a literal, that was read
    /// from `start` up to the cursor.
    fn add_token(&mut self, tty: TokenType)
        requires
            old(self).start <= old(self).current <= old(self).source.len(),
        ensures
            *final(self) == (Scanner { tokens: final(self).tokens, ..*old(self) }),
            token_views(final(self).tokens@) == token_views(old(self).tokens@).push(
                TokenView {
                    tty,
                    lexeme: old(self).source@.subrange(
                        old(self).start as int,
                        old(self).current as int,
                    ),
                    literal: None,
                    line: old(self).line as int,
                    col: old(self).col as int,
                },
            ),
    {
        self.add_token_literal(tty, None)
    }

    /// Adds the token of the given kind, with the given literal, that was
    /// read from `start` up to the cursor.
    fn add_token_literal(&mut self, tty: TokenType, literal: Option<Literal>)
        requires
            old(self).start <= old(self).current <= old(self).source.len(),
        ensures
            *final(self) == (Scanner { tokens: final(self).tokens, ..*old(self) }),
            token_views(final(self).tokens@) == token_views(old(self).tokens@).push(
                TokenView {
                    tty,
                    lexeme: old(self).source@.subrange(
                        old(self).start as int,
                        old(self).current as int,
                    ),
                    literal: match literal {
                        Some(value) => Some(value@),
                        None => None,
                    },
                    line: old(self).line as int,
                    col: old(self).col as int,
                },
            ),
    {
        let text = bytes_between(&self.source, self.start, self.current);
        let token = Token { tty, lexeme: text, literal, line: self.line, col: self.col };
        self.tokens.push(token);
        assert(token_views(self.tokens@) =~= token_views(old(self).tokens@).push(token@));
    }
}

/// Scans `input`: its tokens in order, the end-of-input token last, or the
/// first lexical error.
pub fn scan_tokens(input: String) -> (result: Result<Vec<Token>, ScannerError>)
    requires
        fits_counters(encode_utf8(input@).len()),
    ensures
        match result {
            Ok(tokens) => {
                &&& lex(encode_utf8(input@)).fault is None
                &&& token_views(tokens@) == tokens_of(
                    encode_utf8(input@),
                    lex(encode_utf8(input@)).lexemes,
                )
            },
            Err(e) => {
                &&& lex(encode_utf8(input@)).fault matches Some(fault)
                &&& e@ == fault.report()
            },
        },
{
    let mut scanner = Scanner::new();
    scanner.scan_tokens(input);
    match scanner.err {
        Some(err) => Err(err),
        None => Ok(scanner.tokens),
    }
}

} // verus!
