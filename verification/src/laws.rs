//! What holds of every scan, proved from the grammar.
//!
//! - The lexemes are slices of the source, in source order and without
//!   overlap ([`lemma_lexemes_are_slices`]), and nothing but whitespace and
//!   comments lies between them ([`lemma_gaps_are_blank`]).
//! - A scan that does not fail ends in the end of input, and nothing else is
//!   one ([`lemma_end_of_input_is_last`]).
//! - Line numbers never decrease ([`lemma_lines_ascend`]) and count the
//!   newlines read ([`lemma_lines_count_newlines`]).
//! - A source of whitespace and comments scans to the end of input alone
//!   ([`lemma_blank_source_scans_to_end_of_input`]), and no other source
//!   does ([`lemma_only_blank_source_scans_to_end_of_input`]).
//! - A byte that starts nothing fails the scan where it stands
//!   ([`lemma_unrecognized_byte_fails`]).
//! - Every lexeme is what the grammar reads where it starts
//!   ([`lemma_lexemes_are_read`]); a number is a numeral and an identifier a
//!   word ([`lemma_literals_are_well_formed`]); every lexeme of UTF-8 text
//!   is UTF-8 text ([`lemma_lexemes_are_text`]).

use crate::grammar::{
    end_of_input, has_byte, is_alpha, is_alphanumeric, is_blank, is_digit, is_recognized,
    is_whitespace, keyword, lemma_newlines_add, lemma_newlines_none, lemma_run_end_bounds,
    lemma_run_end_is_longest, lemma_scan_at_advances, lex, lex_from, newlines, number_end,
    run_end, scan_at, tokens_of, Cursor, Fault, FaultKind, Lexed, Lexeme, Run, Scanned,
};
use crate::text::{as_chars, is_ascii_byte, lemma_utf8_between_ascii};
use crate::token::TokenType;
use vstd::prelude::*;
use vstd::utf8::valid_utf8;

verus! {

/// The lexemes lie within `src` from `from` on, each but the end of input
/// holds at least one byte, and each starts after the one before it has
/// started and not before that one has ended.
pub open spec fn in_source_order(lexemes: Seq<Lexeme>, src: Seq<u8>, from: int) -> bool {
    &&& forall|i: int|
        0 <= i < lexemes.len() ==> from <= (#[trigger] lexemes[i]).start <= lexemes[i].end
            <= src.len()
    &&& forall|i: int|
        0 <= i < lexemes.len() && (#[trigger] lexemes[i]).kind != TokenType::Eof
            ==> lexemes[i].start < lexemes[i].end
    &&& forall|i: int, j: int|
        0 <= i < j < lexemes.len() ==> (#[trigger] lexemes[i]).start < (#[trigger] lexemes[j]).start
            && lexemes[i].end <= lexemes[j].start
}

/// The scan that started at `from` ended within `src`, at or after the end
/// of each of its lexemes.
pub open spec fn ends_within(out: Lexed, src: Seq<u8>, from: int) -> bool {
    &&& from <= out.end.pos <= src.len()
    &&& forall|i: int| 0 <= i < out.lexemes.len() ==> (#[trigger] out.lexemes[i]).end <= out.end.pos
}

proof fn lemma_lex_from_in_source_order(src: Seq<u8>, c: Cursor)
    requires
        0 <= c.pos <= src.len(),
    ensures
        in_source_order(lex_from(src, c).lexemes, src, c.pos),
        ends_within(lex_from(src, c), src, c.pos),
    decreases src.len() - c.pos,
{
    if c.pos < src.len() {
        lemma_scan_at_advances(src, c.pos);
        match scan_at(src, c.pos) {
            Scanned::Token { kind, end } => {
                let next = c.after(src, end);
                lemma_lex_from_in_source_order(src, next);
                let rest = lex_from(src, next).lexemes;
                let all = lex_from(src, c).lexemes;
                assert(all[0].start == c.pos && all[0].end == next.pos);
                assert forall|i: int| 1 <= i < all.len() implies all[i] == rest[i - 1] by {}
                assert(in_source_order(all, src, c.pos));
                assert(ends_within(lex_from(src, c), src, c.pos));
            },
            Scanned::Skipped { end } => {
                let next = c.after(src, end);
                lemma_lex_from_in_source_order(src, next);
            },
            Scanned::Failed { fault, end } => {},
        }
    }
}

/// Round trip: every lexeme is a slice of the source, and the token it
/// yields carries exactly the bytes of that slice; the slices come in
/// strictly increasing source order and do not overlap, and only the end of
/// input is empty. The scan ends within the source, after the last of them.
pub proof fn lemma_lexemes_are_slices(src: Seq<u8>)
    ensures
        in_source_order(lex(src).lexemes, src, 0),
        ends_within(lex(src), src, 0),
        forall|i: int|
            0 <= i < lex(src).lexemes.len() ==> (#[trigger] tokens_of(
                src,
                lex(src).lexemes,
            )[i]).lexeme == src.subrange(lex(src).lexemes[i].start, lex(src).lexemes[i].end),
{
    lemma_lex_from_in_source_order(src, Cursor::start());
}

/// The lines of the lexemes are at least `from` and never decrease.
pub open spec fn lines_ascend(lexemes: Seq<Lexeme>, from: int) -> bool {
    &&& forall|i: int| 0 <= i < lexemes.len() ==> from <= (#[trigger] lexemes[i]).line
    &&& forall|i: int, j: int|
        0 <= i < j < lexemes.len() ==> (#[trigger] lexemes[i]).line <= (#[trigger] lexemes[j]).line
}

proof fn lemma_lex_from_lines_ascend(src: Seq<u8>, c: Cursor)
    requires
        0 <= c.pos <= src.len(),
    ensures
        lines_ascend(lex_from(src, c).lexemes, c.line),
    decreases src.len() - c.pos,
{
    if c.pos < src.len() {
        lemma_scan_at_advances(src, c.pos);
        match scan_at(src, c.pos) {
            Scanned::Token { kind, end } => {
                let next = c.after(src, end);
                lemma_lex_from_lines_ascend(src, next);
                let rest = lex_from(src, next).lexemes;
                let all = lex_from(src, c).lexemes;
                assert(all[0].line == next.line);
                assert forall|i: int| 1 <= i < all.len() implies all[i] == rest[i - 1] by {}
                assert(lines_ascend(all, c.line));
            },
            Scanned::Skipped { end } => {
                let next = c.after(src, end);
                lemma_lex_from_lines_ascend(src, next);
            },
            Scanned::Failed { fault, end } => {},
        }
    }
}

/// Line numbers start at 1 and never decrease from one token to the next.
pub proof fn lemma_lines_ascend(src: Seq<u8>)
    ensures
        lines_ascend(lex(src).lexemes, 1),
        forall|i: int|
            0 <= i < lex(src).lexemes.len() ==> (#[trigger] tokens_of(
                src,
                lex(src).lexemes,
            )[i]).line == lex(src).lexemes[i].line,
{
    lemma_lex_from_lines_ascend(src, Cursor::start());
}

/// The end of input closes the lexemes of a scan that did not fail, and
/// occurs nowhere else.
pub open spec fn closed_by_end_of_input(out: Lexed, src: Seq<u8>) -> bool {
    &&& out.fault is None ==> {
        &&& out.lexemes.len() >= 1
        &&& out.lexemes.last() == end_of_input(out.end)
        &&& out.end.pos == src.len()
    }
    &&& forall|i: int|
        0 <= i < out.lexemes.len() && (#[trigger] out.lexemes[i]).kind == TokenType::Eof ==> {
            &&& out.fault is None
            &&& i == out.lexemes.len() - 1
        }
}

proof fn lemma_lex_from_closed(src: Seq<u8>, c: Cursor)
    requires
        0 <= c.pos <= src.len(),
    ensures
        closed_by_end_of_input(lex_from(src, c), src),
    decreases src.len() - c.pos,
{
    if c.pos < src.len() {
        lemma_scan_at_advances(src, c.pos);
        match scan_at(src, c.pos) {
            Scanned::Token { kind, end } => {
                let next = c.after(src, end);
                lemma_lex_from_closed(src, next);
                let rest = lex_from(src, next).lexemes;
                let all = lex_from(src, c).lexemes;
                assert(all[0].kind == kind && kind != TokenType::Eof);
                assert forall|i: int| 1 <= i < all.len() implies all[i] == rest[i - 1] by {}
                assert(closed_by_end_of_input(lex_from(src, c), src));
            },
            Scanned::Skipped { end } => {
                let next = c.after(src, end);
                lemma_lex_from_closed(src, next);
            },
            Scanned::Failed { fault, end } => {},
        }
    }
}

/// A scan that does not fail ends in the end-of-input lexeme, which is empty
/// and stands at the end of the source; no other lexeme is one, and a scan
/// that fails has none.
pub proof fn lemma_end_of_input_is_last(src: Seq<u8>)
    ensures
        closed_by_end_of_input(lex(src), src),
{
    lemma_lex_from_closed(src, Cursor::start());
}

/// Whether no byte of `src` from `from` up to and with `to` is a newline.
pub open spec fn no_newline(src: Seq<u8>, from: int, to: int) -> bool {
    forall|k: int| from <= k <= to && 0 <= k < src.len() ==> #[trigger] src[k] != '\n' as u8
}

/// Whether a comment holds the byte at `i`: two slashes stand at or before
/// it, with no newline from them up to it.
pub open spec fn in_comment(src: Seq<u8>, i: int) -> bool {
    exists|j: int|
        0 <= j <= i && has_byte(src, j, '/' as u8) && has_byte(src, j + 1, '/' as u8)
            && #[trigger] no_newline(src, j, i)
}

/// Whether `src` holds nothing but whitespace and comments.
pub open spec fn only_whitespace_and_comments(src: Seq<u8>) -> bool {
    forall|i: int| 0 <= i < src.len() ==> is_whitespace(src[i]) || #[trigger] in_comment(src, i)
}

/// In a source of whitespace and comments, the first byte on a line that is
/// not whitespace opens a comment.
proof fn lemma_comment_opens(src: Seq<u8>, at: int, line_start: int)
    requires
        only_whitespace_and_comments(src),
        0 <= line_start <= at < src.len(),
        line_start == 0 || src[line_start - 1] == '\n' as u8,
        forall|k: int| line_start <= k < at ==> is_blank(#[trigger] src[k]),
        !is_whitespace(src[at]),
    ensures
        has_byte(src, at, '/' as u8),
        has_byte(src, at + 1, '/' as u8),
{
    assert(in_comment(src, at));
    let j = choose|j: int|
        0 <= j <= at && has_byte(src, j, '/' as u8) && has_byte(src, j + 1, '/' as u8)
            && #[trigger] no_newline(src, j, at);
    if j < line_start {
        assert(src[line_start - 1] == '\n' as u8);
    } else if j < at {
        assert(is_blank(src[j]));
    }
}

proof fn lemma_blank_from(src: Seq<u8>, c: Cursor, line_start: int)
    requires
        only_whitespace_and_comments(src),
        0 <= line_start <= c.pos <= src.len(),
        line_start == 0 || src[line_start - 1] == '\n' as u8,
        c.pos == src.len() || src[c.pos] == '\n' as u8 || forall|k: int|
            line_start <= k < c.pos ==> is_blank(#[trigger] src[k]),
    ensures
        lex_from(src, c).fault is None,
        lex_from(src, c).lexemes.len() == 1,
    decreases src.len() - c.pos,
{
    if c.pos < src.len() {
        let b = src[c.pos];
        if b == '\n' as u8 {
            assert(scan_at(src, c.pos) == Scanned::Skipped { end: c.pos + 1 });
            lemma_blank_from(src, c.after(src, c.pos + 1), c.pos + 1);
        } else if is_blank(b) {
            assert(scan_at(src, c.pos) == Scanned::Skipped { end: c.pos + 1 });
            lemma_blank_from(src, c.after(src, c.pos + 1), line_start);
        } else {
            lemma_comment_opens(src, c.pos, line_start);
            let end = run_end(src, c.pos + 2, Run::Comment);
            assert(scan_at(src, c.pos) == Scanned::Skipped { end });
            lemma_run_end_bounds(src, c.pos + 2, Run::Comment);
            lemma_run_end_is_longest(src, c.pos + 2, Run::Comment);
            lemma_blank_from(src, c.after(src, end), line_start);
        }
    }
}

/// A source that holds nothing but whitespace and comments scans, without
/// failure, to the end-of-input lexeme alone.
pub proof fn lemma_blank_source_scans_to_end_of_input(src: Seq<u8>)
    requires
        only_whitespace_and_comments(src),
    ensures
        lex(src).fault is None,
        lex(src).lexemes == seq![end_of_input(lex(src).end)],
        lex(src).end.pos == src.len(),
{
    lemma_blank_from(src, Cursor::start(), 0);
    lemma_end_of_input_is_last(src);
    assert(lex(src).lexemes =~= seq![end_of_input(lex(src).end)]);
}

/// Two sources of whitespace and comments, one after the other, are one.
proof fn lemma_blank_then_blank(first: Seq<u8>, second: Seq<u8>)
    requires
        only_whitespace_and_comments(first),
        only_whitespace_and_comments(second),
    ensures
        only_whitespace_and_comments(first + second),
{
    let both = first + second;
    assert forall|i: int| 0 <= i < both.len() implies is_whitespace(both[i]) || #[trigger] in_comment(
        both,
        i,
    ) by {
        if !is_whitespace(both[i]) {
            if i < first.len() {
                assert(in_comment(first, i));
                let j = choose|j: int|
                    0 <= j <= i && has_byte(first, j, '/' as u8) && has_byte(
                        first,
                        j + 1,
                        '/' as u8,
                    ) && #[trigger] no_newline(first, j, i);
                assert(no_newline(both, j, i)) by {
                    assert forall|k: int| j <= k <= i implies #[trigger] both[k] != '\n' as u8 by {
                        assert(both[k] == first[k]);
                    }
                }
                assert(has_byte(both, j, '/' as u8) && has_byte(both, j + 1, '/' as u8));
            } else {
                let shift = first.len() as int;
                assert(both[i] == second[i - shift]);
                assert(in_comment(second, i - shift));
                let j = choose|j: int|
                    0 <= j <= i - shift && has_byte(second, j, '/' as u8) && has_byte(
                        second,
                        j + 1,
                        '/' as u8,
                    ) && #[trigger] no_newline(second, j, i - shift);
                assert(no_newline(both, j + shift, i)) by {
                    assert forall|k: int| j + shift <= k <= i implies #[trigger] both[k]
                        != '\n' as u8 by {
                        assert(both[k] == second[k - shift]);
                    }
                }
                assert(both[j + shift] == second[j]);
                assert(both[j + shift + 1] == second[j + 1]);
                assert(has_byte(both, j + shift, '/' as u8) && has_byte(
                    both,
                    j + shift + 1,
                    '/' as u8,
                ));
            }
        }
    }
}

/// What the grammar skips is whitespace or a comment.
proof fn lemma_skipped_is_blank(src: Seq<u8>, at: int)
    requires
        0 <= at < src.len(),
        scan_at(src, at) is Skipped,
    ensures
        only_whitespace_and_comments(src.subrange(at, scan_at(src, at).end())),
{
    let end = scan_at(src, at).end();
    let read = src.subrange(at, end);
    lemma_scan_at_advances(src, at);
    if src[at] == '/' as u8 {
        lemma_run_end_is_longest(src, at + 2, Run::Comment);
        lemma_run_end_bounds(src, at + 2, Run::Comment);
        assert(has_byte(read, 0, '/' as u8) && has_byte(read, 1, '/' as u8));
        assert forall|i: int| 0 <= i < read.len() implies #[trigger] in_comment(read, i) by {
            assert(no_newline(read, 0, i)) by {
                assert forall|k: int| 0 <= k <= i implies #[trigger] read[k] != '\n' as u8 by {
                    assert(read[k] == src[at + k]);
                }
            }
        }
    } else {
        assert(read[0] == src[at]);
    }
}

/// What lies before the lexeme of index `i`: the bytes from the end of the
/// lexeme before it, or from `from` if it is the first, up to its start.
pub open spec fn gap_before(lexemes: Seq<Lexeme>, src: Seq<u8>, from: int, i: int) -> Seq<u8> {
    src.subrange(
        if i == 0 {
            from
        } else {
            lexemes[i - 1].end
        },
        lexemes[i].start,
    )
}

/// Whether nothing but whitespace and comments lies before each lexeme.
pub open spec fn gaps_are_blank(lexemes: Seq<Lexeme>, src: Seq<u8>, from: int) -> bool {
    forall|i: int|
        0 <= i < lexemes.len() ==> only_whitespace_and_comments(
            #[trigger] gap_before(lexemes, src, from, i),
        )
}

proof fn lemma_lex_from_gaps(src: Seq<u8>, c: Cursor)
    requires
        0 <= c.pos <= src.len(),
    ensures
        gaps_are_blank(lex_from(src, c).lexemes, src, c.pos),
    decreases src.len() - c.pos,
{
    let all = lex_from(src, c).lexemes;
    if c.pos < src.len() {
        lemma_scan_at_advances(src, c.pos);
        let read = scan_at(src, c.pos);
        let next = c.after(src, read.end());
        let rest = lex_from(src, next).lexemes;
        match read {
            Scanned::Token { kind, end } => {
                lemma_lex_from_gaps(src, next);
                assert forall|i: int| 0 <= i < all.len() implies only_whitespace_and_comments(
                    #[trigger] gap_before(all, src, c.pos, i),
                ) by {
                    if i == 0 {
                        assert(gap_before(all, src, c.pos, 0) =~= Seq::<u8>::empty());
                    } else {
                        assert(all[i] == rest[i - 1]);
                        if i > 1 {
                            assert(all[i - 1] == rest[i - 2]);
                        }
                        assert(gap_before(all, src, c.pos, i) == gap_before(
                            rest,
                            src,
                            next.pos,
                            i - 1,
                        ));
                    }
                }
            },
            Scanned::Skipped { end } => {
                lemma_lex_from_gaps(src, next);
                lemma_lex_from_in_source_order(src, next);
                assert forall|i: int| 0 <= i < all.len() implies only_whitespace_and_comments(
                    #[trigger] gap_before(all, src, c.pos, i),
                ) by {
                    if i == 0 {
                        let gap = gap_before(rest, src, next.pos, 0);
                        lemma_skipped_is_blank(src, c.pos);
                        lemma_blank_then_blank(src.subrange(c.pos, end), gap);
                        assert(src.subrange(c.pos, end) + gap =~= gap_before(all, src, c.pos, 0));
                    } else {
                        assert(gap_before(all, src, c.pos, i) == gap_before(
                            rest,
                            src,
                            next.pos,
                            i,
                        ));
                    }
                }
            },
            Scanned::Failed { fault, end } => {},
        }
    } else {
        assert(gap_before(all, src, c.pos, 0) =~= Seq::<u8>::empty());
    }
}

/// Nothing is lost between lexemes: what lies before the first lexeme, and
/// between each lexeme and the next, is whitespace and comments only.
pub proof fn lemma_gaps_are_blank(src: Seq<u8>)
    ensures
        gaps_are_blank(lex(src).lexemes, src, 0),
{
    lemma_lex_from_gaps(src, Cursor::start());
}

/// Only a source that holds nothing but whitespace and comments scans,
/// without failure, to the end-of-input lexeme alone.
pub proof fn lemma_only_blank_source_scans_to_end_of_input(src: Seq<u8>)
    requires
        lex(src).fault is None,
        lex(src).lexemes.len() == 1,
    ensures
        only_whitespace_and_comments(src),
{
    lemma_gaps_are_blank(src);
    lemma_end_of_input_is_last(src);
    assert(gap_before(lex(src).lexemes, src, 0, 0) =~= src);
}

/// A source whose first byte starts nothing the grammar knows fails at that
/// byte, on line 1 and at column 0, with no lexeme read; so does a source
/// that is one such byte.
pub proof fn lemma_unrecognized_byte_fails(src: Seq<u8>)
    requires
        src.len() >= 1,
        !is_recognized(src[0]),
    ensures
        lex(src).lexemes == Seq::<Lexeme>::empty(),
        lex(src).fault == Some(
            Fault { kind: FaultKind::UnexpectedCharacter(src[0]), line: 1, col: 0 },
        ),
        lex(src).end == (Cursor { pos: 1, line: 1, col: 0 }),
{
    lemma_newlines_none(src.subrange(0, 1));
}

/// The line of the cursor is 1 more than the number of newlines before it.
pub open spec fn counts_lines(src: Seq<u8>, c: Cursor) -> bool {
    c.line == 1 + newlines(src.subrange(0, c.pos))
}

proof fn lemma_lex_from_counts_lines(src: Seq<u8>, c: Cursor)
    requires
        0 <= c.pos <= src.len(),
        counts_lines(src, c),
    ensures
        counts_lines(src, lex_from(src, c).end),
        forall|i: int|
            0 <= i < lex_from(src, c).lexemes.len() ==> (#[trigger] lex_from(src, c).lexemes[i]).line
                == 1 + newlines(src.subrange(0, lex_from(src, c).lexemes[i].end)),
        lex_from(src, c).fault matches Some(fault) ==> fault.line == lex_from(src, c).end.line,
    decreases src.len() - c.pos,
{
    if c.pos < src.len() {
        lemma_scan_at_advances(src, c.pos);
        let read = scan_at(src, c.pos);
        let next = c.after(src, read.end());
        assert(counts_lines(src, next)) by {
            lemma_newlines_add(src.subrange(0, c.pos), src.subrange(c.pos, next.pos));
            assert(src.subrange(0, c.pos) + src.subrange(c.pos, next.pos) =~= src.subrange(
                0,
                next.pos,
            ));
        }
        match read {
            Scanned::Token { kind, end } => {
                lemma_lex_from_counts_lines(src, next);
                let rest = lex_from(src, next).lexemes;
                let all = lex_from(src, c).lexemes;
                assert(all[0].line == next.line && all[0].end == next.pos);
                assert forall|i: int| 1 <= i < all.len() implies all[i] == rest[i - 1] by {}
            },
            Scanned::Skipped { end } => {
                lemma_lex_from_counts_lines(src, next);
            },
            Scanned::Failed { fault, end } => {},
        }
    }
}

/// Line numbers count newlines: the line of a token is 1 more than the
/// number of newlines in the source up to the end of the token, whether
/// they stand between tokens or within a string; and so is the line at
/// which the scan ends or fails.
pub proof fn lemma_lines_count_newlines(src: Seq<u8>)
    ensures
        counts_lines(src, lex(src).end),
        forall|i: int|
            0 <= i < lex(src).lexemes.len() ==> (#[trigger] lex(src).lexemes[i]).line == 1
                + newlines(src.subrange(0, lex(src).lexemes[i].end)),
        lex(src).fault matches Some(fault) ==> fault.line == lex(src).end.line,
{
    assert(src.subrange(0, 0) =~= Seq::<u8>::empty());
    lemma_lex_from_counts_lines(src, Cursor::start());
}

/// Whether the lexeme is what the grammar reads where it starts, unless it
/// is the end of input.
pub open spec fn read_where_it_starts(src: Seq<u8>, lx: Lexeme) -> bool {
    lx.kind != TokenType::Eof ==> {
        &&& 0 <= lx.start < src.len()
        &&& scan_at(src, lx.start) == (Scanned::Token { kind: lx.kind, end: lx.end })
    }
}

proof fn lemma_lex_from_read(src: Seq<u8>, c: Cursor)
    requires
        0 <= c.pos <= src.len(),
    ensures
        forall|i: int|
            0 <= i < lex_from(src, c).lexemes.len() ==> read_where_it_starts(
                src,
                #[trigger] lex_from(src, c).lexemes[i],
            ),
    decreases src.len() - c.pos,
{
    if c.pos < src.len() {
        lemma_scan_at_advances(src, c.pos);
        let read = scan_at(src, c.pos);
        let next = c.after(src, read.end());
        match read {
            Scanned::Token { kind, end } => {
                lemma_lex_from_read(src, next);
                let rest = lex_from(src, next).lexemes;
                let all = lex_from(src, c).lexemes;
                assert(read_where_it_starts(src, all[0]));
                assert forall|i: int| 1 <= i < all.len() implies all[i] == rest[i - 1] by {}
            },
            Scanned::Skipped { end } => {
                lemma_lex_from_read(src, next);
            },
            Scanned::Failed { fault, end } => {},
        }
    }
}

/// Every lexeme of a scan but the end of input is what the grammar reads at
/// the index where it starts.
pub proof fn lemma_lexemes_are_read(src: Seq<u8>)
    ensures
        forall|i: int|
            0 <= i < lex(src).lexemes.len() ==> read_where_it_starts(
                src,
                #[trigger] lex(src).lexemes[i],
            ),
{
    lemma_lex_from_read(src, Cursor::start());
}

/// A numeral: digits, or digits, one dot and digits.
pub open spec fn is_numeral(bytes: Seq<u8>) -> bool {
    &&& bytes.len() >= 1
    &&& is_digit(bytes.first())
    &&& is_digit(bytes.last())
    &&& forall|i: int|
        0 <= i < bytes.len() ==> is_digit(#[trigger] bytes[i]) || bytes[i] == '.' as u8
    &&& forall|i: int, j: int|
        0 <= i < bytes.len() && 0 <= j < bytes.len() && #[trigger] bytes[i] == '.' as u8
            && #[trigger] bytes[j] == '.' as u8 ==> i == j
}

/// A word: a letter, then letters and digits.
pub open spec fn is_word(bytes: Seq<u8>) -> bool {
    &&& bytes.len() >= 1
    &&& is_alpha(bytes.first())
    &&& forall|i: int| 0 <= i < bytes.len() ==> is_alphanumeric(#[trigger] bytes[i])
}

proof fn lemma_number_is_numeral(src: Seq<u8>, at: int)
    requires
        0 <= at < src.len(),
        is_digit(src[at]),
    ensures
        is_numeral(src.subrange(at, number_end(src, at))),
{
    let whole = run_end(src, at, Run::Digits);
    lemma_run_end_bounds(src, at + 1, Run::Digits);
    lemma_run_end_is_longest(src, at, Run::Digits);
    let end = number_end(src, at);
    let bytes = src.subrange(at, end);
    if end != whole {
        lemma_run_end_bounds(src, whole + 1, Run::Digits);
        lemma_run_end_is_longest(src, whole + 1, Run::Digits);
        assert(run_end(src, whole + 1, Run::Digits) == run_end(src, whole + 2, Run::Digits));
        lemma_run_end_bounds(src, whole + 2, Run::Digits);
    }
    assert forall|i: int| 0 <= i < bytes.len() implies (is_digit(#[trigger] bytes[i]) <==> i
        != whole - at) && (bytes[i] == '.' as u8 <==> i == whole - at) by {
        assert(bytes[i] == src[at + i]);
    }
    assert(bytes.first() == bytes[0]);
    assert(bytes.last() == bytes[bytes.len() - 1]);
}

proof fn lemma_word_is_word(src: Seq<u8>, at: int)
    requires
        0 <= at < src.len(),
        is_alpha(src[at]),
    ensures
        is_word(src.subrange(at, run_end(src, at + 1, Run::Word))),
{
    lemma_run_end_bounds(src, at + 1, Run::Word);
    lemma_run_end_is_longest(src, at + 1, Run::Word);
    let bytes = src.subrange(at, run_end(src, at + 1, Run::Word));
    assert forall|i: int| 0 <= i < bytes.len() implies is_alphanumeric(#[trigger] bytes[i]) by {
        assert(bytes[i] == src[at + i]);
    }
}

/// A number token is read from a numeral, and an identifier token from a
/// word that spells no keyword.
pub proof fn lemma_literals_are_well_formed(src: Seq<u8>)
    ensures
        forall|i: int|
            0 <= i < lex(src).lexemes.len() && (#[trigger] lex(src).lexemes[i]).kind
                == TokenType::Number ==> is_numeral(
                src.subrange(lex(src).lexemes[i].start, lex(src).lexemes[i].end),
            ),
        forall|i: int|
            0 <= i < lex(src).lexemes.len() && (#[trigger] lex(src).lexemes[i]).kind
                == TokenType::Identifier ==> {
                let bytes = src.subrange(lex(src).lexemes[i].start, lex(src).lexemes[i].end);
                &&& is_word(bytes)
                &&& keyword(as_chars(bytes)) is None
            },
{
    lemma_lexemes_are_read(src);
    assert forall|i: int|
        0 <= i < lex(src).lexemes.len() && (#[trigger] lex(src).lexemes[i]).kind
            == TokenType::Number implies is_numeral(
        src.subrange(lex(src).lexemes[i].start, lex(src).lexemes[i].end),
    ) by {
        let lx = lex(src).lexemes[i];
        assert(read_where_it_starts(src, lx));
        lemma_number_is_numeral(src, lx.start);
    }
    assert forall|i: int|
        0 <= i < lex(src).lexemes.len() && (#[trigger] lex(src).lexemes[i]).kind
            == TokenType::Identifier implies {
        let bytes = src.subrange(lex(src).lexemes[i].start, lex(src).lexemes[i].end);
        &&& is_word(bytes)
        &&& keyword(as_chars(bytes)) is None
    } by {
        let lx = lex(src).lexemes[i];
        assert(read_where_it_starts(src, lx));
        lemma_word_is_word(src, lx.start);
    }
}

/// A token starts with an ASCII byte and ends with one.
proof fn lemma_token_is_between_ascii(src: Seq<u8>, at: int)
    requires
        0 <= at < src.len(),
        scan_at(src, at) is Token,
    ensures
        at < scan_at(src, at).end() <= src.len(),
        is_ascii_byte(src[at]),
        is_ascii_byte(src[scan_at(src, at).end() - 1]),
{
    lemma_scan_at_advances(src, at);
    let b = src[at];
    let end = scan_at(src, at).end();
    if b == '"' as u8 {
        lemma_run_end_is_longest(src, at + 1, Run::Text);
    } else if is_digit(b) {
        lemma_number_is_numeral(src, at);
        let bytes = src.subrange(at, end);
        assert(bytes.last() == src[end - 1]);
    } else if is_alpha(b) {
        lemma_word_is_word(src, at);
        let bytes = src.subrange(at, end);
        assert(bytes[end - 1 - at] == src[end - 1]);
    }
}

/// In a source that is UTF-8 text, every lexeme is UTF-8 text.
pub proof fn lemma_lexemes_are_text(src: Seq<u8>)
    requires
        valid_utf8(src),
    ensures
        forall|i: int|
            0 <= i < lex(src).lexemes.len() ==> valid_utf8(
                src.subrange(
                    (#[trigger] lex(src).lexemes[i]).start,
                    lex(src).lexemes[i].end,
                ),
            ),
{
    lemma_lexemes_are_read(src);
    lemma_end_of_input_is_last(src);
    assert forall|i: int| 0 <= i < lex(src).lexemes.len() implies valid_utf8(
        src.subrange((#[trigger] lex(src).lexemes[i]).start, lex(src).lexemes[i].end),
    ) by {
        let lx = lex(src).lexemes[i];
        assert(read_where_it_starts(src, lx));
        if lx.kind == TokenType::Eof {
            assert(src.subrange(lx.start, lx.end) =~= Seq::<u8>::empty());
        } else {
            lemma_token_is_between_ascii(src, lx.start);
            lemma_utf8_between_ascii(src, lx.start, lx.end);
        }
    }
}

} // verus!
