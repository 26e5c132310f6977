//! Finding the comments of a source file, line by line.
//!
//! A comment is a run of lines that start (after indentation) with `//`, or a
//! block from a line starting with `/*` to a line starting with `*/`. A stamped
//! comment that refers to `N` lines of code takes the `N` lines after it as its
//! code.
use vstd::prelude::*;
use crate::models::{
    closes_at, empty_comment, lemma_push_comment_offset, push_code_model, push_comment_model, stamp_open,
    push_comment_stops, stamp_close, CommentData, CommentModel, SourceLocation, SourceRange,
};
use crate::text::{
    byte_len, byte_len_of, utf8_width, chars_of, lemma_byte_len_append, lemma_byte_len_take,
    lemma_ws_end_from, matches_at, find,
    starts_with, starts_with_exec, str_byte_len, string_views, sub_chars, trim_start,
    trim_start_index, ws_end_from,
};

verus! {

broadcast use vstd::seq_lib::group_seq_properties;

/// What the parser is reading.
#[derive(Debug, Clone, Copy, PartialEq, Eq, Structural)]
pub enum ParserState {
    Code,
    SingleLineComment,
    MultiLineComment,
    ReadingReferencedCode { remaining: usize },
}

/// The parser between two lines: what it reads, the comment being built, the
/// comments finished so far (those with text) and how many lines it has read.
pub struct Scan {
    pub state: ParserState,
    pub current: CommentModel,
    pub found: Seq<CommentModel>,
    pub row: nat,
}

pub open spec fn line_comment_start() -> Seq<char> {
    seq!['/', '/']
}

pub open spec fn block_comment_start() -> Seq<char> {
    seq!['/', '*']
}

pub open spec fn block_comment_end() -> Seq<char> {
    seq!['*', '/']
}

/// The finished comments after finishing `c`: comments without text are dropped.
pub open spec fn push_found(found: Seq<CommentModel>, c: CommentModel) -> Seq<CommentModel> {
    if c.raw_contents.len() > 0 {
        found.push(c)
    } else {
        found
    }
}

/// Pushes the comment text `text` into `c`; when it holds a complete stamp, the
/// stamp's end is recorded at row `row`, `offset` bytes before the text plus
/// the stamp's offset within the text.
pub open spec fn absorb(c: CommentModel, text: Seq<char>, row: nat, offset: nat) -> CommentModel {
    let (c1, pos) = push_comment_model(c, text);
    match pos {
        Some(p) => CommentModel {
            stamp_end: Some(SourceLocation { row: row as usize, column: (offset + p) as usize }),
            ..c1
        },
        None => c1,
    }
}

/// The comment `c` starting at `row`, `col`.
pub open spec fn started_at(c: CommentModel, row: nat, col: nat) -> CommentModel {
    CommentModel {
        comment_location: SourceRange {
            start: SourceLocation { row: row as usize, column: col as usize },
            end: c.comment_location.end,
        },
        ..c
    }
}

/// The step of the parser on one line; `Err` holds where the comment on whose
/// stamp the tool stops begins.
pub open spec fn scan_line(sc: Scan, file: Seq<char>, line: Seq<char>) -> Result<
    Scan,
    SourceLocation,
> {
    let row = sc.row + 1;
    let col = byte_len(line.take(ws_end_from(line, 0)));
    let trimmed = trim_start(line);
    let c = sc.current;
    let fresh = empty_comment(file);
    match sc.state {
        ParserState::Code => {
            if starts_with(trimmed, block_comment_start()) {
                let c1 = started_at(c, row, col);
                if push_comment_stops(trimmed.skip(2)) {
                    Err(c1.comment_location.start)
                } else {
                    Ok(
                        Scan {
                            state: ParserState::MultiLineComment,
                            current: absorb(c1, trimmed.skip(2), row, col + 2),
                            found: sc.found,
                            row: row,
                        },
                    )
                }
            } else if starts_with(trimmed, line_comment_start()) {
                let c1 = started_at(c, row, col);
                if push_comment_stops(trimmed.skip(2)) {
                    Err(c1.comment_location.start)
                } else {
                    Ok(
                        Scan {
                            state: ParserState::SingleLineComment,
                            current: absorb(c1, trimmed.skip(2), row, col + 2),
                            found: sc.found,
                            row: row,
                        },
                    )
                }
            } else {
                Ok(Scan { row: row, ..sc })
            }
        },
        ParserState::SingleLineComment => {
            if starts_with(trimmed, line_comment_start()) {
                if push_comment_stops(trimmed.skip(2)) {
                    Err(c.comment_location.start)
                } else {
                    Ok(Scan { current: absorb(c, trimmed.skip(2), row, col + 2), row: row, ..sc })
                }
            } else {
                let c1 = CommentModel {
                    comment_location: SourceRange {
                        start: c.comment_location.start,
                        end: SourceLocation {
                            row: (row - 1) as usize,
                            column: c.comment_location.end.column,
                        },
                    },
                    ..c
                };
                if c1.lines_of_code_referenced == 0 {
                    Ok(
                        Scan {
                            state: ParserState::Code,
                            current: fresh,
                            found: push_found(sc.found, c1),
                            row: row,
                        },
                    )
                } else {
                    let c2 = CommentModel {
                        lines_of_code_read: 1,
                        ..push_code_model(c1, trimmed)
                    };
                    if c2.lines_of_code_referenced == 1 {
                        Ok(
                            Scan {
                                state: ParserState::Code,
                                current: fresh,
                                found: push_found(sc.found, c2),
                                row: row,
                            },
                        )
                    } else {
                        Ok(
                            Scan {
                                state: ParserState::ReadingReferencedCode {
                                    remaining: (c2.lines_of_code_referenced - 1) as usize,
                                },
                                current: c2,
                                found: sc.found,
                                row: row,
                            },
                        )
                    }
                }
            }
        },
        ParserState::MultiLineComment => {
            if starts_with(trimmed, block_comment_end()) {
                let c1 = CommentModel {
                    comment_location: SourceRange {
                        start: c.comment_location.start,
                        end: SourceLocation { row: row as usize, column: col as usize },
                    },
                    ..c
                };
                if c1.lines_of_code_referenced > 0 {
                    Ok(
                        Scan {
                            state: ParserState::ReadingReferencedCode {
                                remaining: c1.lines_of_code_referenced as usize,
                            },
                            current: c1,
                            found: sc.found,
                            row: row,
                        },
                    )
                } else {
                    Ok(
                        Scan {
                            state: ParserState::Code,
                            current: fresh,
                            found: push_found(sc.found, c1),
                            row: row,
                        },
                    )
                }
            } else {
                if push_comment_stops(trimmed) {
                    Err(c.comment_location.start)
                } else {
                    Ok(Scan { current: absorb(c, trimmed, row, col), row: row, ..sc })
                }
            }
        },
        ParserState::ReadingReferencedCode { remaining } => {
            let c1 = CommentModel {
                lines_of_code_read: (c.lines_of_code_read + 1) as u16,
                ..push_code_model(c, trimmed)
            };
            if remaining == 1 {
                Ok(
                    Scan {
                        state: ParserState::Code,
                        current: fresh,
                        found: push_found(sc.found, c1),
                        row: row,
                    },
                )
            } else {
                Ok(
                    Scan {
                        state: ParserState::ReadingReferencedCode {
                            remaining: (remaining - 1) as usize,
                        },
                        current: c1,
                        found: sc.found,
                        row: row,
                    },
                )
            }
        },
    }
}

/// The parser before the first line.
pub open spec fn scan_start(file: Seq<char>) -> Scan {
    Scan { state: ParserState::Code, current: empty_comment(file), found: Seq::empty(), row: 0 }
}

/// The parser after the lines `lines`, or where it stopped.
pub open spec fn scan_lines(file: Seq<char>, lines: Seq<Seq<char>>) -> Result<Scan, SourceLocation>
    decreases lines.len(),
{
    if lines.len() == 0 {
        Ok(scan_start(file))
    } else {
        match scan_lines(file, lines.drop_last()) {
            Ok(sc) => scan_line(sc, file, lines.last()),
            Err(e) => Err(e),
        }
    }
}

/// The comments of a file with the given lines, in order: the finished ones
/// and one still open at the end, when they have text; `Err` holds where the
/// comment on whose stamp the tool stops begins.
pub open spec fn parse_file_model(file: Seq<char>, lines: Seq<Seq<char>>) -> Result<
    Seq<CommentModel>,
    SourceLocation,
> {
    match scan_lines(file, lines) {
        Ok(sc) => Ok(push_found(sc.found, sc.current)),
        Err(e) => Err(e),
    }
}

/// The values of a sequence of comments.
pub open spec fn comment_models(v: Seq<CommentData>) -> Seq<CommentModel> {
    v.map_values(|c: CommentData| c@)
}

/// What holds of the parser at every line boundary.
pub open spec fn scan_wf(sc: Scan, file: Seq<char>) -> bool {
    &&& sc.current.file == file
    &&& sc.state is Code ==> sc.current == empty_comment(file)
    &&& (sc.state is SingleLineComment || sc.state is MultiLineComment)
        ==> sc.current.lines_of_code_read == 0
    &&& sc.state matches ParserState::ReadingReferencedCode { remaining } ==> remaining >= 1
        && sc.current.lines_of_code_read + remaining == sc.current.lines_of_code_referenced
    &&& !(sc.state is Code) ==> sc.row >= 1
    &&& forall|k: int| 0 <= k < sc.found.len() ==> (#[trigger] sc.found[k]).file == file
    &&& forall|k: int| 0 <= k < sc.found.len() ==> (#[trigger] sc.found[k]).raw_contents.len() > 0
}

proof fn lemma_scan_lines_wf(file: Seq<char>, lines: Seq<Seq<char>>)
    ensures
        scan_lines(file, lines) matches Ok(sc) ==> scan_wf(sc, file) && sc.row == lines.len(),
    decreases lines.len(),
{
    if lines.len() > 0 {
        lemma_scan_lines_wf(file, lines.drop_last());
        if let Ok(sc) = scan_lines(file, lines.drop_last()) {
            lemma_scan_line_wf(sc, file, lines.last());
        }
    }
}

/// Every comment the parser reports has text and belongs to the file parsed.
pub proof fn lemma_parsed_comments_have_text_and_file(file: Seq<char>, lines: Seq<Seq<char>>)
    ensures
        parse_file_model(file, lines) matches Ok(cs) ==> forall|k: int|
            0 <= k < cs.len() ==> (#[trigger] cs[k]).raw_contents.len() > 0 && cs[k].file == file,
{
    lemma_scan_lines_wf(file, lines);
}

/// Where comment `c` says its stamp ends, the lines `lines` hold the stamp's
/// closing backticks: on that 1-based row, at that byte column.
pub open spec fn stamp_end_in(c: CommentModel, lines: Seq<Seq<char>>) -> bool {
    c.stamp_end matches Some(loc) ==> 1 <= loc.row <= lines.len() && closes_at(
        lines[loc.row - 1],
        loc.column as nat,
    )
}

/// Comment `c` has read no more lines of code than its stamp refers to, and
/// its stamp's end is where `lines` say.
pub open spec fn comment_fits(c: CommentModel, lines: Seq<Seq<char>>) -> bool {
    stamp_end_in(c, lines) && c.lines_of_code_read <= c.lines_of_code_referenced
}

/// Lines that a machine can hold: each fits its byte length in a `usize`, and
/// so does their number.
pub open spec fn lines_fit(lines: Seq<Seq<char>>) -> bool {
    lines.len() <= usize::MAX && forall|i: int| 0 <= i < lines.len() ==> byte_len(#[trigger] lines[i])
        <= usize::MAX
}

proof fn lemma_stamp_end_in_more(c: CommentModel, d: Seq<Seq<char>>, l: Seq<char>)
    requires
        stamp_end_in(c, d),
    ensures
        stamp_end_in(c, d.push(l)),
{
    if let Some(loc) = c.stamp_end {
        assert(d.push(l)[loc.row - 1] == d[loc.row - 1]);
    }
}

proof fn lemma_closes_at_shift(x: Seq<char>, m: int, p: nat)
    requires
        0 <= m <= x.len(),
        closes_at(x.skip(m), p),
    ensures
        closes_at(x, byte_len(x.take(m)) + p),
{
    let s = x.skip(m);
    let q = choose|q: int|
        0 <= q <= s.len() && byte_len(s.take(q)) == p && #[trigger] matches_at(s, stamp_close(), q);
    let bq = m + q;
    assert(x.take(bq) =~= x.take(m) + s.take(q));
    lemma_byte_len_append(x.take(m), s.take(q));
    assert(x.subrange(bq, bq + stamp_close().len()) =~= s.subrange(q, q + stamp_close().len()));
    assert(matches_at(x, stamp_close(), bq));
}

/// What absorbing comment text taken from line `line` at character `m` (byte
/// `off`) does to where the stamp ends.
proof fn lemma_absorb_stamp_end(c: CommentModel, line: Seq<char>, m: int, off: nat, d: Seq<Seq<char>>)
    requires
        0 <= m <= line.len(),
        off == byte_len(line.take(m)),
        byte_len(line) <= usize::MAX,
        d.len() + 1 <= usize::MAX,
        stamp_end_in(c, d),
    ensures
        stamp_end_in(absorb(c, line.skip(m), (d.len() + 1) as nat, off), d.push(line)),
{
    let text = line.skip(m);
    lemma_push_comment_offset(c, text);
    lemma_stamp_end_in_more(c, d, line);
    let (c1, pos) = push_comment_model(c, text);
    if let Some(p) = pos {
        lemma_closes_at_shift(line, m, p);
        let q = choose|q: int|
            0 <= q <= line.len() && byte_len(line.take(q)) == off + p && #[trigger] matches_at(
                line,
                stamp_close(),
                q,
            );
        lemma_byte_len_take(line, q, line.len() as int);
        assert(line.take(line.len() as int) =~= line);
        assert(d.push(line)[d.len() as int] == line);
    }
}

/// Skipping a leading `//`, `/*` or `*/` adds its two bytes to the offset.
proof fn lemma_skip_two_ascii(line: Seq<char>, w: int)
    requires
        0 <= w,
        w + 2 <= line.len(),
        (line[w] as u32) < 0x80,
        (line[w + 1] as u32) < 0x80,
    ensures
        byte_len(line.take(w + 2)) == byte_len(line.take(w)) + 2,
{
    assert(line.take(w + 2) =~= line.take(w) + seq![line[w], line[w + 1]]);
    lemma_byte_len_append(line.take(w), seq![line[w], line[w + 1]]);
    let t = seq![line[w], line[w + 1]];
    assert(t.drop_first() =~= seq![line[w + 1]]);
    assert(seq![line[w + 1]].drop_first() =~= Seq::<char>::empty());
    assert(byte_len(seq![line[w + 1]]) == utf8_width(line[w + 1]) + byte_len(
        seq![line[w + 1]].drop_first(),
    ));
    assert(byte_len(t) == utf8_width(t[0]) + byte_len(t.drop_first()));
}

proof fn lemma_scan_line_fits(sc: Scan, file: Seq<char>, d: Seq<Seq<char>>, line: Seq<char>)
    requires
        scan_wf(sc, file),
        sc.row == d.len(),
        d.len() + 1 <= usize::MAX,
        byte_len(line) <= usize::MAX,
        comment_fits(sc.current, d),
        forall|k: int| 0 <= k < sc.found.len() ==> comment_fits(#[trigger] sc.found[k], d),
    ensures
        scan_line(sc, file, line) matches Ok(next) ==> comment_fits(next.current, d.push(line))
            && forall|k: int|
            0 <= k < next.found.len() ==> comment_fits(#[trigger] next.found[k], d.push(line)),
{
    let lines = d.push(line);
    let w = ws_end_from(line, 0);
    lemma_ws_end_from(line, 0);
    let col = byte_len(line.take(w));
    let trimmed = trim_start(line);
    lemma_stamp_end_in_more(sc.current, d, line);
    assert forall|k: int| 0 <= k < sc.found.len() implies comment_fits(
        #[trigger] sc.found[k],
        lines,
    ) by {
        lemma_stamp_end_in_more(sc.found[k], d, line);
    }
    assert(stamp_end_in(empty_comment(file), lines));
    if w + 2 <= line.len() {
        assert(trimmed.skip(2) =~= line.skip(w + 2));
        if starts_with(trimmed, line_comment_start()) || starts_with(trimmed, block_comment_start())
            || starts_with(trimmed, block_comment_end()) {
            assert(trimmed[0] == line[w] && trimmed[1] == line[w + 1]);
            assert(trimmed.take(2)[0] == trimmed[0] && trimmed.take(2)[1] == trimmed[1]);
            lemma_skip_two_ascii(line, w);
        }
    }
    match sc.state {
        ParserState::Code => {
            if starts_with(trimmed, block_comment_start()) || starts_with(
                trimmed,
                line_comment_start(),
            ) {
                let c1 = started_at(sc.current, (d.len() + 1) as nat, col);
                lemma_absorb_stamp_end(c1, line, w + 2, col + 2, d);
            }
        },
        ParserState::SingleLineComment => {
            if starts_with(trimmed, line_comment_start()) {
                lemma_absorb_stamp_end(sc.current, line, w + 2, col + 2, d);
            }
        },
        ParserState::MultiLineComment => {
            if !starts_with(trimmed, block_comment_end()) {
                assert(trimmed =~= line.skip(w));
                lemma_absorb_stamp_end(sc.current, line, w, col, d);
            }
        },
        ParserState::ReadingReferencedCode { remaining } => {},
    }
}

proof fn lemma_scan_lines_fit(file: Seq<char>, lines: Seq<Seq<char>>)
    requires
        lines_fit(lines),
    ensures
        scan_lines(file, lines) matches Ok(sc) ==> comment_fits(sc.current, lines) && forall|k: int|
            0 <= k < sc.found.len() ==> comment_fits(#[trigger] sc.found[k], lines),
    decreases lines.len(),
{
    if lines.len() > 0 {
        let d = lines.drop_last();
        assert(lines_fit(d)) by {
            assert forall|i: int| 0 <= i < d.len() implies byte_len(#[trigger] d[i]) <= usize::MAX by {
                assert(d[i] == lines[i]);
            }
        }
        lemma_scan_lines_fit(file, d);
        lemma_scan_lines_wf(file, d);
        assert(d.push(lines.last()) =~= lines);
        assert(byte_len(lines[lines.len() - 1]) <= usize::MAX);
        if let Ok(sc) = scan_lines(file, d) {
            lemma_scan_line_fits(sc, file, d, lines.last());
        }
    }
}

/// Where the parser says a comment's stamp ends, the line on that row holds
/// the stamp's closing backticks at that byte column (so hashes inserted there
/// land inside the stamp); and no comment has read more lines of code than its
/// stamp refers to.
pub proof fn lemma_parsed_stamp_ends(file: Seq<char>, lines: Seq<Seq<char>>)
    requires
        lines_fit(lines),
    ensures
        parse_file_model(file, lines) matches Ok(cs) ==> forall|k: int|
            0 <= k < cs.len() ==> comment_fits(#[trigger] cs[k], lines),
{
    lemma_scan_lines_fit(file, lines);
    if let Ok(sc) = scan_lines(file, lines) {
        let cs = push_found(sc.found, sc.current);
        assert forall|k: int| 0 <= k < cs.len() implies comment_fits(#[trigger] cs[k], lines) by {
            if k < sc.found.len() {
                assert(cs[k] == sc.found[k]);
            }
        }
    }
}

/// The lines after row `from` (1-based rows `from + 1` to `from + count`),
/// each without its indentation and followed by a newline: the code that a
/// comment ending on row `from` and referring to `count` lines takes.
pub open spec fn code_lines(lines: Seq<Seq<char>>, from: int, count: int) -> Seq<char>
    decreases count,
{
    if count <= 0 {
        Seq::empty()
    } else {
        code_lines(lines, from, count - 1) + trim_start(lines[from + count - 1]).push('\n')
    }
}

proof fn lemma_code_lines_more(lines: Seq<Seq<char>>, l: Seq<char>, from: int, count: int)
    requires
        0 <= from,
        from + count <= lines.len(),
    ensures
        code_lines(lines.push(l), from, count) == code_lines(lines, from, count),
    decreases count,
{
    if count > 0 {
        lemma_code_lines_more(lines, l, from, count - 1);
        assert(lines.push(l)[from + count - 1] == lines[from + count - 1]);
    }
}

/// A finished comment that refers to `n > 0` lines of code and ended on a row
/// has taken exactly the `n` lines after that row as its code.
pub open spec fn took_its_code(c: CommentModel, lines: Seq<Seq<char>>) -> bool {
    c.lines_of_code_referenced > 0 && c.comment_location.end.row > 0 ==> c.comment_location.end.row
        + c.lines_of_code_referenced <= lines.len() && c.lines_of_code_read
        == c.lines_of_code_referenced && c.code_it_refers_to == code_lines(
        lines,
        c.comment_location.end.row as int,
        c.lines_of_code_referenced as int,
    )
}

/// What holds of the order of the comments and of the code they took, after
/// the lines `lines`.
pub open spec fn scan_order(sc: Scan, lines: Seq<Seq<char>>) -> bool {
    &&& forall|k: int|
        0 <= k < sc.found.len() ==> 1 <= (#[trigger] sc.found[k]).comment_location.start.row <= sc.row
    &&& forall|i: int, j: int|
        0 <= i < j < sc.found.len() ==> (#[trigger] sc.found[i]).comment_location.start.row
            < (#[trigger] sc.found[j]).comment_location.start.row
    &&& forall|k: int| 0 <= k < sc.found.len() ==> took_its_code(#[trigger] sc.found[k], lines)
    &&& !(sc.state is Code) ==> 1 <= sc.current.comment_location.start.row <= sc.row && forall|k: int|
        0 <= k < sc.found.len() ==> (#[trigger] sc.found[k]).comment_location.start.row
            < sc.current.comment_location.start.row
    &&& (sc.state is SingleLineComment || sc.state is MultiLineComment)
        ==> sc.current.comment_location.end.row == 0 && sc.current.code_it_refers_to.len() == 0
    &&& sc.state is ReadingReferencedCode ==> sc.current.comment_location.end.row >= 1
        && sc.current.comment_location.end.row + sc.current.lines_of_code_read == sc.row
        && sc.current.code_it_refers_to == code_lines(
        lines,
        sc.current.comment_location.end.row as int,
        sc.current.lines_of_code_read as int,
    )
}

proof fn lemma_took_its_code_more(c: CommentModel, lines: Seq<Seq<char>>, l: Seq<char>)
    requires
        took_its_code(c, lines),
    ensures
        took_its_code(c, lines.push(l)),
{
    if c.lines_of_code_referenced > 0 && c.comment_location.end.row > 0 {
        lemma_code_lines_more(
            lines,
            l,
            c.comment_location.end.row as int,
            c.lines_of_code_referenced as int,
        );
    }
}

proof fn lemma_push_found_order(
    found: Seq<CommentModel>,
    c: CommentModel,
    row: nat,
    lines: Seq<Seq<char>>,
)
    requires
        forall|k: int|
            0 <= k < found.len() ==> 1 <= (#[trigger] found[k]).comment_location.start.row <= row,
        forall|i: int, j: int|
            0 <= i < j < found.len() ==> (#[trigger] found[i]).comment_location.start.row
                < (#[trigger] found[j]).comment_location.start.row,
        forall|k: int| 0 <= k < found.len() ==> took_its_code(#[trigger] found[k], lines),
        1 <= c.comment_location.start.row <= row,
        forall|k: int|
            0 <= k < found.len() ==> (#[trigger] found[k]).comment_location.start.row
                < c.comment_location.start.row,
        took_its_code(c, lines),
    ensures
        ({
            let f = push_found(found, c);
            &&& forall|k: int|
                0 <= k < f.len() ==> 1 <= (#[trigger] f[k]).comment_location.start.row <= row
            &&& forall|i: int, j: int|
                0 <= i < j < f.len() ==> (#[trigger] f[i]).comment_location.start.row
                    < (#[trigger] f[j]).comment_location.start.row
            &&& forall|k: int| 0 <= k < f.len() ==> took_its_code(#[trigger] f[k], lines)
        }),
{
    let f = push_found(found, c);
    if c.raw_contents.len() > 0 {
        assert forall|i: int, j: int|
            0 <= i < j < f.len() implies (#[trigger] f[i]).comment_location.start.row
            < (#[trigger] f[j]).comment_location.start.row by {
            if j == found.len() {
                assert(f[i] == found[i]);
            } else {
                assert(f[i] == found[i] && f[j] == found[j]);
            }
        }
        assert forall|k: int| 0 <= k < f.len() implies took_its_code(#[trigger] f[k], lines) by {
            if k < found.len() {
                assert(f[k] == found[k]);
            }
        }
        assert forall|k: int|
            0 <= k < f.len() implies 1 <= (#[trigger] f[k]).comment_location.start.row <= row by {
            if k < found.len() {
                assert(f[k] == found[k]);
            }
        }
    }
}

#[verifier::rlimit(40)]
proof fn lemma_scan_line_order(sc: Scan, file: Seq<char>, d: Seq<Seq<char>>, line: Seq<char>)
    requires
        scan_wf(sc, file),
        sc.row == d.len(),
        d.len() + 1 <= usize::MAX,
        scan_order(sc, d),
    ensures
        scan_line(sc, file, line) matches Ok(next) ==> scan_order(next, d.push(line)),
{
    let lines = d.push(line);
    let row = (sc.row + 1) as nat;
    assert(lines[row - 1] == line);
    assert forall|k: int| 0 <= k < sc.found.len() implies took_its_code(
        #[trigger] sc.found[k],
        lines,
    ) by {
        lemma_took_its_code_more(sc.found[k], d, line);
    }
    if sc.state is ReadingReferencedCode {
        lemma_code_lines_more(
            d,
            line,
            sc.current.comment_location.end.row as int,
            sc.current.lines_of_code_read as int,
        );
    }
    assert(took_its_code(empty_comment(file), lines));
    if let Ok(next) = scan_line(sc, file, line) {
        let c = sc.current;
        let trimmed = trim_start(line);
        match sc.state {
            ParserState::SingleLineComment => {
                if !starts_with(trimmed, line_comment_start()) {
                    let c1 = CommentModel {
                        comment_location: SourceRange {
                            start: c.comment_location.start,
                            end: SourceLocation {
                                row: (row - 1) as usize,
                                column: c.comment_location.end.column,
                            },
                        },
                        ..c
                    };
                    if c1.lines_of_code_referenced == 0 {
                        lemma_push_found_order(sc.found, c1, row, lines);
                    } else {
                        let c2 = CommentModel {
                            lines_of_code_read: 1,
                            ..push_code_model(c1, trimmed)
                        };
                        assert(code_lines(lines, row - 1, 0) == Seq::<char>::empty());
                        assert(c2.code_it_refers_to =~= code_lines(lines, row - 1, 1));
                        if c2.lines_of_code_referenced == 1 {
                            lemma_push_found_order(sc.found, c2, row, lines);
                        }
                    }
                }
            },
            ParserState::MultiLineComment => {
                if starts_with(trimmed, block_comment_end()) {
                    let c1 = CommentModel {
                        comment_location: SourceRange {
                            start: c.comment_location.start,
                            end: SourceLocation { row: row as usize, column: byte_len(line.take(ws_end_from(line, 0))) as usize },
                        },
                        ..c
                    };
                    if c1.lines_of_code_referenced == 0 {
                        lemma_push_found_order(sc.found, c1, row, lines);
                    } else {
                        assert(c1.code_it_refers_to =~= code_lines(lines, row as int, 0));
                    }
                }
            },
            ParserState::ReadingReferencedCode { remaining } => {
                let c1 = CommentModel {
                    lines_of_code_read: (c.lines_of_code_read + 1) as u16,
                    ..push_code_model(c, trimmed)
                };
                let e = c.comment_location.end.row as int;
                assert(c1.code_it_refers_to =~= code_lines(lines, e, c.lines_of_code_read + 1));
                if remaining == 1 {
                    lemma_push_found_order(sc.found, c1, row, lines);
                }
            },
            ParserState::Code => {},
        }
    }
}

proof fn lemma_scan_lines_order(file: Seq<char>, lines: Seq<Seq<char>>)
    requires
        lines.len() <= usize::MAX,
    ensures
        scan_lines(file, lines) matches Ok(sc) ==> scan_order(sc, lines),
    decreases lines.len(),
{
    if lines.len() > 0 {
        let d = lines.drop_last();
        lemma_scan_lines_order(file, d);
        lemma_scan_lines_wf(file, d);
        assert(d.push(lines.last()) =~= lines);
        if let Ok(sc) = scan_lines(file, d) {
            lemma_scan_line_order(sc, file, d, lines.last());
        }
    }
}

/// The parser reports comments in the order they start, each on a later row
/// than the one before; and a comment that refers to `n > 0` lines of code and
/// ended on row `e`, when the file has `e + n` lines, has taken exactly lines
/// `e + 1` to `e + n`, without their indentation, as its code.
pub proof fn lemma_parsed_comments_order_and_code(file: Seq<char>, lines: Seq<Seq<char>>)
    requires
        lines.len() <= usize::MAX,
    ensures
        parse_file_model(file, lines) matches Ok(cs) ==> (forall|i: int, j: int|
            0 <= i < j < cs.len() ==> (#[trigger] cs[i]).comment_location.start.row
                < (#[trigger] cs[j]).comment_location.start.row) && forall|k: int|
            0 <= k < cs.len() && (#[trigger] cs[k]).lines_of_code_referenced > 0
                && cs[k].comment_location.end.row > 0 && cs[k].comment_location.end.row
                + cs[k].lines_of_code_referenced <= lines.len() ==> cs[k].lines_of_code_read
                == cs[k].lines_of_code_referenced && cs[k].code_it_refers_to == code_lines(
                lines,
                cs[k].comment_location.end.row as int,
                cs[k].lines_of_code_referenced as int,
            ),
{
    lemma_scan_lines_order(file, lines);
    lemma_scan_lines_wf(file, lines);
    if let Ok(sc) = scan_lines(file, lines) {
        let c = sc.current;
        let f = sc.found;
        let cs = push_found(f, c);
        assert forall|i: int, j: int|
            0 <= i < j < cs.len() implies (#[trigger] cs[i]).comment_location.start.row
            < (#[trigger] cs[j]).comment_location.start.row by {
            assert(cs[i] == f[i]);
            if j < f.len() {
                assert(cs[j] == f[j]);
            } else {
                assert(!(sc.state is Code));
            }
        }
        assert forall|k: int|
            0 <= k < cs.len() && (#[trigger] cs[k]).lines_of_code_referenced > 0
                && cs[k].comment_location.end.row > 0 && cs[k].comment_location.end.row
                + cs[k].lines_of_code_referenced <= lines.len() implies cs[k].lines_of_code_read
            == cs[k].lines_of_code_referenced && cs[k].code_it_refers_to == code_lines(
            lines,
            cs[k].comment_location.end.row as int,
            cs[k].lines_of_code_referenced as int,
        ) by {
            if k < f.len() {
                assert(cs[k] == f[k]);
                assert(took_its_code(f[k], lines));
            } else {
                assert(cs[k] == c);
                assert(!(sc.state is Code));
            }
        }
    }
}

/// The text of a `//` comment line as it goes into its comment: what follows
/// the `//` after the line's indentation, up to where a stamp opens.
pub open spec fn line_comment_text(l: Seq<char>) -> Seq<char> {
    let t = trim_start(l).skip(2);
    match find(t, stamp_open()) {
        Some(st) => t.take(st),
        None => t,
    }
}

/// The text of a group of `//` comment lines on the 1-based rows `a` to `b`
/// of `lines`: the text of each line, in order, each preceded by a newline.
pub open spec fn group_text(lines: Seq<Seq<char>>, a: int, b: int) -> Seq<char>
    decreases b - a + 1,
{
    if b < a {
        Seq::empty()
    } else {
        group_text(lines, a, b - 1).push('\n') + line_comment_text(lines[b - 1])
    }
}

/// A comment that starts on a `//` line and ends on a row of `lines` holds
/// the text of every line of its group.
pub open spec fn group_text_ok(c: CommentModel, lines: Seq<Seq<char>>) -> bool {
    1 <= c.comment_location.start.row <= c.comment_location.end.row <= lines.len() && starts_with(
        trim_start(lines[c.comment_location.start.row - 1]),
        line_comment_start(),
    ) ==> c.raw_contents == group_text(
        lines,
        c.comment_location.start.row as int,
        c.comment_location.end.row as int,
    )
}

proof fn lemma_group_text_more(lines: Seq<Seq<char>>, l: Seq<char>, a: int, b: int)
    requires
        1 <= a,
        b <= lines.len(),
    ensures
        group_text(lines.push(l), a, b) == group_text(lines, a, b),
    decreases b - a + 1,
{
    if b >= a {
        lemma_group_text_more(lines, l, a, b - 1);
        assert(lines.push(l)[b - 1] == lines[b - 1]);
    }
}

proof fn lemma_group_text_ok_more(c: CommentModel, lines: Seq<Seq<char>>, l: Seq<char>)
    requires
        group_text_ok(c, lines),
        c.comment_location.end.row <= lines.len(),
    ensures
        group_text_ok(c, lines.push(l)),
{
    let a = c.comment_location.start.row as int;
    let b = c.comment_location.end.row as int;
    if 1 <= a <= b {
        lemma_group_text_more(lines, l, a, b);
        assert(lines.push(l)[a - 1] == lines[a - 1]);
    }
}

proof fn lemma_push_comment_text(c: CommentModel, s: Seq<char>)
    ensures
        push_comment_model(c, s).0.raw_contents == c.raw_contents.push('\n') + match find(
            s,
            stamp_open(),
        ) {
            Some(st) => s.take(st),
            None => s,
        },
{
}

/// What holds of the text of the comments after the lines `lines`.
pub open spec fn scan_text(sc: Scan, lines: Seq<Seq<char>>) -> bool {
    &&& forall|k: int|
        0 <= k < sc.found.len() ==> group_text_ok(#[trigger] sc.found[k], lines)
            && sc.found[k].comment_location.end.row <= sc.row
    &&& sc.state is SingleLineComment ==> 1 <= sc.current.comment_location.start.row <= sc.row
        && starts_with(
        trim_start(lines[sc.current.comment_location.start.row - 1]),
        line_comment_start(),
    ) && sc.current.raw_contents == group_text(
        lines,
        sc.current.comment_location.start.row as int,
        sc.row as int,
    ) && sc.current.comment_location.end.row == 0
    &&& sc.state is MultiLineComment ==> 1 <= sc.current.comment_location.start.row <= sc.row
        && !starts_with(
        trim_start(lines[sc.current.comment_location.start.row - 1]),
        line_comment_start(),
    ) && sc.current.comment_location.end.row == 0
    &&& sc.state is ReadingReferencedCode ==> group_text_ok(sc.current, lines)
        && sc.current.comment_location.end.row <= sc.row
}

#[verifier::rlimit(40)]
proof fn lemma_scan_line_text(sc: Scan, file: Seq<char>, d: Seq<Seq<char>>, line: Seq<char>)
    requires
        scan_wf(sc, file),
        sc.row == d.len(),
        d.len() + 1 <= usize::MAX,
        scan_text(sc, d),
    ensures
        scan_line(sc, file, line) matches Ok(next) ==> scan_text(next, d.push(line)),
{
    let lines = d.push(line);
    let row = (sc.row + 1) as nat;
    assert(lines[row - 1] == line);
    assert forall|k: int| 0 <= k < sc.found.len() implies group_text_ok(
        #[trigger] sc.found[k],
        lines,
    ) by {
        lemma_group_text_ok_more(sc.found[k], d, line);
    }
    let c = sc.current;
    let a = c.comment_location.start.row as int;
    if !(sc.state is Code) && 1 <= a <= sc.row {
        assert(lines[a - 1] == d[a - 1]);
    }
    if sc.state is SingleLineComment {
        lemma_group_text_more(d, line, a, sc.row as int);
    }
    if sc.state is ReadingReferencedCode {
        lemma_group_text_ok_more(c, d, line);
    }
    let trimmed = trim_start(line);
    if let Ok(next) = scan_line(sc, file, line) {
        match sc.state {
            ParserState::Code => {
                if starts_with(trimmed, block_comment_start()) {
                    assert(trimmed.take(2)[1] == '*');
                } else if starts_with(trimmed, line_comment_start()) {
                    let c1 = started_at(c, row, byte_len(line.take(ws_end_from(line, 0))));
                    lemma_push_comment_text(c1, trimmed.skip(2));
                    assert(group_text(lines, row as int, row - 1) == Seq::<char>::empty());
                    assert(c.raw_contents == Seq::<char>::empty());
                }
            },
            ParserState::SingleLineComment => {
                if starts_with(trimmed, line_comment_start()) {
                    lemma_push_comment_text(c, trimmed.skip(2));
                } else {
                    let c1 = CommentModel {
                        comment_location: SourceRange {
                            start: c.comment_location.start,
                            end: SourceLocation {
                                row: (row - 1) as usize,
                                column: c.comment_location.end.column,
                            },
                        },
                        ..c
                    };
                    assert(group_text_ok(c1, lines));
                }
            },
            ParserState::MultiLineComment => {
                if !starts_with(trimmed, block_comment_end()) {
                    lemma_push_comment_text(c, trimmed);
                }
            },
            ParserState::ReadingReferencedCode { remaining } => {},
        }
    }
}

proof fn lemma_scan_lines_text(file: Seq<char>, lines: Seq<Seq<char>>)
    requires
        lines.len() <= usize::MAX,
    ensures
        scan_lines(file, lines) matches Ok(sc) ==> scan_text(sc, lines),
    decreases lines.len(),
{
    if lines.len() > 0 {
        let d = lines.drop_last();
        lemma_scan_lines_text(file, d);
        lemma_scan_lines_wf(file, d);
        assert(d.push(lines.last()) =~= lines);
        if let Ok(sc) = scan_lines(file, d) {
            lemma_scan_line_text(sc, file, d, lines.last());
        }
    }
}

/// The text of a comment made of `//` lines holds the text of every one of
/// its lines: for a group on rows `a` to `b` that has ended, the comment's
/// text is, for each of those rows in order, a newline and what follows the
/// `//` on that row up to where a stamp opens.
pub proof fn lemma_line_comments_keep_every_line(file: Seq<char>, lines: Seq<Seq<char>>)
    requires
        lines.len() <= usize::MAX,
    ensures
        parse_file_model(file, lines) matches Ok(cs) ==> forall|k: int|
            0 <= k < cs.len() ==> group_text_ok(#[trigger] cs[k], lines),
{
    lemma_scan_lines_text(file, lines);
    lemma_scan_lines_wf(file, lines);
    if let Ok(sc) = scan_lines(file, lines) {
        let cs = push_found(sc.found, sc.current);
        assert forall|k: int| 0 <= k < cs.len() implies group_text_ok(#[trigger] cs[k], lines) by {
            if k < sc.found.len() {
                assert(cs[k] == sc.found[k]);
            } else {
                assert(cs[k] == sc.current);
            }
        }
    }
}

proof fn lemma_scan_line_wf(sc: Scan, file: Seq<char>, line: Seq<char>)
    requires
        scan_wf(sc, file),
    ensures
        scan_line(sc, file, line) matches Ok(next) ==> scan_wf(next, file) && next.row == sc.row
            + 1,
{
}

/// A two-character pattern.
fn pattern2(a: char, b: char) -> (r: Vec<char>)
    ensures
        r@ == seq![a, b],
{
    let mut r: Vec<char> = Vec::new();
    r.push(a);
    r.push(b);
    assert(r@ =~= seq![a, b]);
    r
}

/// A fresh comment of file `file`.
fn fresh_comment(file: &String) -> (r: CommentData)
    ensures
        r@ == empty_comment(file@),
{
    let mut c = CommentData::empty();
    c.file = file.clone();
    c
}

/// Finishes the current comment: it goes to `out` when it has text, and a fresh
/// comment takes its place.
fn finish_comment(cur: &mut CommentData, out: &mut Vec<CommentData>, file: &String)
    ensures
        final(cur)@ == empty_comment(file@),
        comment_models(final(out)@) == push_found(comment_models(old(out)@), old(cur)@),
{
    let mut done = fresh_comment(file);
    std::mem::swap(&mut done, cur);
    let has_text = !done.raw_contents.as_str().is_empty();
    if has_text {
        let ghost before = out@;
        out.push(done);
        assert(comment_models(out@) =~= comment_models(before).push(done@));
    }
}

proof fn lemma_byte_len_two(a: char, b: char)
    requires
        a == '/' || a == '*',
        b == '/' || b == '*',
    ensures
        byte_len(seq![a, b]) == 2,
{
    let s = seq![a, b];
    assert(s.drop_first() =~= seq![b]);
    assert(seq![b].drop_first() =~= Seq::<char>::empty());
    assert(byte_len(Seq::<char>::empty()) == 0);
    assert(utf8_width(a) == 1);
    assert(utf8_width(b) == 1);
    assert(byte_len(seq![b]) == utf8_width(b) + byte_len(seq![b].drop_first()));
    assert(byte_len(seq![b]) == 1);
}

/// Pushes comment text into the current comment, recording the stamp's end.
fn absorb_text(
    cur: &mut CommentData,
    text: &Vec<char>,
    row: usize,
    offset: usize,
) -> (r: Result<(), SourceLocation>)
    requires
        offset + byte_len(text@) <= usize::MAX,
    ensures
        r is Err <==> push_comment_stops(text@),
        r matches Err(e) ==> e == old(cur)@.comment_location.start,
        r is Ok ==> final(cur)@ == absorb(old(cur)@, text@, row as nat, offset as nat),
{
    let start = cur.comment_location.start;
    match cur.absorb_comment_line(text) {
        Err(()) => Err(start),
        Ok(pos) => {
            if let Some(p) = pos {
                cur.stamp_end = Some(SourceLocation { row: row, column: offset + p });
            }
            Ok(())
        },
    }
}

/// One step of the parser on the line `line`, the `row`-th of the file.
#[verifier::spinoff_prover]
fn scan_one_line(
    st: &mut ParserState,
    cur: &mut CommentData,
    out: &mut Vec<CommentData>,
    file: &String,
    line: &Vec<char>,
    row: usize,
) -> (r: Result<(), SourceLocation>)
    requires
        row >= 1,
        byte_len(line@) <= usize::MAX,
        scan_wf(
            Scan {
                state: *old(st),
                current: old(cur)@,
                found: comment_models(old(out)@),
                row: (row - 1) as nat,
            },
            file@,
        ),
    ensures
        ({
            let before = Scan {
                state: *old(st),
                current: old(cur)@,
                found: comment_models(old(out)@),
                row: (row - 1) as nat,
            };
            match r {
                Ok(()) => scan_line(before, file@, line@) == Ok::<Scan, SourceLocation>(
                    Scan {
                        state: *final(st),
                        current: final(cur)@,
                        found: comment_models(final(out)@),
                        row: row as nat,
                    },
                ),
                Err(e) => scan_line(before, file@, line@) == Err::<Scan, SourceLocation>(e),
            }
        }),
{
    let ghost before = Scan {
        state: *st,
        current: cur@,
        found: comment_models(out@),
        row: (row - 1) as nat,
    };
    let w = trim_start_index(line);
    let lead = sub_chars(line, 0, w);
    let trimmed = sub_chars(line, w, line.len());
    proof {
        assert(line@ =~= lead@ + trimmed@);
        lemma_byte_len_append(lead@, trimmed@);
        assert(lead@ == line@.take(ws_end_from(line@, 0)));
        assert(trimmed@ == trim_start(line@));
    }
    let col = byte_len_of(&lead);
    let open_block = pattern2('/', '*');
    let open_line = pattern2('/', '/');
    let close_block = pattern2('*', '/');
    match *st {
        ParserState::Code => {
            if starts_with_exec(&trimmed, &open_block) || starts_with_exec(&trimmed, &open_line) {
                let is_block = starts_with_exec(&trimmed, &open_block);
                let text = sub_chars(&trimmed, 2, trimmed.len());
                proof {
                    assert(trimmed@ =~= trimmed@.take(2) + text@);
                    lemma_byte_len_append(trimmed@.take(2), text@);
                    lemma_byte_len_two(trimmed@[0], trimmed@[1]);
                    assert(trimmed@.take(2) =~= seq![trimmed@[0], trimmed@[1]]);
                }
                cur.comment_location.start.row = row;
                cur.comment_location.start.column = col;
                let res = absorb_text(cur, &text, row, col + 2);
                if res.is_err() {
                    return res;
                }
                *st = if is_block {
                    ParserState::MultiLineComment
                } else {
                    ParserState::SingleLineComment
                };
                Ok(())
            } else {
                Ok(())
            }
        },
        ParserState::SingleLineComment => {
            if starts_with_exec(&trimmed, &open_line) {
                let text = sub_chars(&trimmed, 2, trimmed.len());
                proof {
                    assert(trimmed@ =~= trimmed@.take(2) + text@);
                    lemma_byte_len_append(trimmed@.take(2), text@);
                    lemma_byte_len_two(trimmed@[0], trimmed@[1]);
                    assert(trimmed@.take(2) =~= seq![trimmed@[0], trimmed@[1]]);
                }
                absorb_text(cur, &text, row, col + 2)
            } else {
                cur.comment_location.end.row = row - 1;
                if cur.lines_of_code_referenced == 0 {
                    finish_comment(cur, out, file);
                    *st = ParserState::Code;
                } else {
                    let code = crate::text::string_of(&trimmed);
                    cur.push_code(code.as_str());
                    cur.lines_of_code_read = 1;
                    if cur.lines_of_code_read == cur.lines_of_code_referenced {
                        finish_comment(cur, out, file);
                        *st = ParserState::Code;
                    } else {
                        *st = ParserState::ReadingReferencedCode {
                            remaining: cur.lines_of_code_referenced as usize - 1,
                        };
                    }
                }
                Ok(())
            }
        },
        ParserState::MultiLineComment => {
            if starts_with_exec(&trimmed, &close_block) {
                cur.comment_location.end.row = row;
                cur.comment_location.end.column = col;
                if cur.lines_of_code_referenced > 0 {
                    *st = ParserState::ReadingReferencedCode {
                        remaining: cur.lines_of_code_referenced as usize,
                    };
                } else {
                    finish_comment(cur, out, file);
                    *st = ParserState::Code;
                }
                Ok(())
            } else {
                absorb_text(cur, &trimmed, row, col)
            }
        },
        ParserState::ReadingReferencedCode { remaining } => {
            let code = crate::text::string_of(&trimmed);
            cur.push_code(code.as_str());
            cur.lines_of_code_read = cur.lines_of_code_read + 1;
            if remaining == 1 {
                finish_comment(cur, out, file);
                *st = ParserState::Code;
            } else {
                *st = ParserState::ReadingReferencedCode { remaining: remaining - 1 };
            }
            Ok(())
        },
    }
}

/// Finds the comments of file `file`, whose lines are `lines`: each comment with
/// its text, its stamp, its location and the code it refers to. `Err` holds
/// where the comment begins on whose stamp the tool stops: a stamp whose line
/// count is not a `u16`, or that has more than four fields.
pub fn parse_file(file: &str, lines: &Vec<String>) -> (r: Result<Vec<CommentData>, SourceLocation>)
    ensures
        match r {
            Ok(v) => parse_file_model(file@, string_views(lines@)) == Ok::<
                Seq<CommentModel>,
                SourceLocation,
            >(comment_models(v@)),
            Err(e) => parse_file_model(file@, string_views(lines@)) == Err::<
                Seq<CommentModel>,
                SourceLocation,
            >(e),
        },
{
    let file_s = file.to_owned();
    let ghost ls = string_views(lines@);
    let mut state = ParserState::Code;
    let mut current = fresh_comment(&file_s);
    let mut result: Vec<CommentData> = Vec::new();
    let mut i: usize = 0;
    assert(comment_models(result@) =~= Seq::<CommentModel>::empty());
    while i < lines.len()
        invariant
            i <= lines.len(),
            ls == string_views(lines@),
            file_s@ == file@,
            scan_lines(file@, ls.take(i as int)) == Ok::<Scan, SourceLocation>(
                Scan {
                    state: state,
                    current: current@,
                    found: comment_models(result@),
                    row: i as nat,
                },
            ),
            scan_wf(
                Scan {
                    state: state,
                    current: current@,
                    found: comment_models(result@),
                    row: i as nat,
                },
                file@,
            ),
        decreases lines.len() - i,
    {
        let _ = str_byte_len(lines[i].as_str());
        let line = chars_of(lines[i].as_str());
        let ghost before = Scan {
            state: state,
            current: current@,
            found: comment_models(result@),
            row: i as nat,
        };
        proof {
            assert(ls.take(i as int + 1).drop_last() =~= ls.take(i as int));
            assert(ls.take(i as int + 1).last() == line@);
            lemma_scan_line_wf(before, file@, line@);
        }
        let step = scan_one_line(&mut state, &mut current, &mut result, &file_s, &line, i + 1);
        if let Err(e) = step {
            proof {
                lemma_scan_lines_stopped(file@, ls, i as int + 1);
            }
            return Err(e);
        }
        i = i + 1;
    }
    assert(ls.take(lines.len() as int) =~= ls);
    finish_comment(&mut current, &mut result, &file_s);
    Ok(result)
}

/// Once the parser stops, it stays stopped.
proof fn lemma_scan_lines_stopped(file: Seq<char>, lines: Seq<Seq<char>>, n: int)
    requires
        0 <= n <= lines.len(),
        scan_lines(file, lines.take(n)) is Err,
    ensures
        scan_lines(file, lines) == scan_lines(file, lines.take(n)),
    decreases lines.len() - n,
{
    if n < lines.len() {
        assert(lines.take(n + 1).drop_last() =~= lines.take(n));
        lemma_scan_lines_stopped(file, lines, n + 1);
    } else {
        assert(lines.take(n) =~= lines);
    }
}

} // verus!
