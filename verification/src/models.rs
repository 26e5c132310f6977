//! Comments found in source files and the stamps they carry.
//!
//! A stamp has the form ```` ```comments-2.0 N [DEPS] COMMENT_HASH CODE_HASH``` ````:
//! `N` is how many lines of code after the comment it refers to (0 means the
//! comment is to be ignored), `DEPS` an optional comma-separated list of
//! comments this one depends on, each written `ID-HASH`.
use vstd::prelude::*;
use crate::hashing::{hash_words, hash_words_in_file, normalized_words};
use crate::text::{
    byte_len, chars_of, matches_at, decimal, find, find_from_exec, lemma_byte_len_take, lemma_find_from,
    parse_unsigned, parse_unsigned_chars, split_chars, split_on, str_byte_len, string_of,
    string_views, sub_chars, trim, trim_chars, byte_len_of, views_of, contains_char,
};

verus! {

broadcast use vstd::seq_lib::group_seq_properties;

/// Why a comment's stamp could not be read completely.
#[derive(Debug, Clone, Copy, PartialEq, Eq, Structural)]
pub enum StampParseError {
    NoStampFound,
    StampWithoutClosingTag,
    StampWithoutLinesReferenced,
    StampWithoutHashes,
    StampWithoutCodeHash,
}

/// How the hashes written in a stamp compare with the current content.
#[derive(Debug, Clone, Copy, PartialEq, Eq, Structural)]
pub enum HashCheckResult {
    BothHashesInvalid,
    CodeHashNotUpToDate,
    CommentHashNotUpToDate,
    BothHashesUpToDate,
    HashesShouldBeGenerated,
}

/// A position in a file: a 1-based row and a byte column.
#[derive(Debug, Clone, Copy)]
pub struct SourceLocation {
    pub row: usize,
    pub column: usize,
}

impl SourceLocation {
    /// The location `0:0`.
    pub fn empty() -> (r: Self)
        ensures
            r.row == 0,
            r.column == 0,
    {
        Self { row: 0, column: 0 }
    }
}

/// Where a comment starts and ends.
#[derive(Debug, Clone, Copy)]
pub struct SourceRange {
    pub start: SourceLocation,
    pub end: SourceLocation,
}

/// A comment of a source file, with what was read from its stamp and the code
/// it refers to.
#[derive(Debug)]
pub struct CommentData {
    pub comment_location: SourceRange,
    /// Where the closing backticks of the stamp are: new hashes go there.
    pub stamp_end: Option<SourceLocation>,
    /// The comment's text, each pushed piece preceded by a newline.
    pub raw_contents: String,
    pub code_it_refers_to: String,
    pub lines_of_code_referenced: u16,
    pub should_be_ignored: bool,
    pub lines_of_code_read: u16,
    pub file: String,
    /// The number by which other comments name this one in their dependencies.
    pub id: u64,
    pub code_hash_parsed: String,
    pub comment_hash_parsed: String,
    pub dependency_list_parsed: Vec<String>,
    pub parse_error: Option<StampParseError>,
}

/// The value of a `CommentData`, with its texts as character sequences.
pub struct CommentModel {
    pub comment_location: SourceRange,
    pub stamp_end: Option<SourceLocation>,
    pub raw_contents: Seq<char>,
    pub code_it_refers_to: Seq<char>,
    pub lines_of_code_referenced: u16,
    pub should_be_ignored: bool,
    pub lines_of_code_read: u16,
    pub file: Seq<char>,
    pub id: u64,
    pub code_hash_parsed: Seq<char>,
    pub comment_hash_parsed: Seq<char>,
    pub dependency_list_parsed: Seq<Seq<char>>,
    pub parse_error: Option<StampParseError>,
}

impl View for CommentData {
    type V = CommentModel;

    open spec fn view(&self) -> CommentModel {
        CommentModel {
            comment_location: self.comment_location,
            stamp_end: self.stamp_end,
            raw_contents: self.raw_contents@,
            code_it_refers_to: self.code_it_refers_to@,
            lines_of_code_referenced: self.lines_of_code_referenced,
            should_be_ignored: self.should_be_ignored,
            lines_of_code_read: self.lines_of_code_read,
            file: self.file@,
            id: self.id,
            code_hash_parsed: self.code_hash_parsed@,
            comment_hash_parsed: self.comment_hash_parsed@,
            dependency_list_parsed: string_views(self.dependency_list_parsed@),
            parse_error: self.parse_error,
        }
    }
}

/// A comment of file `file` before anything was read into it: no stamp found yet.
pub open spec fn empty_comment(file: Seq<char>) -> CommentModel {
    CommentModel {
        comment_location: SourceRange {
            start: SourceLocation { row: 0, column: 0 },
            end: SourceLocation { row: 0, column: 0 },
        },
        stamp_end: None,
        raw_contents: Seq::empty(),
        code_it_refers_to: Seq::empty(),
        lines_of_code_referenced: 0,
        should_be_ignored: false,
        lines_of_code_read: 0,
        file: file,
        id: 0,
        code_hash_parsed: Seq::empty(),
        comment_hash_parsed: Seq::empty(),
        dependency_list_parsed: Seq::empty(),
        parse_error: Some(StampParseError::NoStampFound),
    }
}

/// The pattern that opens a stamp.
pub open spec fn stamp_open() -> Seq<char> {
    "```comments-2.0"@
}

/// The pattern that closes a stamp.
pub open spec fn stamp_close() -> Seq<char> {
    "```"@
}

/// The space-separated fields of a stamp.
pub open spec fn stamp_fields(stamp: Seq<char>) -> Seq<Seq<char>> {
    split_on(stamp, seq![' '])
}

/// A field that lists dependencies rather than a hash: hashes are decimal
/// numbers, dependencies are written `ID-HASH` and separated by commas.
pub open spec fn is_dependency_field(f: Seq<char>) -> bool {
    f.contains('-') || f.contains(',')
}

/// The entries of a comma-separated list, trimmed, without empty ones.
pub open spec fn num_list(s: Seq<char>) -> Seq<Seq<char>> {
    nonempty_trimmed(split_on(s, seq![',']))
}

/// The trimmed pieces that are not empty, in order.
pub open spec fn nonempty_trimmed(pieces: Seq<Seq<char>>) -> Seq<Seq<char>>
    decreases pieces.len(),
{
    if pieces.len() == 0 {
        Seq::empty()
    } else {
        let r = nonempty_trimmed(pieces.drop_last());
        if trim(pieces.last()).len() > 0 {
            r.push(trim(pieces.last()))
        } else {
            r
        }
    }
}

/// A stamp on which the tool stops: its line count is not a `u16`, or it has
/// more than four fields.
pub open spec fn stamp_is_malformed(stamp: Seq<char>) -> bool {
    let f = stamp_fields(stamp);
    parse_unsigned(f[0], 65535) is None || f.len() > 4
}

/// What reading the (trimmed) stamp text `stamp` makes of comment `c`.
pub open spec fn consume_stamp_model(c: CommentModel, stamp: Seq<char>) -> CommentModel {
    let f = stamp_fields(stamp);
    let n = f.len();
    let lines = parse_unsigned(f[0], 65535)->0 as u16;
    let deps_only = n == 2 && is_dependency_field(f[1]);
    let err = if n == 1 || deps_only {
        Some(StampParseError::StampWithoutHashes)
    } else if n == 2 {
        Some(StampParseError::StampWithoutCodeHash)
    } else {
        None
    };
    let base = CommentModel {
        parse_error: err,
        lines_of_code_referenced: lines,
        should_be_ignored: c.should_be_ignored || lines == 0,
        ..c
    };
    if deps_only {
        CommentModel { dependency_list_parsed: num_list(f[1]), ..base }
    } else if n == 3 {
        CommentModel { comment_hash_parsed: trim(f[1]), code_hash_parsed: trim(f[2]), ..base }
    } else if n == 4 {
        CommentModel {
            dependency_list_parsed: num_list(f[1]),
            comment_hash_parsed: trim(f[2]),
            code_hash_parsed: trim(f[3]),
            ..base
        }
    } else {
        base
    }
}

/// The text between the stamp's opening pattern and its closing backticks.
pub open spec fn stamp_text(s: Seq<char>, start: int, end: int) -> Seq<char> {
    trim(s.skip(start + stamp_open().len()).take(end))
}

/// Whether pushing the line `s` into a comment makes the tool stop.
pub open spec fn push_comment_stops(s: Seq<char>) -> bool {
    match find(s, stamp_open()) {
        None => false,
        Some(st) => match find(s.skip(st + stamp_open().len()), stamp_close()) {
            None => false,
            Some(e) => stamp_is_malformed(stamp_text(s, st, e)),
        },
    }
}

/// What pushing the comment line `s` makes of comment `c`, and the byte offset
/// in `s` of the stamp's closing backticks when there is a complete stamp.
pub open spec fn push_comment_model(c: CommentModel, s: Seq<char>) -> (CommentModel, Option<nat>) {
    match find(s, stamp_open()) {
        None => (CommentModel { raw_contents: c.raw_contents.push('\n') + s, ..c }, None),
        Some(st) => {
            let c1 = CommentModel { raw_contents: c.raw_contents.push('\n') + s.take(st), ..c };
            match find(s.skip(st + stamp_open().len()), stamp_close()) {
                None => (
                    CommentModel { parse_error: Some(StampParseError::StampWithoutClosingTag), ..c1 },
                    None,
                ),
                Some(e) => (
                    consume_stamp_model(c1, stamp_text(s, st, e)),
                    Some(byte_len(s.take(st + stamp_open().len() + e))),
                ),
            }
        },
    }
}

/// What pushing a line of code makes of comment `c`.
pub open spec fn push_code_model(c: CommentModel, s: Seq<char>) -> CommentModel {
    CommentModel { code_it_refers_to: c.code_it_refers_to + s.push('\n'), ..c }
}

/// An optional byte offset as a natural number.
pub open spec fn offset_nat(r: Option<usize>) -> Option<nat> {
    match r {
        Some(v) => Some(v as nat),
        None => None,
    }
}

/// Appends the characters `v` to the string `s`.
pub fn append_chars(s: &mut String, v: &Vec<char>)
    ensures
        final(s)@ == old(s)@ + v@,
{
    let mut i: usize = 0;
    while i < v.len()
        invariant
            i <= v.len(),
            s@ == old(s)@ + v@.take(i as int),
        decreases v.len() - i,
    {
        crate::text::push_char(s, v[i]);
        assert(v@.take(i as int + 1) =~= v@.take(i as int).push(v@[i as int]));
        i = i + 1;
    }
    assert(v@.take(v.len() as int) =~= v@);
}

/// The entries of the comma-separated list `s`, trimmed, empty ones left out.
pub fn parse_num_list_from_str(s: &str) -> (r: Vec<String>)
    ensures
        string_views(r@) == num_list(s@),
{
    let chars = chars_of(s);
    parse_num_list_chars(&chars)
}

#[verifier::spinoff_prover]
fn parse_num_list_chars(s: &Vec<char>) -> (r: Vec<String>)
    ensures
        string_views(r@) == num_list(s@),
{
    let mut comma: Vec<char> = Vec::new();
    comma.push(',');
    assert(comma@ =~= seq![',']);
    let pieces = split_chars(s, &comma);
    let ghost ps = views_of(pieces@);
    let mut r: Vec<String> = Vec::new();
    let mut i: usize = 0;
    while i < pieces.len()
        invariant
            i <= pieces.len(),
            ps == views_of(pieces@),
            ps == split_on(s@, seq![',']),
            string_views(r@) == nonempty_trimmed(ps.take(i as int)),
        decreases pieces.len() - i,
    {
        let t = trim_chars(&pieces[i]);
        assert(ps.take(i as int + 1).drop_last() =~= ps.take(i as int));
        assert(ps[i as int] == pieces@[i as int]@);
        if t.len() > 0 {
            let st = string_of(&t);
            let ghost before = r@;
            r.push(st);
            assert(string_views(r@) =~= string_views(before).push(t@));
        }
        i = i + 1;
    }
    assert(ps.take(pieces.len() as int) =~= ps);
    r
}

impl CommentData {
    /// A comment with no text, no code, no file, and no stamp found yet.
    pub fn empty() -> (r: Self)
        ensures
            r@ == empty_comment(Seq::empty()),
    {
        let r = Self {
            should_be_ignored: false,
            comment_location: SourceRange {
                start: SourceLocation::empty(),
                end: SourceLocation::empty(),
            },
            raw_contents: String::new(),
            file: String::new(),
            id: 0,
            code_it_refers_to: String::new(),
            lines_of_code_referenced: 0,
            lines_of_code_read: 0,
            code_hash_parsed: String::new(),
            comment_hash_parsed: String::new(),
            parse_error: Some(StampParseError::NoStampFound),
            stamp_end: None,
            dependency_list_parsed: Vec::new(),
        };
        assert(string_views(r.dependency_list_parsed@) =~= Seq::<Seq<char>>::empty());
        r
    }

    /// Reads the fields of a stamp: the line count, and the dependencies and
    /// hashes where they are present.
    fn consume_stamp(&mut self, stamp: &Vec<char>)
        requires
            !stamp_is_malformed(stamp@),
        ensures
            final(self)@ == consume_stamp_model(old(self)@, stamp@),
    {
        let mut space: Vec<char> = Vec::new();
        space.push(' ');
        assert(space@ =~= seq![' ']);
        let data = split_chars(stamp, &space);
        let ghost f = views_of(data@);
        assert(f[0] == data@[0]@);
        let n = data.len();
        let lines = parse_unsigned_chars(&data[0], 65535);
        let parsed_num: u16 = match lines {
            Some(v) => v as u16,
            None => {
                return;
            },
        };
        let deps_only = n == 2 && (contains_char(&data[1], '-') || contains_char(&data[1], ','));
        proof {
            if n >= 2 {
                assert(f[1] == data@[1]@);
            }
        }
        self.parse_error = if n == 1 || deps_only {
            Some(StampParseError::StampWithoutHashes)
        } else if n == 2 {
            Some(StampParseError::StampWithoutCodeHash)
        } else {
            None
        };
        self.lines_of_code_referenced = parsed_num;
        if parsed_num == 0 {
            self.should_be_ignored = true;
        }
        if deps_only {
            self.dependency_list_parsed = parse_num_list_chars(&data[1]);
        } else if n == 3 {
            assert(f[2] == data@[2]@);
            self.comment_hash_parsed = string_of(&trim_chars(&data[1]));
            self.code_hash_parsed = string_of(&trim_chars(&data[2]));
        } else if n == 4 {
            assert(f[2] == data@[2]@);
            assert(f[3] == data@[3]@);
            self.comment_hash_parsed = string_of(&trim_chars(&data[2]));
            self.code_hash_parsed = string_of(&trim_chars(&data[3]));
            self.dependency_list_parsed = parse_num_list_chars(&data[1]);
        }
    }

    /// Pushes the comment line `s`; `Err` when the tool stops on its stamp.
    pub(crate) fn absorb_comment_line(&mut self, s: &Vec<char>) -> (r: Result<Option<usize>, ()>)
        requires
            byte_len(s@) <= usize::MAX,
        ensures
            r is Err <==> push_comment_stops(s@),
            r matches Ok(Some(p)) ==> p <= byte_len(s@),
            r matches Ok(pos) ==> final(self)@ == push_comment_model(old(self)@, s@).0
                && offset_nat(pos) == push_comment_model(old(self)@, s@).1,
    {
        let open_pattern = chars_of("```comments-2.0");
        let close_pattern = chars_of("```");
        let stamp_start = find_from_exec(s, &open_pattern, 0);
        proof {
            lemma_find_from(s@, stamp_open(), 0);
        }
        match stamp_start {
            None => {
                crate::text::push_char(&mut self.raw_contents, '\n');
                append_chars(&mut self.raw_contents, s);
                Ok(None)
            },
            Some(start) => {
                assert(open_pattern@ == stamp_open());
                assert(matches_at(s@, stamp_open(), start as int));
                let before = sub_chars(s, 0, start);
                assert(before@ =~= s@.take(start as int));
                let from = start + open_pattern.len();
                let remaining = sub_chars(s, from, s.len());
                assert(remaining@ =~= s@.skip(from as int));
                let stamp_end = find_from_exec(&remaining, &close_pattern, 0);
                proof {
                    lemma_find_from(remaining@, stamp_close(), 0);
                }
                match stamp_end {
                    None => {
                        crate::text::push_char(&mut self.raw_contents, '\n');
                        append_chars(&mut self.raw_contents, &before);
                        self.parse_error = Some(StampParseError::StampWithoutClosingTag);
                        Ok(None)
                    },
                    Some(end) => {
                        let inner = sub_chars(&remaining, 0, end);
                        assert(inner@ =~= remaining@.take(end as int));
                        let stamp_slice = trim_chars(&inner);
                        let malformed = stamp_is_malformed_exec(&stamp_slice);
                        if malformed {
                            return Err(());
                        }
                        crate::text::push_char(&mut self.raw_contents, '\n');
                        append_chars(&mut self.raw_contents, &before);
                        self.consume_stamp(&stamp_slice);
                        let upto = sub_chars(s, 0, from + end);
                        assert(upto@ =~= s@.take(from + end));
                        proof {
                            lemma_byte_len_take(s@, (from + end) as int, s@.len() as int);
                        }
                        let pos = byte_len_of(&upto);
                        Ok(Some(pos))
                    },
                }
            },
        }
    }

    /// Adds a line of comment text. When it holds a complete stamp, the stamp is
    /// read and the byte offset in `string` of the stamp's closing backticks is
    /// returned; a stamp without closing backticks is recorded as an error.
    pub fn push_comment(&mut self, string: &str) -> (r: Option<usize>)
        requires
            !push_comment_stops(string@),
        ensures
            final(self)@ == push_comment_model(old(self)@, string@).0,
            offset_nat(r) == push_comment_model(old(self)@, string@).1,
    {
        let _ = str_byte_len(string);
        let s = chars_of(string);
        match self.absorb_comment_line(&s) {
            Ok(r) => r,
            Err(()) => None,
        }
    }

    /// Adds a line of the code the comment refers to.
    pub fn push_code(&mut self, string: &str)
        ensures
            final(self)@ == push_code_model(old(self)@, string@),
    {
        let s = chars_of(string);
        append_chars(&mut self.code_it_refers_to, &s);
        crate::text::push_char(&mut self.code_it_refers_to, '\n');
    }

    /// What the comment hash is computed from: the normalized words of the
    /// comment's text, and its file.
    pub fn comment_hash_input(&self) -> (r: (Vec<String>, String))
        ensures
            string_views(r.0@) == normalized_words(self@.raw_contents),
            r.1@ == self@.file,
    {
        (hash_words(&self.raw_contents), self.file.clone())
    }

    /// What the code hash is computed from: the normalized words of the code
    /// the comment refers to, and its file.
    pub fn code_hash_input(&self) -> (r: (Vec<String>, String))
        ensures
            string_views(r.0@) == normalized_words(self@.code_it_refers_to),
            r.1@ == self@.file,
    {
        (hash_words(&self.code_it_refers_to), self.file.clone())
    }

    /// The hash of the comment's text and file (`comment_hash_input`), in decimal.
    pub fn hash_comment(&self) -> (r: String)
        ensures
            exists|n: u64| r@ == decimal(n as nat),
            exists|words: Vec<String>, file: String|
                #![trigger call_ensures(hash_words_in_file, (&words, &file), r)]
                string_views(words@) == normalized_words(self@.raw_contents) && file@ == self@.file
                    && call_ensures(hash_words_in_file, (&words, &file), r),
    {
        let (words, file) = self.comment_hash_input();
        let hash = hash_words_in_file;
        let r = hash(&words, &file);
        assert(call_ensures(hash_words_in_file, (&words, &file), r));
        r
    }

    /// The hash of the code the comment refers to and of its file
    /// (`code_hash_input`), in decimal.
    pub fn hash_code(&self) -> (r: String)
        ensures
            exists|n: u64| r@ == decimal(n as nat),
            exists|words: Vec<String>, file: String|
                #![trigger call_ensures(hash_words_in_file, (&words, &file), r)]
                string_views(words@) == normalized_words(self@.code_it_refers_to) && file@
                    == self@.file && call_ensures(hash_words_in_file, (&words, &file), r),
    {
        let (words, file) = self.code_hash_input();
        let hash = hash_words_in_file;
        let r = hash(&words, &file);
        assert(call_ensures(hash_words_in_file, (&words, &file), r));
        r
    }
}

/// Whether the tool stops on the stamp text `stamp`.
fn stamp_is_malformed_exec(stamp: &Vec<char>) -> (r: bool)
    ensures
        r == stamp_is_malformed(stamp@),
{
    let mut space: Vec<char> = Vec::new();
    space.push(' ');
    assert(space@ =~= seq![' ']);
    let data = split_chars(stamp, &space);
    assert(views_of(data@)[0] == data@[0]@);
    parse_unsigned_chars(&data[0], 65535).is_none() || data.len() > 4
}

/// The line `s` holds a stamp's closing backticks starting `b` bytes in.
pub open spec fn closes_at(s: Seq<char>, b: nat) -> bool {
    exists|q: int|
        0 <= q <= s.len() && byte_len(s.take(q)) == b && #[trigger] matches_at(s, stamp_close(), q)
}

/// The offset that pushing a line with a complete stamp returns is where the
/// stamp's closing backticks start in that line.
pub proof fn lemma_push_comment_offset(c: CommentModel, s: Seq<char>)
    ensures
        push_comment_model(c, s).1 matches Some(p) ==> closes_at(s, p),
{
    if let Some(p) = push_comment_model(c, s).1 {
        let open = stamp_open();
        let close = stamp_close();
        assert(open.len() == 15 && close.len() == 3) by {
            reveal_strlit("```comments-2.0");
            reveal_strlit("```");
        }
        let st = find(s, open)->0;
        lemma_find_from(s, open, 0);
        let rem = s.skip(st + 15);
        let e = find(rem, close)->0;
        lemma_find_from(rem, close, 0);
        let q = st + 15 + e;
        assert(s.subrange(q, q + 3) =~= rem.subrange(e, e + 3));
        assert(matches_at(s, close, q));
    }
}

/// A complete stamp that refers to 0 lines of code marks its comment as
/// ignored; one that refers to more lines leaves the mark as it was.
pub proof fn lemma_zero_lines_means_ignored(c: CommentModel, s: Seq<char>)
    requires
        push_comment_model(c, s).1 is Some,
    ensures
        push_comment_model(c, s).0.should_be_ignored == (c.should_be_ignored || push_comment_model(
            c,
            s,
        ).0.lines_of_code_referenced == 0),
{
}

/// When pushing a comment line stops the tool: exactly when the line holds a
/// complete stamp (the opening pattern and, after it, closing backticks) whose
/// trimmed text does not start with a line count that fits a `u16` or has
/// more than four space-separated fields; every other line is read.
pub proof fn lemma_push_comment_stops_exactly(s: Seq<char>)
    ensures
        push_comment_stops(s) == (find(s, stamp_open()) matches Some(st) && find(
            s.skip(st + stamp_open().len()),
            stamp_close(),
        ) matches Some(e) && (parse_unsigned(stamp_fields(stamp_text(s, st, e))[0], 65535) is None
            || stamp_fields(stamp_text(s, st, e)).len() > 4)),
{
}

} // verus!
