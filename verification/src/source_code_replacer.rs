//! Writing generated hashes back into source text.
use vstd::prelude::*;
use crate::models::{CommentData, CommentModel, StampParseError};
use crate::text::{
    byte_len, byte_len_of, chars_of, contains_char, decimal, decimal_chars, extend_chars, join,
    lemma_byte_len_append, push_str_chars, str_byte_len, string_of, string_views, sub_chars,
    utf8_width, char_width,
};
use crate::violations::is_hash_text;

verus! {

broadcast use vstd::seq_lib::group_seq_properties;

// ------------------------------------------------------------------------
// Where hashes are missing
// ------------------------------------------------------------------------
/// A comment that asks for hashes: not ignored, with a stamp that has none, and
/// a known place to put them.
pub open spec fn wants_hashes(c: CommentModel) -> bool {
    !c.should_be_ignored && c.parse_error == Some(StampParseError::StampWithoutHashes)
        && c.stamp_end is Some
}

/// The values of a sequence of comment references.
pub open spec fn ref_models(v: Seq<&CommentData>) -> Seq<CommentModel> {
    v.map_values(|c: &CommentData| c@)
}

/// The text that hash generation inserts into a stamp: a space, the comment
/// hash `a`, a space, the code hash `b`.
pub open spec fn hash_pair(a: Seq<char>, b: Seq<char>) -> Seq<char> {
    " "@ + a + " "@ + b
}

/// The text ` COMMENT_HASH CODE_HASH` inserted into a stamp.
pub fn hash_pair_text(comment_hash: &String, code_hash: &String) -> (r: String)
    ensures
        r@ == hash_pair(comment_hash@, code_hash@),
{
    let mut text: Vec<char> = Vec::new();
    push_str_chars(&mut text, " ");
    push_str_chars(&mut text, comment_hash.as_str());
    push_str_chars(&mut text, " ");
    push_str_chars(&mut text, code_hash.as_str());
    string_of(&text)
}

/// The hash insertions for the first `n` comments of `cs`, whose comment
/// hashes are `mh` and code hashes `ch`: for each comment that asks for
/// hashes, in order, the 0-based row and the byte column of its stamp's
/// closing backticks, and the text ` COMMENT_HASH CODE_HASH`.
pub open spec fn hash_insertions_upto(
    cs: Seq<CommentModel>,
    mh: Seq<Seq<char>>,
    ch: Seq<Seq<char>>,
    n: int,
) -> Seq<(usize, usize, Seq<char>)>
    decreases n,
{
    if n <= 0 {
        Seq::empty()
    } else {
        let r = hash_insertions_upto(cs, mh, ch, n - 1);
        let c = cs[n - 1];
        if wants_hashes(c) {
            r.push(
                ((c.stamp_end->0.row - 1) as usize, c.stamp_end->0.column, hash_pair(mh[n - 1], ch[n - 1])),
            )
        } else {
            r
        }
    }
}

/// Insertions with their texts as characters.
pub open spec fn insertion_views(v: Seq<(usize, usize, String)>) -> Seq<(usize, usize, Seq<char>)> {
    v.map_values(|x: (usize, usize, String)| (x.0, x.1, x.2@))
}

/// The hash insertions for the comments of one file, given the hashes of
/// their texts (`comment_hashes`) and of their code (`code_hashes`).
pub fn collect_hash_insertions_with(
    comments: &Vec<&CommentData>,
    comment_hashes: &Vec<String>,
    code_hashes: &Vec<String>,
) -> (r: Vec<(usize, usize, String)>)
    requires
        comment_hashes.len() == comments.len(),
        code_hashes.len() == comments.len(),
        forall|k: int|
            0 <= k < comments@.len() && wants_hashes((#[trigger] comments@[k])@) ==> comments@[k]@.stamp_end->0.row >= 1,
    ensures
        insertion_views(r@) == hash_insertions_upto(
            ref_models(comments@),
            string_views(comment_hashes@),
            string_views(code_hashes@),
            comments@.len() as int,
        ),
{
    let ghost cs = ref_models(comments@);
    let ghost mh = string_views(comment_hashes@);
    let ghost ch = string_views(code_hashes@);
    let mut r: Vec<(usize, usize, String)> = Vec::new();
    let mut i: usize = 0;
    assert(insertion_views(r@) =~= Seq::<(usize, usize, Seq<char>)>::empty());
    while i < comments.len()
        invariant
            i <= comments.len(),
            comment_hashes.len() == comments.len(),
            code_hashes.len() == comments.len(),
            cs == ref_models(comments@),
            mh == string_views(comment_hashes@),
            ch == string_views(code_hashes@),
            forall|k: int|
                0 <= k < comments@.len() && wants_hashes((#[trigger] comments@[k])@) ==> comments@[k]@.stamp_end->0.row >= 1,
            insertion_views(r@) == hash_insertions_upto(cs, mh, ch, i as int),
        decreases comments.len() - i,
    {
        let comment = comments[i];
        assert(cs[i as int] == comment@);
        if !comment.should_be_ignored {
            if let Some(StampParseError::StampWithoutHashes) = comment.parse_error {
                if let Some(stamp_end) = comment.stamp_end {
                    let text = hash_pair_text(&comment_hashes[i], &code_hashes[i]);
                    assert(mh[i as int] == comment_hashes@[i as int]@);
                    assert(ch[i as int] == code_hashes@[i as int]@);
                    let ghost before = r@;
                    let row = stamp_end.row - 1;
                    r.push((row, stamp_end.column, text));
                    assert(insertion_views(r@) =~= insertion_views(before).push(
                        (row, stamp_end.column, text@),
                    ));
                }
            }
        }
        i = i + 1;
    }
    r
}

/// The hash insertions for the comments of one file: for each comment that
/// asks for hashes, in order, its insertion point and the text
/// ` COMMENT_HASH CODE_HASH` with the current hashes of its text and code.
pub fn collect_hash_insertions(comments: &Vec<&CommentData>) -> (r: Vec<(usize, usize, String)>)
    requires
        forall|k: int|
            0 <= k < comments@.len() && wants_hashes((#[trigger] comments@[k])@) ==> comments@[k]@.stamp_end->0.row >= 1,
    ensures
        exists|mh: Seq<String>, ch: Seq<String>|
            #![trigger hash_insertions_upto(ref_models(comments@), string_views(mh), string_views(ch), comments@.len() as int)]
            mh.len() == comments@.len() && ch.len() == comments@.len() && (forall|k: int|
                0 <= k < comments@.len() && wants_hashes((#[trigger] comments@[k])@)
                    ==> call_ensures(CommentData::hash_comment, (comments@[k],), mh[k])
                    && call_ensures(CommentData::hash_code, (comments@[k],), ch[k])
                    && is_hash_text(mh[k]@) && is_hash_text(ch[k]@)) && insertion_views(r@)
                == hash_insertions_upto(
                ref_models(comments@),
                string_views(mh),
                string_views(ch),
                comments@.len() as int,
            ),
{
    let mut comment_hashes: Vec<String> = Vec::new();
    let mut code_hashes: Vec<String> = Vec::new();
    let mut i: usize = 0;
    while i < comments.len()
        invariant
            i <= comments.len(),
            comment_hashes.len() == i,
            code_hashes.len() == i,
            forall|k: int|
                0 <= k < i && wants_hashes((#[trigger] comments@[k])@) ==> call_ensures(
                    CommentData::hash_comment,
                    (comments@[k],),
                    comment_hashes@[k],
                ) && call_ensures(CommentData::hash_code, (comments@[k],), code_hashes@[k])
                    && is_hash_text(comment_hashes@[k]@) && is_hash_text(code_hashes@[k]@),
        decreases comments.len() - i,
    {
        let comment = comments[i];
        let wanted = !comment.should_be_ignored && matches!(
            comment.parse_error,
            Some(StampParseError::StampWithoutHashes)
        ) && comment.stamp_end.is_some();
        if wanted {
            let text = CommentData::hash_comment;
            let code = CommentData::hash_code;
            comment_hashes.push(text(comment));
            code_hashes.push(code(comment));
        } else {
            comment_hashes.push(String::new());
            code_hashes.push(String::new());
        }
        i = i + 1;
    }
    let r = collect_hash_insertions_with(comments, &comment_hashes, &code_hashes);
    r
}

// ------------------------------------------------------------------------
// Inserting text into lines
// ------------------------------------------------------------------------
/// A change: insert a text at a 0-based row and a byte column.
pub type Change = (usize, usize, Seq<char>);

/// The changes with their texts as characters.
pub open spec fn changes_view(v: Seq<(usize, usize, &str)>) -> Seq<Change> {
    v.map_values(|c: (usize, usize, &str)| (c.0, c.1, c.2@))
}

/// The number of leading characters of `s` that fit in `b` bytes.
pub open spec fn chars_within(s: Seq<char>, b: nat) -> nat
    decreases s.len(),
{
    if s.len() == 0 || utf8_width(s[0]) > b {
        0
    } else {
        1 + chars_within(s.drop_first(), (b - utf8_width(s[0])) as nat)
    }
}

/// `b` bytes into `s` is the start of a character, or the end of `s`.
pub open spec fn is_char_boundary(s: Seq<char>, b: nat) -> bool {
    exists|k: int| 0 <= k <= s.len() && byte_len(#[trigger] s.take(k)) == b
}

/// `line` with `content` inserted `col` bytes in, or at its end when `col` is
/// beyond it.
pub open spec fn insert_at_byte(line: Seq<char>, col: nat, content: Seq<char>) -> Seq<char> {
    let b = if col < byte_len(line) {
        col
    } else {
        byte_len(line)
    };
    let k = chars_within(line, b) as int;
    line.take(k) + content + line.skip(k)
}

/// The first change at or after position `k` that is on row `row`.
pub open spec fn first_change_at_row(cs: Seq<Change>, row: int, k: int) -> Option<int>
    decreases cs.len() - k,
{
    if k < 0 || k >= cs.len() {
        None
    } else if cs[k].0 == row {
        Some(k)
    } else {
        first_change_at_row(cs, row, k + 1)
    }
}

/// Line `row` after the change on that row, if any.
pub open spec fn edited_line(line: Seq<char>, cs: Seq<Change>, row: int) -> Seq<char> {
    match first_change_at_row(cs, row, 0) {
        None => line,
        Some(k) => insert_at_byte(line, cs[k].1 as nat, cs[k].2),
    }
}

/// The first change at or after position `k` whose text holds a newline.
pub open spec fn first_with_newline(cs: Seq<Change>, k: int) -> Option<int>
    decreases cs.len() - k,
{
    if k < 0 || k >= cs.len() {
        None
    } else if cs[k].2.contains('\n') {
        Some(k)
    } else {
        first_with_newline(cs, k + 1)
    }
}

/// Two different changes are on row `row`.
pub open spec fn row_repeats(cs: Seq<Change>, row: int) -> bool {
    exists|a: int, b: int| 0 <= a < b < cs.len() && #[trigger] cs[a].0 == row && #[trigger] cs[b].0 == row
}

/// The error for a change whose text holds a newline.
pub open spec fn newline_message(row: usize, col: usize) -> Seq<char> {
    "Content at position ("@ + decimal(row as nat) + ", "@ + decimal(col as nat)
        + ") contains newline character, which is not allowed"@
}

/// The error for two changes on one row.
pub open spec fn conflict_message(row: int) -> Seq<char> {
    "Conflict: multiple changes on the same row "@ + decimal(row as nat)
}

/// The lines with the changes applied, joined by newlines; or the error for the
/// first change (in the given order) whose text holds a newline; or else the
/// error for the smallest row with more than one change.
pub open spec fn insertions_spec(lines: Seq<Seq<char>>, cs: Seq<Change>) -> Result<
    Seq<char>,
    Seq<char>,
> {
    match first_with_newline(cs, 0) {
        Some(k) => Err(newline_message(cs[k].0, cs[k].1)),
        None => if exists|row: int| row_repeats(cs, row) {
            Err(
                conflict_message(
                    choose|row: int|
                        row_repeats(cs, row) && forall|r2: int| #[trigger]
                            row_repeats(cs, r2) ==> row <= r2,
                ),
            )
        } else {
            Ok(join(Seq::new(lines.len(), |i: int| edited_line(lines[i], cs, i)), "\n"@))
        },
    }
}

/// Every change that will be applied falls on a character boundary of its line.
pub open spec fn changes_on_boundaries(lines: Seq<Seq<char>>, cs: Seq<Change>) -> bool {
    forall|k: int|
        0 <= k < cs.len() && (cs[k].0 as int) < lines.len() ==> #[trigger] is_char_boundary(
            lines[cs[k].0 as int],
            cs[k].1 as nat,
        ) || cs[k].1 >= byte_len(lines[cs[k].0 as int])
}

proof fn lemma_chars_within(s: Seq<char>, b: nat)
    requires
        b <= byte_len(s),
        is_char_boundary(s, b),
    ensures
        chars_within(s, b) <= s.len(),
        byte_len(s.take(chars_within(s, b) as int)) == b,
    decreases s.len(),
{
    let k = choose|k: int| 0 <= k <= s.len() && byte_len(#[trigger] s.take(k)) == b;
    if s.len() == 0 {
        assert(s.take(0) =~= s);
    } else if b == 0 {
        assert(s.take(0) =~= Seq::<char>::empty());
        assert(byte_len(s.drop_first()) >= 0);
    } else {
        assert(k >= 1) by {
            if k == 0 {
                assert(s.take(0) =~= Seq::<char>::empty());
            }
        }
        let t = s.take(k);
        assert(t.drop_first() =~= s.drop_first().take(k - 1));
        assert(byte_len(t) == utf8_width(s[0]) + byte_len(t.drop_first()));
        assert(s.take(1) =~= seq![s[0]]);
        assert(utf8_width(s[0]) <= b);
        let rest = s.drop_first();
        let b2 = (b - utf8_width(s[0])) as nat;
        assert(is_char_boundary(rest, b2)) by {
            assert(byte_len(rest.take(k - 1)) == b2);
        }
        assert(b2 <= byte_len(rest));
        lemma_chars_within(rest, b2);
        let c = chars_within(s, b) as int;
        assert(s.take(c).drop_first() =~= rest.take(c - 1));
        assert(byte_len(s.take(c)) == utf8_width(s[0]) + byte_len(s.take(c).drop_first()));
    }
}

/// The character position `b` bytes into `s`.
fn char_index_of_byte(s: &Vec<char>, b: usize) -> (r: usize)
    requires
        b <= byte_len(s@),
        is_char_boundary(s@, b as nat),
    ensures
        r == chars_within(s@, b as nat),
        r <= s.len(),
{
    proof {
        lemma_chars_within(s@, b as nat);
    }
    let mut i: usize = 0;
    let mut acc: usize = 0;
    while i < s.len() && char_width(s[i]) <= b - acc
        invariant
            i <= s.len(),
            acc <= b,
            chars_within(s@, b as nat) == i + chars_within(s@.skip(i as int), (b - acc) as nat),
        decreases s.len() - i,
    {
        let w = char_width(s[i]);
        proof {
            let t = s@.skip(i as int);
            assert(t[0] == s@[i as int]);
            assert(t.drop_first() =~= s@.skip(i as int + 1));
        }
        acc = acc + w;
        i = i + 1;
    }
    proof {
        let t = s@.skip(i as int);
        if i < s.len() {
            assert(t[0] == s@[i as int]);
        }
    }
    i
}

/// `line` with `content` inserted `col` bytes in (at its end when `col` is beyond it).
fn insert_into_line(line: &Vec<char>, col: usize, content: &Vec<char>) -> (r: Vec<char>)
    requires
        byte_len(line@) <= usize::MAX,
        is_char_boundary(line@, col as nat) || col >= byte_len(line@),
    ensures
        r@ == insert_at_byte(line@, col as nat, content@),
{
    let len = byte_len_of(line);
    let b = if col < len {
        col
    } else {
        len
    };
    proof {
        if col >= len {
            assert(line@.take(line@.len() as int) =~= line@);
            assert(is_char_boundary(line@, len as nat));
        }
    }
    let k = char_index_of_byte(line, b);
    let mut r = sub_chars(line, 0, k);
    extend_chars(&mut r, content);
    let tail = sub_chars(line, k, line.len());
    extend_chars(&mut r, &tail);
    assert(r@ =~= line@.take(k as int) + content@ + line@.skip(k as int));
    r
}

/// The first change at or after `from` on row `row`.
fn find_change_at_row(changes: &Vec<(usize, usize, &str)>, row: usize) -> (r: Option<usize>)
    ensures
        match r {
            Some(k) => first_change_at_row(changes_view(changes@), row as int, 0) == Some(k as int)
                && k < changes.len(),
            None => first_change_at_row(changes_view(changes@), row as int, 0) is None,
        },
{
    let ghost cs = changes_view(changes@);
    let mut k: usize = 0;
    while k < changes.len()
        invariant
            k <= changes.len(),
            cs == changes_view(changes@),
            first_change_at_row(cs, row as int, 0) == first_change_at_row(cs, row as int, k as int),
        decreases changes.len() - k,
    {
        assert(cs[k as int].0 == changes@[k as int].0);
        if changes[k].0 == row {
            return Some(k);
        }
        k = k + 1;
    }
    None
}

/// The smallest row that holds more than one change, if any.
fn smallest_repeated_row(changes: &Vec<(usize, usize, &str)>) -> (r: Option<usize>)
    ensures
        match r {
            Some(row) => row_repeats(changes_view(changes@), row as int) && forall|r2: int|
                #[trigger] row_repeats(changes_view(changes@), r2) ==> row <= r2,
            None => forall|r2: int| !#[trigger] row_repeats(changes_view(changes@), r2),
        },
{
    let ghost cs = changes_view(changes@);
    let mut best: Option<usize> = None;
    let mut a: usize = 0;
    while a < changes.len()
        invariant
            a <= changes.len(),
            cs == changes_view(changes@),
            best matches Some(row) ==> row_repeats(cs, row as int),
            forall|x: int, y: int|
                0 <= x < a && x < y < cs.len() && cs[x].0 == cs[y].0 ==> (best matches Some(row)
                    && row <= cs[x].0),
        decreases changes.len() - a,
    {
        let mut b: usize = a + 1;
        while b < changes.len()
            invariant
                a < changes.len(),
                a + 1 <= b <= changes.len(),
                cs == changes_view(changes@),
                best matches Some(row) ==> row_repeats(cs, row as int),
                forall|x: int, y: int|
                    0 <= x < a && x < y < cs.len() && cs[x].0 == cs[y].0 ==> (best matches Some(
                        row,
                    ) && row <= cs[x].0),
                forall|y: int|
                    a < y < b && cs[a as int].0 == cs[y].0 ==> (best matches Some(row) && row
                        <= cs[a as int].0),
            decreases changes.len() - b,
        {
            assert(cs[a as int].0 == changes@[a as int].0);
            assert(cs[b as int].0 == changes@[b as int].0);
            if changes[a].0 == changes[b].0 {
                let row = changes[a].0;
                assert(row_repeats(cs, row as int)) by {
                    assert(cs[a as int].0 == row && cs[b as int].0 == row);
                }
                best = match best {
                    Some(cur) => if row < cur {
                        Some(row)
                    } else {
                        Some(cur)
                    },
                    None => Some(row),
                };
            }
            b = b + 1;
        }
        a = a + 1;
    }
    proof {
        assert forall|r2: int| #[trigger] row_repeats(cs, r2) implies (best matches Some(row) && row
            <= r2) by {
            let (x, y) = choose|x: int, y: int|
                0 <= x < y < cs.len() && #[trigger] cs[x].0 == r2 && #[trigger] cs[y].0 == r2;
            assert(cs[x].0 == cs[y].0);
        }
    }
    best
}

/// The first change whose text holds a newline.
fn find_newline_change(changes: &Vec<(usize, usize, &str)>) -> (r: Option<usize>)
    ensures
        match r {
            Some(k) => first_with_newline(changes_view(changes@), 0) == Some(k as int) && k
                < changes.len(),
            None => first_with_newline(changes_view(changes@), 0) is None,
        },
{
    let ghost cs = changes_view(changes@);
    let mut k: usize = 0;
    while k < changes.len()
        invariant
            k <= changes.len(),
            cs == changes_view(changes@),
            first_with_newline(cs, 0) == first_with_newline(cs, k as int),
        decreases changes.len() - k,
    {
        let text = chars_of(changes[k].2);
        assert(cs[k as int].2 == text@);
        if contains_char(&text, '\n') {
            return Some(k);
        }
        k = k + 1;
    }
    None
}

/// Inserts each change's text into the lines `lines`, at the change's 0-based
/// row and byte column (at the line's end when the column is beyond it), and
/// joins the lines with newlines. A change whose text holds a newline, or two
/// changes on one row, are errors; changes on rows past the last line are
/// ignored.
pub fn with_multiple_added_content_at(
    lines: &Vec<String>,
    content_changes: Vec<(usize, usize, &str)>,
) -> (r: Result<String, String>)
    requires
        (first_with_newline(changes_view(content_changes@), 0) is None && forall|row: int|
            !#[trigger] row_repeats(changes_view(content_changes@), row)) ==> changes_on_boundaries(
            string_views(lines@),
            changes_view(content_changes@),
        ),
    ensures
        match (r, insertions_spec(string_views(lines@), changes_view(content_changes@))) {
            (Ok(s), Ok(t)) => s@ == t,
            (Err(e), Err(t)) => e@ == t,
            _ => false,
        },
{
    let ghost cs = changes_view(content_changes@);
    let ghost ls = string_views(lines@);
    if let Some(k) = find_newline_change(&content_changes) {
        let row = decimal_chars(content_changes[k].0 as u128);
        let col = decimal_chars(content_changes[k].1 as u128);
        let mut msg = chars_of("Content at position (");
        extend_chars(&mut msg, &row);
        push_str_chars(&mut msg, ", ");
        extend_chars(&mut msg, &col);
        push_str_chars(&mut msg, ") contains newline character, which is not allowed");
        assert(cs[k as int].0 == content_changes@[k as int].0);
        assert(cs[k as int].1 == content_changes@[k as int].1);
        return Err(string_of(&msg));
    }
    if let Some(row) = smallest_repeated_row(&content_changes) {
        let mut msg = chars_of("Conflict: multiple changes on the same row ");
        let digits = decimal_chars(row as u128);
        extend_chars(&mut msg, &digits);
        proof {
            let chosen = choose|rr: int|
                row_repeats(cs, rr) && forall|r2: int| #[trigger] row_repeats(cs, r2) ==> rr <= r2;
            assert(row_repeats(cs, row as int));
            assert(chosen <= row && row <= chosen);
        }
        return Err(string_of(&msg));
    }
    let out = join_edited_lines(lines, &content_changes);
    Ok(string_of(&out))
}

/// Line `row` of the file after the change on that row, if any.
fn edit_line(line: &Vec<char>, changes: &Vec<(usize, usize, &str)>, row: usize) -> (r: Vec<char>)
    requires
        byte_len(line@) <= usize::MAX,
        forall|k: int|
            0 <= k < changes@.len() && changes@[k].0 == row ==> #[trigger] is_char_boundary(
                line@,
                changes@[k].1 as nat,
            ) || changes@[k].1 >= byte_len(line@),
    ensures
        r@ == edited_line(line@, changes_view(changes@), row as int),
{
    let ghost cs = changes_view(changes@);
    match find_change_at_row(changes, row) {
        Some(k) => {
            let content = chars_of(changes[k].2);
            assert(cs[k as int] == (changes@[k as int].0, changes@[k as int].1, content@));
            proof {
                lemma_first_change(cs, row as int, 0);
            }
            assert(is_char_boundary(line@, changes@[k as int].1 as nat) || changes@[k as int].1
                >= byte_len(line@));
            insert_into_line(line, changes[k].1, &content)
        },
        None => {
            let mut r: Vec<char> = Vec::new();
            extend_chars(&mut r, line);
            r
        },
    }
}

/// The lines after the changes, joined by newlines.
fn join_edited_lines(lines: &Vec<String>, changes: &Vec<(usize, usize, &str)>) -> (r: Vec<char>)
    requires
        changes_on_boundaries(string_views(lines@), changes_view(changes@)),
    ensures
        r@ == join(
            Seq::new(
                lines@.len(),
                |i: int| edited_line(string_views(lines@)[i], changes_view(changes@), i),
            ),
            "\n"@,
        ),
{
    let ghost cs = changes_view(changes@);
    let ghost ls = string_views(lines@);
    let ghost edited = Seq::new(ls.len(), |i: int| edited_line(ls[i], cs, i));
    let mut out: Vec<char> = Vec::new();
    let mut i: usize = 0;
    while i < lines.len()
        invariant
            i <= lines.len(),
            cs == changes_view(changes@),
            ls == string_views(lines@),
            edited == Seq::new(ls.len(), |i: int| edited_line(ls[i], cs, i)),
            changes_on_boundaries(ls, cs),
            out@ == join(edited.take(i as int), "\n"@),
        decreases lines.len() - i,
    {
        let _ = str_byte_len(lines[i].as_str());
        let line = chars_of(lines[i].as_str());
        assert(ls[i as int] == line@);
        assert forall|k: int|
            0 <= k < changes@.len() && changes@[k].0 == i implies #[trigger] is_char_boundary(
                line@,
                changes@[k].1 as nat,
            ) || changes@[k].1 >= byte_len(line@) by {
            assert(cs[k].0 == changes@[k].0 && cs[k].1 == changes@[k].1);
            assert(is_char_boundary(ls[cs[k].0 as int], cs[k].1 as nat) || cs[k].1 >= byte_len(ls[cs[k].0 as int]));
        }
        let piece = edit_line(&line, changes, i);
        assert(piece@ == edited[i as int]);
        assert(edited.take(i as int + 1).drop_last() =~= edited.take(i as int));
        if i > 0 {
            push_str_chars(&mut out, "\n");
        }
        extend_chars(&mut out, &piece);
        proof {
            if i == 0 {
                assert(out@ =~= edited.take(1)[0]);
            }
        }
        i = i + 1;
    }
    assert(edited.take(lines.len() as int) =~= edited);
    out
}

proof fn lemma_first_change(cs: Seq<Change>, row: int, k: int)
    requires
        0 <= k,
    ensures
        first_change_at_row(cs, row, k) matches Some(j) ==> k <= j < cs.len() && cs[j].0 == row,
    decreases cs.len() - k,
{
    if k < cs.len() && cs[k].0 != row {
        lemma_first_change(cs, row, k + 1);
    }
}

// ------------------------------------------------------------------------
// Laws of insertion
// ------------------------------------------------------------------------
/// With no changes, the result is the lines joined by newlines.
pub proof fn lemma_no_changes_keeps_text(lines: Seq<Seq<char>>)
    ensures
        insertions_spec(lines, Seq::empty()) == Ok::<Seq<char>, Seq<char>>(join(lines, seq!['\n'])),
{
    let cs = Seq::<Change>::empty();
    assert(!(exists|row: int| row_repeats(cs, row)));
    assert(Seq::new(lines.len(), |i: int| edited_line(lines[i], cs, i)) =~= lines);
    assert("\n"@ == seq!['\n']) by {
        reveal_strlit("\n");
    }
}

/// The sum of `f(i)` for `0 <= i < n`.
pub open spec fn sum_to(f: spec_fn(int) -> nat, n: int) -> nat
    decreases n,
{
    if n <= 0 {
        0
    } else {
        sum_to(f, n - 1) + f(n - 1)
    }
}

/// The total byte length of the texts of the changes.
pub open spec fn contents_bytes(cs: Seq<Change>) -> nat
    decreases cs.len(),
{
    if cs.len() == 0 {
        0
    } else {
        contents_bytes(cs.drop_last()) + byte_len(cs.last().2)
    }
}

/// The bytes the changes add to row `i`.
pub open spec fn extra_at(cs: Seq<Change>, i: int) -> nat {
    match first_change_at_row(cs, i, 0) {
        Some(k) => byte_len(cs[k].2),
        None => 0,
    }
}

proof fn lemma_sum_ext(f: spec_fn(int) -> nat, g: spec_fn(int) -> nat, n: int)
    requires
        forall|i: int| 0 <= i < n ==> #[trigger] f(i) == g(i),
    ensures
        sum_to(f, n) == sum_to(g, n),
    decreases n,
{
    if n > 0 {
        lemma_sum_ext(f, g, n - 1);
    }
}

proof fn lemma_sum_bump(f: spec_fn(int) -> nat, g: spec_fn(int) -> nat, n: int, r: int, d: nat)
    requires
        0 <= r < n,
        forall|i: int| 0 <= i < n && i != r ==> #[trigger] f(i) == g(i),
        f(r) == g(r) + d,
    ensures
        sum_to(f, n) == sum_to(g, n) + d,
    decreases n,
{
    if n - 1 == r {
        lemma_sum_ext(f, g, n - 1);
    } else {
        lemma_sum_bump(f, g, n - 1, r, d);
    }
}

proof fn lemma_first_change_from(cs: Seq<Change>, row: int, k: int)
    requires
        0 <= k <= cs.len(),
    ensures
        first_change_at_row(cs, row, k) is None <==> forall|j: int| k <= j < cs.len() ==> cs[j].0 != row,
        first_change_at_row(cs, row, k) matches Some(j) ==> k <= j < cs.len() && cs[j].0 == row
            && forall|m: int| k <= m < j ==> cs[m].0 != row,
    decreases cs.len() - k,
{
    if k < cs.len() && cs[k].0 != row {
        lemma_first_change_from(cs, row, k + 1);
    }
}

proof fn lemma_extras(cs: Seq<Change>, n: int)
    requires
        forall|row: int| !#[trigger] row_repeats(cs, row),
        forall|k: int| 0 <= k < cs.len() ==> (#[trigger] cs[k]).0 < n,
    ensures
        sum_to(|i: int| extra_at(cs, i), n) == contents_bytes(cs),
    decreases cs.len(),
{
    if cs.len() == 0 {
        lemma_sum_ext(|i: int| extra_at(cs, i), |i: int| 0nat, n);
        lemma_sum_zero(n);
    } else {
        let d = cs.drop_last();
        let last = cs.len() - 1;
        let r = cs[last].0 as int;
        assert forall|row: int| !#[trigger] row_repeats(d, row) by {
            if row_repeats(d, row) {
                let (a, b) = choose|a: int, b: int|
                    0 <= a < b < d.len() && #[trigger] d[a].0 == row && #[trigger] d[b].0 == row;
                assert(cs[a].0 == row && cs[b].0 == row);
                assert(row_repeats(cs, row));
            }
        }
        lemma_extras(d, n);
        assert forall|i: int| 0 <= i < n && i != r implies extra_at(cs, i) == extra_at(d, i) by {
            lemma_first_change_from(cs, i, 0);
            lemma_first_change_from(d, i, 0);
            match first_change_at_row(d, i, 0) {
                Some(j) => {
                    assert(cs[j] == d[j]);
                    let jc = first_change_at_row(cs, i, 0)->0;
                    if jc < j {
                        assert(cs[jc] == d[jc]);
                    }
                    assert(jc == j);
                },
                None => {
                    if let Some(jc) = first_change_at_row(cs, i, 0) {
                        if jc < d.len() {
                            assert(cs[jc] == d[jc]);
                        }
                    }
                },
            }
        }
        assert forall|j: int| 0 <= j < d.len() implies #[trigger] d[j].0 != r by {
            if d[j].0 == r {
                assert(cs[j] == d[j]);
                assert(cs[j].0 == r && cs[last].0 == r);
                assert(row_repeats(cs, r));
            }
        }
        assert(extra_at(cs, r) == extra_at(d, r) + byte_len(cs.last().2)) by {
            lemma_first_change_from(cs, r, 0);
            lemma_first_change_from(d, r, 0);
            let jc = first_change_at_row(cs, r, 0);
            if let Some(j) = jc {
                if j < last {
                    assert(cs[j] == d[j]);
                }
            } else {
                assert(cs[last].0 == r);
            }
        }
        lemma_sum_bump(|i: int| extra_at(cs, i), |i: int| extra_at(d, i), n, r, byte_len(cs.last().2));
    }
}

proof fn lemma_sum_zero(n: int)
    ensures
        sum_to(|i: int| 0nat, n) == 0,
    decreases n,
{
    if n > 0 {
        lemma_sum_zero(n - 1);
    }
}

proof fn lemma_chars_within_len(s: Seq<char>, b: nat)
    ensures
        chars_within(s, b) <= s.len(),
    decreases s.len(),
{
    if s.len() > 0 && utf8_width(s[0]) <= b {
        lemma_chars_within_len(s.drop_first(), (b - utf8_width(s[0])) as nat);
    }
}

proof fn lemma_edited_bytes(l: Seq<char>, cs: Seq<Change>, i: int)
    ensures
        byte_len(edited_line(l, cs, i)) == byte_len(l) + extra_at(cs, i),
{
    if let Some(k) = first_change_at_row(cs, i, 0) {
        let col = cs[k].1 as nat;
        let b = if col < byte_len(l) {
            col
        } else {
            byte_len(l)
        };
        let m = chars_within(l, b) as int;
        lemma_chars_within_len(l, b);
        lemma_byte_len_append(l.take(m) + cs[k].2, l.skip(m));
        lemma_byte_len_append(l.take(m), cs[k].2);
        assert(l =~= l.take(m) + l.skip(m));
        lemma_byte_len_append(l.take(m), l.skip(m));
    }
}

proof fn lemma_join_bytes(ls: Seq<Seq<char>>)
    ensures
        byte_len(join(ls, seq!['\n'])) + (if ls.len() > 0 {
            1nat
        } else {
            0nat
        }) == sum_to(|i: int| byte_len(ls[i]), ls.len() as int) + ls.len(),
    decreases ls.len(),
{
    if ls.len() == 0 {
    } else {
        let d = ls.drop_last();
        lemma_join_bytes(d);
        lemma_sum_ext(|i: int| byte_len(ls[i]), |i: int| byte_len(d[i]), d.len() as int);
        if ls.len() == 1 {
            assert(d.len() == 0);
        } else {
            lemma_byte_len_append(join(d, seq!['\n']) + seq!['\n'], ls.last());
            lemma_byte_len_append(join(d, seq!['\n']), seq!['\n']);
            assert(seq!['\n'].drop_first() =~= Seq::<char>::empty());
            assert(byte_len(seq!['\n']) == utf8_width('\n') + byte_len(seq!['\n'].drop_first()));
        }
    }
}

/// Inserting changes on distinct rows of the text, none of them holding a
/// newline, adds exactly the bytes of their texts to the joined lines.
pub proof fn lemma_insertions_add_their_bytes(lines: Seq<Seq<char>>, cs: Seq<Change>)
    requires
        first_with_newline(cs, 0) is None,
        forall|row: int| !#[trigger] row_repeats(cs, row),
        forall|k: int| 0 <= k < cs.len() ==> (#[trigger] cs[k]).0 < lines.len(),
    ensures
        insertions_spec(lines, cs) matches Ok(t) && byte_len(t) == byte_len(
            join(lines, seq!['\n']),
        ) + contents_bytes(cs),
{
    let n = lines.len() as int;
    let edited = Seq::new(lines.len(), |i: int| edited_line(lines[i], cs, i));
    assert("\n"@ == seq!['\n']) by {
        reveal_strlit("\n");
    }
    lemma_join_bytes(lines);
    lemma_join_bytes(edited);
    lemma_extras(cs, n);
    assert forall|i: int| 0 <= i < n implies #[trigger] byte_len(edited[i]) == byte_len(lines[i])
        + extra_at(cs, i) by {
        lemma_edited_bytes(lines[i], cs, i);
    }
    lemma_sum_split(|i: int| byte_len(edited[i]), |i: int| byte_len(lines[i]), |i: int| extra_at(cs, i), n);
}

proof fn lemma_sum_split(
    f: spec_fn(int) -> nat,
    g: spec_fn(int) -> nat,
    h: spec_fn(int) -> nat,
    n: int,
)
    requires
        forall|i: int| 0 <= i < n ==> #[trigger] f(i) == g(i) + h(i),
    ensures
        sum_to(f, n) == sum_to(g, n) + sum_to(h, n),
    decreases n,
{
    if n > 0 {
        lemma_sum_split(f, g, h, n - 1);
    }
}

/// `x` occurs in `s` as a contiguous piece.
pub open spec fn occurs_in(x: Seq<char>, s: Seq<char>) -> bool {
    exists|o: int| 0 <= o && o + x.len() <= s.len() && #[trigger] s.subrange(o, o + x.len()) == x
}

proof fn lemma_occurs_in_trans(x: Seq<char>, y: Seq<char>, s: Seq<char>)
    requires
        occurs_in(x, y),
        occurs_in(y, s),
    ensures
        occurs_in(x, s),
{
    let o1 = choose|o: int| 0 <= o && o + x.len() <= y.len() && #[trigger] y.subrange(o, o + x.len()) == x;
    let o2 = choose|o: int| 0 <= o && o + y.len() <= s.len() && #[trigger] s.subrange(o, o + y.len()) == y;
    assert(s.subrange(o2 + o1, o2 + o1 + x.len()) =~= y.subrange(o1, o1 + x.len()));
}

proof fn lemma_join_contains(ls: Seq<Seq<char>>, sep: Seq<char>, i: int)
    requires
        0 <= i < ls.len(),
    ensures
        occurs_in(ls[i], join(ls, sep)),
    decreases ls.len(),
{
    let j = join(ls, sep);
    if ls.len() == 1 {
        let o = 0int;
        assert(j.subrange(o, o + ls[i].len()) =~= ls[i]);
    } else {
        let d = ls.drop_last();
        let jd = join(d, sep);
        assert(j == jd + sep + ls.last());
        if i == ls.len() - 1 {
            let o = (jd.len() + sep.len()) as int;
            assert(j.subrange(o, o + ls[i].len()) =~= ls[i]);
        } else {
            lemma_join_contains(d, sep, i);
            assert(d[i] == ls[i]);
            let o = choose|o: int| 0 <= o && o + d[i].len() <= jd.len() && #[trigger] jd.subrange(o, o + d[i].len()) == d[i];
            assert(j.subrange(o, o + ls[i].len()) =~= jd.subrange(o, o + d[i].len()));
            assert(j.subrange(o, o + ls[i].len()) == ls[i]);
        }
    }
}

/// Every change on a row of the text shows up in the result: when inserting
/// changes succeeds, the text of each change whose row exists occurs in it.
pub proof fn lemma_insertions_appear(lines: Seq<Seq<char>>, cs: Seq<Change>, k: int)
    requires
        insertions_spec(lines, cs) is Ok,
        0 <= k < cs.len(),
        (cs[k].0 as int) < lines.len(),
    ensures
        occurs_in(cs[k].2, insertions_spec(lines, cs)->Ok_0),
{
    let row = cs[k].0 as int;
    assert(first_with_newline(cs, 0) is None);
    assert(!exists|r: int| row_repeats(cs, r));
    lemma_first_change_from(cs, row, 0);
    let j = first_change_at_row(cs, row, 0)->0;
    assert(j == k) by {
        if j != k {
            if j < k {
                assert(row_repeats(cs, row));
            } else {
                assert(cs[k].0 == row);
            }
        }
    }
    let l = lines[row];
    let col = cs[k].1 as nat;
    let b = if col < byte_len(l) {
        col
    } else {
        byte_len(l)
    };
    let m = chars_within(l, b) as int;
    lemma_chars_within_len(l, b);
    let ed = edited_line(l, cs, row);
    assert(ed == l.take(m) + cs[k].2 + l.skip(m));
    assert(ed.subrange(m, m + cs[k].2.len()) =~= cs[k].2);
    let edited = Seq::new(lines.len(), |i: int| edited_line(lines[i], cs, i));
    lemma_join_contains(edited, "\n"@, row);
    lemma_occurs_in_trans(cs[k].2, ed, join(edited, "\n"@));
}

proof fn lemma_no_newline_found(cs: Seq<Change>, k: int)
    requires
        forall|j: int| 0 <= j < cs.len() ==> !(#[trigger] cs[j]).2.contains('\n'),
    ensures
        first_with_newline(cs, k) is None,
    decreases cs.len() - k,
{
    if 0 <= k < cs.len() {
        lemma_no_newline_found(cs, k + 1);
    }
}

proof fn lemma_same_change_at_row(cs1: Seq<Change>, cs2: Seq<Change>, row: int)
    requires
        forall|x: Change| cs1.contains(x) ==> cs2.contains(x),
        forall|r: int| !#[trigger] row_repeats(cs2, r),
    ensures
        first_change_at_row(cs1, row, 0) matches Some(j1) ==> first_change_at_row(cs2, row, 0) matches Some(
            j2,
        ) && cs2[j2] == cs1[j1],
{
    lemma_first_change_from(cs1, row, 0);
    lemma_first_change_from(cs2, row, 0);
    if let Some(j1) = first_change_at_row(cs1, row, 0) {
        assert(cs1.contains(cs1[j1]));
        let j = choose|j: int| 0 <= j < cs2.len() && cs2[j] == cs1[j1];
        assert(cs2[j].0 == row);
        let j2 = first_change_at_row(cs2, row, 0)->0;
        if j2 != j {
            if j2 < j {
                assert(row_repeats(cs2, row));
            } else {
                assert(row_repeats(cs2, row));
            }
        }
    }
}

/// The order of the changes does not matter: two lists holding the same
/// changes, none of them with a newline and no two on one row, give the same
/// result.
pub proof fn lemma_insertion_order_does_not_matter(
    lines: Seq<Seq<char>>,
    cs1: Seq<Change>,
    cs2: Seq<Change>,
)
    requires
        forall|x: Change| cs1.contains(x) <==> cs2.contains(x),
        forall|k: int| 0 <= k < cs1.len() ==> !(#[trigger] cs1[k]).2.contains('\n'),
        forall|r: int| !#[trigger] row_repeats(cs1, r),
        forall|r: int| !#[trigger] row_repeats(cs2, r),
    ensures
        insertions_spec(lines, cs1) == insertions_spec(lines, cs2),
{
    assert forall|k: int| 0 <= k < cs2.len() implies !(#[trigger] cs2[k]).2.contains('\n') by {
        assert(cs2.contains(cs2[k]));
        let j = choose|j: int| 0 <= j < cs1.len() && cs1[j] == cs2[k];
        assert(!cs1[j].2.contains('\n'));
    }
    lemma_no_newline_found(cs1, 0);
    lemma_no_newline_found(cs2, 0);
    assert forall|i: int| 0 <= i < lines.len() implies edited_line(lines[i], cs1, i) == edited_line(
        lines[i],
        cs2,
        i,
    ) by {
        lemma_same_change_at_row(cs1, cs2, i);
        lemma_same_change_at_row(cs2, cs1, i);
    }
    assert(Seq::new(lines.len(), |i: int| edited_line(lines[i], cs1, i)) =~= Seq::new(
        lines.len(),
        |i: int| edited_line(lines[i], cs2, i),
    ));
}

/// The insertion for comment `k` of `cs`, with comment hashes `mh` and code
/// hashes `ch`: at the 0-based row and byte column of its stamp's closing
/// backticks, the text ` COMMENT_HASH CODE_HASH`.
pub open spec fn insertion_for(
    cs: Seq<CommentModel>,
    mh: Seq<Seq<char>>,
    ch: Seq<Seq<char>>,
    k: int,
) -> (usize, usize, Seq<char>) {
    ((cs[k].stamp_end->0.row - 1) as usize, cs[k].stamp_end->0.column, hash_pair(mh[k], ch[k]))
}

proof fn insertion_positions(cs: Seq<CommentModel>, mh: Seq<Seq<char>>, ch: Seq<Seq<char>>, n: int) -> (idx:
    Seq<int>)
    requires
        0 <= n <= cs.len(),
    ensures
        idx.len() == hash_insertions_upto(cs, mh, ch, n).len(),
        forall|j: int|
            0 <= j < idx.len() ==> 0 <= #[trigger] idx[j] < n && wants_hashes(cs[idx[j]])
                && hash_insertions_upto(cs, mh, ch, n)[j] == insertion_for(cs, mh, ch, idx[j]),
        forall|j1: int, j2: int| 0 <= j1 < j2 < idx.len() ==> idx[j1] < idx[j2],
        forall|k: int| 0 <= k < n && wants_hashes(#[trigger] cs[k]) ==> idx.contains(k),
    decreases n,
{
    if n == 0 {
        Seq::empty()
    } else {
        let prev = insertion_positions(cs, mh, ch, n - 1);
        if wants_hashes(cs[n - 1]) {
            let idx = prev.push(n - 1);
            assert(idx[prev.len() as int] == n - 1);
            assert forall|k: int| 0 <= k < n && wants_hashes(#[trigger] cs[k]) implies idx.contains(
                k,
            ) by {
                if k < n - 1 {
                    let j = choose|j: int| 0 <= j < prev.len() && prev[j] == k;
                    assert(idx[j] == k);
                }
            }
            idx
        } else {
            prev
        }
    }
}

/// Every comment that asks for hashes gets exactly one insertion, in the
/// order of the comments, and no other comment gets one: the insertions are
/// those of the comments that ask for hashes, taken in order.
pub proof fn lemma_every_wanting_comment_gets_hashes(
    cs: Seq<CommentModel>,
    mh: Seq<Seq<char>>,
    ch: Seq<Seq<char>>,
)
    ensures
        exists|idx: Seq<int>|
            #![trigger idx.len()]
            idx.len() == hash_insertions_upto(cs, mh, ch, cs.len() as int).len() && (forall|j: int|
                0 <= j < idx.len() ==> 0 <= #[trigger] idx[j] < cs.len() && wants_hashes(cs[idx[j]])
                    && hash_insertions_upto(cs, mh, ch, cs.len() as int)[j] == insertion_for(
                    cs,
                    mh,
                    ch,
                    idx[j],
                )) && (forall|j1: int, j2: int| 0 <= j1 < j2 < idx.len() ==> idx[j1] < idx[j2])
                && (forall|k: int| 0 <= k < cs.len() && wants_hashes(#[trigger] cs[k]) ==> idx.contains(k)),
{
    let idx = insertion_positions(cs, mh, ch, cs.len() as int);
    assert(idx.len() == hash_insertions_upto(cs, mh, ch, cs.len() as int).len());
}

} // verus!
