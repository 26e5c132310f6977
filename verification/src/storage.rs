//! What is stored in the comments database: one record per comment, written
//! in transactions of bounded size.
use vstd::prelude::*;
use crate::models::CommentData;
use crate::violations::is_hash_text;

verus! {

/// A comments database, named by the path of its file.
pub struct SqliteDB {
    file: String,
}

impl View for SqliteDB {
    type V = Seq<char>;

    closed spec fn view(&self) -> Seq<char> {
        self.file@
    }
}

impl SqliteDB {
    /// The database in the file at path `file`.
    pub fn new(file: String) -> (r: Self)
        ensures
            r@ == file@,
    {
        Self { file }
    }

    /// The path of the database file.
    pub fn file(&self) -> (r: &String)
        ensures
            r@ == self@,
    {
        &self.file
    }
}

/// The row stored for one comment.
pub struct CommentRecord {
    pub contents: String,
    pub code: String,
    pub contents_hash: String,
    pub code_hash: String,
    pub file_path: String,
    pub row: usize,
    pub column: usize,
    pub lines_of_code: u16,
}

/// The row stored for `comment` when its text hashes to `contents_hash` and
/// its code to `code_hash`: its text, its code, those hashes, its file, where
/// it starts, and how many lines of code it refers to.
pub fn comment_record_with(comment: &CommentData, contents_hash: String, code_hash: String) -> (r:
    CommentRecord)
    ensures
        r.contents@ == comment@.raw_contents,
        r.code@ == comment@.code_it_refers_to,
        r.contents_hash == contents_hash,
        r.code_hash == code_hash,
        r.file_path@ == comment@.file,
        r.row == comment.comment_location.start.row,
        r.column == comment.comment_location.start.column,
        r.lines_of_code == comment.lines_of_code_referenced,
{
    CommentRecord {
        contents: comment.raw_contents.clone(),
        code: comment.code_it_refers_to.clone(),
        contents_hash,
        code_hash,
        file_path: comment.file.clone(),
        row: comment.comment_location.start.row,
        column: comment.comment_location.start.column,
        lines_of_code: comment.lines_of_code_referenced,
    }
}

/// The row stored for `comment`, with the current hashes of its text and code.
pub fn comment_record(comment: &CommentData) -> (r: CommentRecord)
    ensures
        r.contents@ == comment@.raw_contents,
        r.code@ == comment@.code_it_refers_to,
        is_hash_text(r.contents_hash@),
        is_hash_text(r.code_hash@),
        call_ensures(CommentData::hash_comment, (comment,), r.contents_hash),
        call_ensures(CommentData::hash_code, (comment,), r.code_hash),
        r.file_path@ == comment@.file,
        r.row == comment.comment_location.start.row,
        r.column == comment.comment_location.start.column,
        r.lines_of_code == comment.lines_of_code_referenced,
{
    let text = CommentData::hash_comment;
    let code = CommentData::hash_code;
    let contents_hash = text(comment);
    let code_hash = code(comment);
    comment_record_with(comment, contents_hash, code_hash)
}

/// The `i`-th chunk of `len` records cut in chunks of `size`.
pub open spec fn chunk_bounds(i: int, size: int, len: int) -> (int, int) {
    let start = i * size;
    (start, if start + size < len {
        start + size
    } else {
        len
    })
}

/// The ranges of records written in one transaction each: `len` records cut
/// in consecutive chunks of `records_per_transaction`, the last one possibly
/// shorter (`slice::chunks`).
pub fn transaction_chunks(len: usize, records_per_transaction: usize) -> (r: Vec<(usize, usize)>)
    requires
        records_per_transaction > 0,
    ensures
        forall|i: int|
            0 <= i < r@.len() ==> ((#[trigger] r@[i]).0 as int, r@[i].1 as int) == chunk_bounds(
                i,
                records_per_transaction as int,
                len as int,
            ),
        r@.len() * records_per_transaction >= len,
        r@.len() == 0 || (r@.len() - 1) * records_per_transaction < len,
        r@.len() == 0 <==> len == 0,
        r@.len() > 0 ==> r@[0].0 == 0 && r@[r@.len() - 1].1 == len,
        forall|i: int| 0 <= i < r@.len() ==> (#[trigger] r@[i]).0 < r@[i].1,
        forall|i: int| 0 <= i < r@.len() - 1 ==> (#[trigger] r@[i]).1 == r@[i + 1].0,
{
    let size = records_per_transaction;
    let mut r: Vec<(usize, usize)> = Vec::new();
    let mut start: usize = 0;
    assert(r@.len() * size == 0) by (nonlinear_arith)
        requires
            r@.len() == 0,
    ;
    while start < len
        invariant
            size == records_per_transaction,
            size > 0,
            start <= len,
            r@.len() * size < len ==> start == r@.len() * size,
            r@.len() * size >= len ==> start == len,
            r@.len() == 0 || (r@.len() - 1) * size < len,
            r@.len() == 0 <==> start == 0,
            r@.len() > 0 ==> r@[0].0 == 0 && r@[r@.len() - 1].1 == start,
            forall|i: int| 0 <= i < r@.len() ==> (#[trigger] r@[i]).0 < r@[i].1,
            forall|i: int| 0 <= i < r@.len() - 1 ==> (#[trigger] r@[i]).1 == r@[i + 1].0,
            forall|i: int|
                0 <= i < r@.len() ==> ((#[trigger] r@[i]).0 as int, r@[i].1 as int) == chunk_bounds(
                    i,
                    size as int,
                    len as int,
                ),
        decreases len - start,
    {
        let end = if len - start > size {
            start + size
        } else {
            len
        };
        let ghost i = r@.len();
        assert(start == i * size);
        assert((i + 1) * size == i * size + size) by (nonlinear_arith);
        let ghost before = r@;
        r.push((start, end));
        assert(forall|k: int| 0 <= k < before.len() ==> r@[k] == before[k]);
        start = end;
    }
    r
}

} // verus!
