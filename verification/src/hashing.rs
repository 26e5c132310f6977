//! Content hashes of comments and of the code they refer to.
//!
//! A text is reduced to its words (whitespace-separated, keeping only the
//! alphanumeric characters of each word, dropping words left empty); the words
//! and the file path are fed to std's `DefaultHasher`, and the hash is written
//! in decimal. What the hasher computes from them depends on the platform and
//! on std's version, so the contracts here state only that the result is the
//! decimal form of a `u64`; decisions that use hashes take them as arguments.
use vstd::prelude::*;
use crate::text::{
    chars_of, decimal, decimal_chars, split_whitespace_chars, split_ws, string_of, string_views,
    views_of,
};
use std::hash::DefaultHasher;
use std::hash::Hash;
use std::hash::Hasher;

verus! {

broadcast use vstd::seq_lib::group_seq_properties;

/// Whether `char::is_alphanumeric` holds of `c`: it has the Unicode
/// `Alphabetic` property, or its general category is `Nd`, `Nl` or `No`.
pub uninterp spec fn is_alphanumeric_char(c: char) -> bool;

/// `<str as Hash>::hash`: feeds a string to the hasher. Which bytes it writes
/// is std's own business and is not stated here.
#[verifier::external_body]
fn feed_text(h: &mut DefaultHasher, s: &str) {
    s.hash(h)
}

/// `<Path as Hash>::hash`: feeds the path named by `p` to the hasher. What it
/// writes depends on the platform's path syntax and word size, so nothing is
/// stated of it.
#[verifier::external_body]
fn feed_path(h: &mut DefaultHasher, p: &str) {
    std::path::Path::new(p).hash(h)
}

/// `char::is_alphanumeric`.
#[verifier::external_body]
fn char_is_alphanumeric(c: char) -> (r: bool)
    ensures
        r == is_alphanumeric_char(c),
{
    c.is_alphanumeric()
}

/// The alphanumeric characters of `w`, in order.
pub open spec fn alnum_only(w: Seq<char>) -> Seq<char>
    decreases w.len(),
{
    if w.len() == 0 {
        w
    } else {
        let r = alnum_only(w.drop_last());
        if is_alphanumeric_char(w.last()) {
            r.push(w.last())
        } else {
            r
        }
    }
}

/// The alphanumeric characters of `w`.
fn alnum_chars(w: &Vec<char>) -> (r: Vec<char>)
    ensures
        r@ == alnum_only(w@),
{
    let mut r: Vec<char> = Vec::new();
    let mut i: usize = 0;
    while i < w.len()
        invariant
            i <= w.len(),
            r@ == alnum_only(w@.take(i as int)),
        decreases w.len() - i,
    {
        let c = w[i];
        assert(w@.take(i as int + 1).drop_last() =~= w@.take(i as int));
        if char_is_alphanumeric(c) {
            r.push(c);
        }
        i = i + 1;
    }
    assert(w@.take(w.len() as int) =~= w@);
    r
}

/// The words of a text as they are hashed: its whitespace-separated words,
/// each reduced to its alphanumeric characters, those left empty dropped.
pub open spec fn normalized_words(s: Seq<char>) -> Seq<Seq<char>> {
    nonempty_alnum(split_ws(s))
}

/// The alphanumeric parts of the words `ws` that are not empty, in order.
pub open spec fn nonempty_alnum(ws: Seq<Seq<char>>) -> Seq<Seq<char>>
    decreases ws.len(),
{
    if ws.len() == 0 {
        Seq::empty()
    } else {
        let r = nonempty_alnum(ws.drop_last());
        let w = alnum_only(ws.last());
        if w.len() > 0 {
            r.push(w)
        } else {
            r
        }
    }
}

/// The words of `s` that are handed to the hasher, in order.
pub fn hash_words(s: &String) -> (r: Vec<String>)
    ensures
        string_views(r@) == normalized_words(s@),
{
    let chars = chars_of(s.as_str());
    let words = split_whitespace_chars(&chars);
    let ghost ws = views_of(words@);
    let mut r: Vec<String> = Vec::new();
    let mut i: usize = 0;
    while i < words.len()
        invariant
            i <= words.len(),
            ws == views_of(words@),
            ws == split_ws(s@),
            string_views(r@) == nonempty_alnum(ws.take(i as int)),
        decreases words.len() - i,
    {
        assert(ws.take(i as int + 1).drop_last() =~= ws.take(i as int));
        assert(ws[i as int] == words@[i as int]@);
        let kept = alnum_chars(&words[i]);
        if kept.len() > 0 {
            let text = string_of(&kept);
            let ghost before = r@;
            r.push(text);
            assert(string_views(r@) =~= string_views(before).push(text@));
        }
        i = i + 1;
    }
    assert(ws.take(words.len() as int) =~= ws);
    r
}

/// Hashes the words `words`, in order, and then the path `file` with a fresh
/// `DefaultHasher`, and writes the hash in decimal.
pub fn hash_words_in_file(words: &Vec<String>, file: &String) -> (r: String)
    ensures
        exists|n: u64| r@ == decimal(n as nat),
{
    let mut h = DefaultHasher::new();
    let mut i: usize = 0;
    while i < words.len()
        invariant
            i <= words.len(),
        decreases words.len() - i,
    {
        feed_text(&mut h, words[i].as_str());
        i = i + 1;
    }
    feed_path(&mut h, file.as_str());
    let n = h.finish();
    let digits = decimal_chars(n as u128);
    string_of(&digits)
}

/// Hashes the normalized words of `s` (`hash_words`) and then the path
/// `file` (`hash_words_in_file`).
pub fn hash_text_in_file(s: &String, file: &String) -> (r: String)
    ensures
        exists|n: u64| r@ == decimal(n as nat),
{
    let words = hash_words(s);
    hash_words_in_file(&words, file)
}

} // verus!
