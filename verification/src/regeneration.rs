//! Hash generation and reading: hashes written into a stamp that lacks them
//! are what reading the stamp afterwards finds.
use vstd::prelude::*;
use crate::models::{
    consume_stamp_model, nonempty_trimmed, num_list, push_comment_model, push_comment_stops, stamp_close,
    stamp_fields, stamp_is_malformed, stamp_open, stamp_text, CommentModel, StampParseError,
};
use crate::source_code_replacer::{chars_within, hash_pair, insert_at_byte};
use crate::text::{
    byte_len, decimal, find, is_digit, is_ws, lemma_byte_len_append, lemma_byte_len_take,
    lemma_decimal_digits, lemma_find_from, lemma_find_from_first, lemma_split_from_nonempty,
    lemma_split_space_concat, lemma_split_space_none, lemma_trim_append_to_solid,
    lemma_trim_ends_solid, lemma_trim_nonempty, lemma_trim_solid, lemma_ws_end_from,
    lemma_ws_end_from_prefix, matches_at, split_on, trim, trim_start, utf8_width, ws_end_from,
    ws_start_before,
};
use crate::violations::is_hash_text;

verus! {

/// The first `q` characters of `s` are exactly the characters that fit in
/// their byte length.
proof fn lemma_chars_within_prefix(s: Seq<char>, q: int)
    requires
        0 <= q <= s.len(),
    ensures
        chars_within(s, byte_len(s.take(q))) == q,
    decreases s.len(),
{
    if q == 0 {
        assert(s.take(0) =~= Seq::<char>::empty());
        if s.len() > 0 {
            assert(utf8_width(s[0]) >= 1);
        }
    } else {
        let rest = s.drop_first();
        assert(s.take(q).drop_first() =~= rest.take(q - 1));
        assert(s.take(q)[0] == s[0]);
        assert(byte_len(s.take(q)) == utf8_width(s[0]) + byte_len(rest.take(q - 1)));
        lemma_chars_within_prefix(rest, q - 1);
    }
}

/// The untrimmed text between the stamp's opening pattern and its closing
/// backticks in the comment line `s`.
pub open spec fn raw_stamp_text(s: Seq<char>) -> Seq<char> {
    let st = find(s, stamp_open())->0;
    let e = find(s.skip(st + stamp_open().len()), stamp_close())->0;
    s.skip(st + stamp_open().len()).take(e)
}

/// The stamp of line `s` has no whitespace just before its closing backticks.
pub open spec fn stamp_closes_tightly(s: Seq<char>) -> bool {
    let r = raw_stamp_text(s);
    r.len() > 0 && !is_ws(r.last())
}

proof fn lemma_hash_text_solid(a: Seq<char>)
    requires
        is_hash_text(a),
    ensures
        a.len() > 0,
        forall|k: int| 0 <= k < a.len() ==> is_digit(#[trigger] a[k]),
{
    let n = choose|n: u64| a == decimal(n as nat);
    lemma_decimal_digits(n as nat);
}

/// A search for `p` finds the same first match in a text that agrees with
/// `s` up to the end of that match.
proof fn lemma_find_kept_prefix(s: Seq<char>, s2: Seq<char>, p: Seq<char>, q: int)
    requires
        find(s, p) is Some,
        find(s, p)->0 + p.len() <= q <= s.len(),
        q <= s2.len(),
        s2.take(q) == s.take(q),
    ensures
        find(s2, p) == find(s, p),
{
    let st = find(s, p)->0;
    lemma_find_from(s, p, 0);
    assert forall|i: int| 0 <= i < q implies s2[i] == s[i] by {
        assert(s2.take(q)[i] == s2[i]);
        assert(s.take(q)[i] == s[i]);
    }
    assert(s2.subrange(st, st + p.len()) =~= s.subrange(st, st + p.len()));
    assert forall|j: int| 0 <= j < st implies !matches_at(s2, p, j) by {
        assert(!matches_at(s, p, j));
        assert(s2.subrange(j, j + p.len()) =~= s.subrange(j, j + p.len()));
    }
    lemma_find_from_first(s2, p, 0, st);
}

/// Backticks that first close at the end of `raw` close just after `t` once
/// `t`, which holds none, is inserted there.
proof fn lemma_close_after_insert(raw: Seq<char>, t: Seq<char>, rest: Seq<char>)
    requires
        find(raw + rest, seq!['`', '`', '`']) == Some(raw.len() as int),
        forall|k: int| 0 <= k < t.len() ==> #[trigger] t[k] != '`',
        t.len() > 0,
    ensures
        find(raw + t + rest, seq!['`', '`', '`']) == Some((raw.len() + t.len()) as int),
{
    let close = seq!['`', '`', '`'];
    let r1 = raw + rest;
    let r2 = raw + t + rest;
    let e = raw.len() as int;
    let e2 = e + t.len();
    lemma_find_from(r1, close, 0);
    assert(r2.subrange(e2, e2 + 3) =~= r1.subrange(e, e + 3));
    assert forall|j: int| 0 <= j < e2 implies !matches_at(r2, close, j) by {
        if j + 3 <= e {
            assert(!matches_at(r1, close, j));
            assert(r2.subrange(j, j + 3) =~= r1.subrange(j, j + 3));
        } else if matches_at(r2, close, j) {
            let m = if j >= e {
                j
            } else {
                e
            };
            assert(r2[m] == t[m - e]);
            assert(r2.subrange(j, j + 3)[m - j] == r2[m]);
            assert(close[m - j] == '`');
        }
    }
    lemma_find_from_first(r2, close, 0, e2);
}

/// The fields of a stamp text followed by two hashes are its fields and the
/// two hashes.
proof fn lemma_fields_with_hashes(tt: Seq<char>, a: Seq<char>, b: Seq<char>)
    requires
        is_hash_text(a),
        is_hash_text(b),
    ensures
        stamp_fields(tt + hash_pair(a, b)) == stamp_fields(tt) + seq![a, b],
        trim(a) == a,
        trim(b) == b,
{
    let sp = seq![' '];
    assert(" "@ =~= sp) by {
        reveal_strlit(" ");
    }
    lemma_hash_text_solid(a);
    lemma_hash_text_solid(b);
    assert forall|k: int| 0 <= k < a.len() implies a[k] != ' ' && !is_ws(#[trigger] a[k]) by {
        assert(is_digit(a[k]));
    }
    assert forall|k: int| 0 <= k < b.len() implies b[k] != ' ' && !is_ws(#[trigger] b[k]) by {
        assert(is_digit(b[k]));
    }
    lemma_split_space_none(a);
    lemma_split_space_none(b);
    lemma_split_space_concat(a, b, 0);
    lemma_split_space_concat(tt, a + sp + b, 0);
    assert(tt + hash_pair(a, b) =~= tt + sp + (a + sp + b));
    lemma_trim_solid(a);
    lemma_trim_solid(b);
}

/// The characters of an inserted hash pair: spaces and digits, ending with a digit.
proof fn lemma_hash_pair_chars(a: Seq<char>, b: Seq<char>)
    requires
        is_hash_text(a),
        is_hash_text(b),
    ensures
        hash_pair(a, b).len() > 0,
        !is_ws(hash_pair(a, b).last()),
        forall|k: int| 0 <= k < hash_pair(a, b).len() ==> #[trigger] hash_pair(a, b)[k] != '`',
{
    let t = hash_pair(a, b);
    let sp = seq![' '];
    assert(" "@ =~= sp) by {
        reveal_strlit(" ");
    }
    lemma_hash_text_solid(a);
    lemma_hash_text_solid(b);
    assert(t =~= sp + a + sp + b);
    assert forall|k: int| 0 <= k < t.len() implies #[trigger] t[k] != '`' by {
        if 1 <= k < 1 + a.len() {
            assert(t[k] == a[k - 1]);
            assert(is_digit(a[k - 1]));
        } else if k > 1 + a.len() {
            assert(t[k] == b[k - 2 - a.len()]);
            assert(is_digit(b[k - 2 - a.len()]));
        }
    }
    assert(t.last() == b[b.len() - 1]);
    assert(is_digit(b[b.len() - 1]));
}

/// The comment `c` with the part of line `s` before its stamp added to its text.
pub open spec fn comment_before_stamp(c: CommentModel, s: Seq<char>) -> CommentModel {
    CommentModel {
        raw_contents: c.raw_contents.push('\n') + s.take(find(s, stamp_open())->0),
        ..c
    }
}

/// The text of the stamp of line `s` without its leading whitespace, but with
/// any whitespace before the closing backticks.
pub open spec fn stamp_start_text(s: Seq<char>) -> Seq<char> {
    trim_start(raw_stamp_text(s))
}

/// Generated hashes land inside the stamp: in a comment line `s` with a
/// complete stamp, inserting ` A B` (`A` and `B` decimal hashes) at the byte
/// offset that reading the line returned gives a line whose stamp text is the
/// old one (leading whitespace removed, whitespace before the closing
/// backticks kept) followed by ` A B`, whose fields are the old fields followed
/// by `A` and `B`, and which is read as that stamp text; the stamp then closes
/// just after the inserted text.
pub proof fn lemma_inserted_hashes_stamp_text(
    c: CommentModel,
    s: Seq<char>,
    a: Seq<char>,
    b: Seq<char>,
)
    requires
        !push_comment_stops(s),
        push_comment_model(c, s).1 is Some,
        is_hash_text(a),
        is_hash_text(b),
    ensures
        stamp_fields(stamp_start_text(s) + hash_pair(a, b)) == stamp_fields(stamp_start_text(s))
            + seq![a, b],
        push_comment_stops(insert_at_byte(s, push_comment_model(c, s).1->0, hash_pair(a, b)))
            == stamp_is_malformed(stamp_start_text(s) + hash_pair(a, b)),
        push_comment_model(c, insert_at_byte(s, push_comment_model(c, s).1->0, hash_pair(a, b)))
            == (
            consume_stamp_model(comment_before_stamp(c, s), stamp_start_text(s) + hash_pair(a, b)),
            Some(push_comment_model(c, s).1->0 + byte_len(hash_pair(a, b))),
        ),
{
    let open = stamp_open();
    let close = stamp_close();
    assert(open.len() == 15 && close =~= seq!['`', '`', '`']) by {
        reveal_strlit("```comments-2.0");
        reveal_strlit("```");
    }
    let t = hash_pair(a, b);
    lemma_hash_pair_chars(a, b);
    // Where the stamp is in `s`.
    let st = find(s, open)->0;
    lemma_find_from(s, open, 0);
    let rem = s.skip(st + 15);
    let e = find(rem, close)->0;
    lemma_find_from(rem, close, 0);
    let q = st + 15 + e;
    let raw = rem.take(e);
    let p = byte_len(s.take(q));
    lemma_byte_len_take(s, q, s.len() as int);
    assert(s.take(s.len() as int) =~= s);
    lemma_chars_within_prefix(s, q);
    let s2 = s.take(q) + t + s.skip(q);
    assert(insert_at_byte(s, p, t) == s2);
    // The old stamp text holds a field, so it is not all whitespace.
    let tt = trim(raw);
    assert(stamp_text(s, st, e) == tt);
    if tt.len() == 0 {
        lemma_find_from(tt, seq![' '], 0);
        assert(stamp_fields(tt) =~= seq![tt.skip(0)]);
        assert(stamp_fields(tt)[0].len() == 0);
    }
    lemma_trim_nonempty(raw);
    // The stamp opens at the same place and closes after the inserted text.
    assert(s2.take(q) =~= s.take(q));
    lemma_find_kept_prefix(s, s2, open, q);
    assert(s2.take(st) =~= s.take(st));
    let rest = rem.skip(e);
    assert(rem =~= raw + rest);
    assert(s2.skip(st + 15) =~= raw + t + rest);
    lemma_close_after_insert(raw, t, rest);
    let e2 = e + t.len();
    // The new stamp text is the old one followed by the hashes.
    assert(s2.skip(st + 15).take(e2) =~= raw + t);
    lemma_trim_append_to_solid(raw, t);
    assert(stamp_text(s2, st, e2) == trim_start(raw) + t);
    lemma_fields_with_hashes(trim_start(raw), a, b);
    // The offset returned.
    assert(s2.take(st + 15 + e2) =~= s.take(q) + t);
    lemma_byte_len_append(s.take(q), t);
}

/// Generated hashes read back: in a comment line `s` whose stamp has no hashes
/// and closes right after its last field, inserting ` A B` (`A` and `B` decimal
/// hashes) at the byte offset that reading the line returned gives a line whose
/// stamp reads `A` as the comment hash and `B` as the code hash, with no parse
/// error and everything else read as before; the stamp then closes just after
/// the inserted text.
pub proof fn lemma_inserted_hashes_read_back(
    c: CommentModel,
    s: Seq<char>,
    a: Seq<char>,
    b: Seq<char>,
)
    requires
        !push_comment_stops(s),
        push_comment_model(c, s).1 is Some,
        push_comment_model(c, s).0.parse_error == Some(StampParseError::StampWithoutHashes),
        stamp_closes_tightly(s),
        is_hash_text(a),
        is_hash_text(b),
    ensures
        !push_comment_stops(insert_at_byte(s, push_comment_model(c, s).1->0, hash_pair(a, b))),
        push_comment_model(c, insert_at_byte(s, push_comment_model(c, s).1->0, hash_pair(a, b)))
            == (
            CommentModel {
                parse_error: None,
                comment_hash_parsed: a,
                code_hash_parsed: b,
                ..push_comment_model(c, s).0
            },
            Some(push_comment_model(c, s).1->0 + byte_len(hash_pair(a, b))),
        ),
{
    lemma_inserted_hashes_stamp_text(c, s, a, b);
    let raw = raw_stamp_text(s);
    lemma_trim_ends_solid(raw);
    let tt = stamp_start_text(s);
    assert(trim(raw) == tt);
    let st = find(s, stamp_open())->0;
    let e = find(s.skip(st + stamp_open().len()), stamp_close())->0;
    assert(stamp_text(s, st, e) == tt);
    let f = stamp_fields(tt);
    lemma_split_from_nonempty(tt, seq![' '], 0);
    assert((f + seq![a, b])[0] == f[0]);
    lemma_fields_with_hashes(tt, a, b);
}

/// Generated hashes read back past one space: in a comment line `s` whose
/// stamp holds only its line count, followed by one space before the closing
/// backticks, inserting ` A B` (`A` and `B` decimal hashes) at the byte offset
/// that reading the line returned gives a line whose stamp reads `A` as the
/// comment hash and `B` as the code hash, with no parse error and an empty
/// dependency list (the space leaves an empty field where dependencies go),
/// everything else read as before.
pub proof fn lemma_inserted_hashes_read_back_after_space(
    c: CommentModel,
    s: Seq<char>,
    a: Seq<char>,
    b: Seq<char>,
)
    requires
        !push_comment_stops(s),
        push_comment_model(c, s).1 is Some,
        raw_stamp_text(s).len() >= 2,
        raw_stamp_text(s).last() == ' ',
        !is_ws(raw_stamp_text(s)[raw_stamp_text(s).len() - 2]),
        stamp_fields(trim(raw_stamp_text(s))).len() == 1,
        is_hash_text(a),
        is_hash_text(b),
    ensures
        !push_comment_stops(insert_at_byte(s, push_comment_model(c, s).1->0, hash_pair(a, b))),
        push_comment_model(c, insert_at_byte(s, push_comment_model(c, s).1->0, hash_pair(a, b)))
            == (
            CommentModel {
                parse_error: None,
                comment_hash_parsed: a,
                code_hash_parsed: b,
                dependency_list_parsed: Seq::empty(),
                ..push_comment_model(c, s).0
            },
            Some(push_comment_model(c, s).1->0 + byte_len(hash_pair(a, b))),
        ),
{
    lemma_inserted_hashes_stamp_text(c, s, a, b);
    let raw = raw_stamp_text(s);
    let x = raw.drop_last();
    assert(raw =~= x + seq![' ']);
    assert(x.last() == raw[raw.len() - 2]);
    lemma_trim_ends_solid(x);
    lemma_ws_end_from_prefix(x, seq![' '], 0);
    let y = trim_start(x);
    assert(y == trim(x));
    lemma_ws_end_from(x, 0);
    assert(trim_start(raw) =~= y + seq![' ']);
    // Trimming the old stamp text also drops the space.
    let z = y + seq![' '];
    assert(y.len() > 0 && y.last() == x.last());
    assert(is_ws(z[z.len() - 1]));
    assert(ws_start_before(z, z.len() - 1) == z.len() - 1);
    assert(ws_start_before(z, z.len() as int) == z.len() - 1);
    assert(z.take(z.len() - 1) =~= y);
    assert(trim(raw) == y);
    // The space leaves an empty field.
    let e0 = Seq::<char>::empty();
    lemma_split_space_none(e0);
    lemma_split_space_concat(y, e0, 0);
    assert(y + seq![' '] + e0 =~= z);
    let f = stamp_fields(y);
    assert(stamp_fields(z) == f + seq![e0]);
    let f2 = stamp_fields(z + hash_pair(a, b));
    assert(f2 =~= seq![f[0], e0, a, b]);
    lemma_fields_with_hashes(z, a, b);
    // An empty dependency field lists nothing.
    lemma_find_from(e0, seq![','], 0);
    assert(split_on(e0, seq![',']) =~= seq![e0.skip(0)]);
    assert(trim(e0).len() == 0) by {
        assert(ws_end_from(e0, 0) == 0);
        assert(ws_start_before(e0.skip(0), 0) == 0);
    }
    assert(e0.skip(0) =~= e0);
    let pieces = split_on(e0, seq![',']);
    assert(pieces =~= seq![e0]);
    assert(pieces.drop_last() =~= Seq::<Seq<char>>::empty());
    assert(nonempty_trimmed(pieces.drop_last()) =~= Seq::<Seq<char>>::empty());
    assert(pieces.last() == e0);
    assert(nonempty_trimmed(pieces) =~= Seq::<Seq<char>>::empty());
    assert(num_list(e0) =~= Seq::<Seq<char>>::empty());
    let st = find(s, stamp_open())->0;
    let e = find(s.skip(st + stamp_open().len()), stamp_close())->0;
    assert(stamp_text(s, st, e) == y);
}

} // verus!
