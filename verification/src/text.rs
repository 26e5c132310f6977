//! Character-level text utilities with exact specifications.
//!
//! Text is handled as sequences of `char`; where the tool reports positions it
//! uses UTF-8 byte offsets, which `byte_len` relates to character positions.
use vstd::prelude::*;

verus! {

broadcast use vstd::seq_lib::group_seq_properties;

// ------------------------------------------------------------------------
// Whitespace
// ------------------------------------------------------------------------
/// The Unicode `White_Space` property, which is what `char::is_whitespace`,
/// `str::trim` and `str::split_whitespace` test.
pub open spec fn is_ws(c: char) -> bool {
    let u = c as u32;
    ||| 0x09 <= u && u <= 0x0D
    ||| u == 0x20
    ||| u == 0x85
    ||| u == 0xA0
    ||| u == 0x1680
    ||| 0x2000 <= u && u <= 0x200A
    ||| u == 0x2028
    ||| u == 0x2029
    ||| u == 0x202F
    ||| u == 0x205F
    ||| u == 0x3000
}

/// Whether `c` is a Unicode whitespace character.
pub fn is_whitespace(c: char) -> (r: bool)
    ensures
        r == is_ws(c),
{
    let u = c as u32;
    (0x09 <= u && u <= 0x0D) || u == 0x20 || u == 0x85 || u == 0xA0 || u == 0x1680 || (0x2000
        <= u && u <= 0x200A) || u == 0x2028 || u == 0x2029 || u == 0x202F || u == 0x205F || u
        == 0x3000
}

// ------------------------------------------------------------------------
// UTF-8 lengths
// ------------------------------------------------------------------------
/// Number of bytes of the UTF-8 encoding of `c`.
pub open spec fn utf8_width(c: char) -> nat {
    let u = c as u32;
    if u < 0x80 {
        1
    } else if u < 0x800 {
        2
    } else if u < 0x10000 {
        3
    } else {
        4
    }
}

/// Number of bytes of the UTF-8 encoding of `s` (what `str::len` returns).
pub open spec fn byte_len(s: Seq<char>) -> nat
    decreases s.len(),
{
    if s.len() == 0 {
        0
    } else {
        utf8_width(s[0]) + byte_len(s.drop_first())
    }
}

/// The byte length of a concatenation is the sum of the byte lengths.
pub proof fn lemma_byte_len_append(a: Seq<char>, b: Seq<char>)
    ensures
        byte_len(a + b) == byte_len(a) + byte_len(b),
    decreases a.len(),
{
    if a.len() == 0 {
        assert(a + b =~= b);
    } else {
        assert((a + b).drop_first() =~= a.drop_first() + b);
        lemma_byte_len_append(a.drop_first(), b);
    }
}

/// A prefix is never longer in bytes than the sequence it is taken from.
pub proof fn lemma_byte_len_take(s: Seq<char>, i: int, j: int)
    requires
        0 <= i <= j <= s.len(),
    ensures
        byte_len(s.take(i)) <= byte_len(s.take(j)),
        byte_len(s.take(j)) <= byte_len(s),
        byte_len(s.take(j)) == byte_len(s.take(i)) + byte_len(s.subrange(i, j)),
{
    assert(s.take(j) =~= s.take(i) + s.subrange(i, j));
    lemma_byte_len_append(s.take(i), s.subrange(i, j));
    assert(s =~= s.take(j) + s.skip(j));
    lemma_byte_len_append(s.take(j), s.skip(j));
}

/// Extending a sequence by one character adds that character's width.
pub proof fn lemma_byte_len_push(s: Seq<char>, c: char)
    ensures
        byte_len(s.push(c)) == byte_len(s) + utf8_width(c),
{
    assert(s.push(c) =~= s + seq![c]);
    lemma_byte_len_append(s, seq![c]);
    assert(seq![c].drop_first() =~= Seq::<char>::empty());
    assert(byte_len(Seq::<char>::empty()) == 0);
    assert(byte_len(seq![c]) == utf8_width(c) + byte_len(seq![c].drop_first()));
}

/// `byte_len` is the length of vstd's UTF-8 encoding of the same characters.
pub proof fn lemma_byte_len_utf8(s: Seq<char>)
    ensures
        byte_len(s) == vstd::utf8::encode_utf8(s).len(),
    decreases s.len(),
{
    if s.len() > 0 {
        vstd::utf8::char_is_scalar(s[0]);
        lemma_byte_len_utf8(s.drop_first());
    }
}

/// The byte length of a string slice (`str::len`).
pub fn str_byte_len(s: &str) -> (r: usize)
    ensures
        r == byte_len(s@),
{
    let b = s.as_bytes();
    proof {
        lemma_byte_len_utf8(s@);
    }
    b.len()
}

/// Width in bytes of the UTF-8 encoding of `c` (`char::len_utf8`).
pub fn char_width(c: char) -> (r: usize)
    ensures
        r == utf8_width(c),
        1 <= r <= 4,
{
    let u = c as u32;
    if u < 0x80 {
        1
    } else if u < 0x800 {
        2
    } else if u < 0x10000 {
        3
    } else {
        4
    }
}

/// The byte length of `s`, when it fits in a `usize`.
pub fn byte_len_of(s: &Vec<char>) -> (r: usize)
    requires
        byte_len(s@) <= usize::MAX,
    ensures
        r == byte_len(s@),
{
    let mut total: usize = 0;
    let mut i: usize = 0;
    while i < s.len()
        invariant
            i <= s.len(),
            total == byte_len(s@.take(i as int)),
            byte_len(s@) <= usize::MAX,
        decreases s.len() - i,
    {
        proof {
            lemma_byte_len_take(s@, i as int + 1, s.len() as int);
            assert(s@.take(i as int + 1) =~= s@.take(i as int).push(s@[i as int]));
            lemma_byte_len_push(s@.take(i as int), s@[i as int]);
        }
        total = total + char_width(s[i]);
        i = i + 1;
    }
    assert(s@.take(s.len() as int) =~= s@);
    total
}

// ------------------------------------------------------------------------
// Conversions between `str`, `String` and `Vec<char>`
// ------------------------------------------------------------------------
/// Appends one character to a string (`String::push`).
#[verifier::external_body]
pub(crate) fn push_char(s: &mut String, c: char)
    ensures
        final(s)@ == old(s)@.push(c),
{
    s.push(c)
}

/// The characters of a string slice, in order.
pub fn chars_of(s: &str) -> (r: Vec<char>)
    ensures
        r@ == s@,
{
    let mut r: Vec<char> = Vec::new();
    broadcast use vstd::string::group_string_axioms;

    for c in it: s.chars()
        invariant
            r@ == it.seq().take(it.index() as int),
            it.seq() == s@,
    {
        r.push(c);
    }
    r
}

/// The string made of the given characters.
pub fn string_of(v: &Vec<char>) -> (r: String)
    ensures
        r@ == v@,
{
    let mut r = String::new();
    let mut i: usize = 0;
    while i < v.len()
        invariant
            i <= v.len(),
            r@ == v@.take(i as int),
        decreases v.len() - i,
    {
        push_char(&mut r, v[i]);
        assert(v@.take(i as int + 1) =~= v@.take(i as int).push(v@[i as int]));
        i = i + 1;
    }
    assert(v@.take(v.len() as int) =~= v@);
    r
}

/// Appends the characters of `w` to `v`.
pub fn extend_chars(v: &mut Vec<char>, w: &Vec<char>)
    ensures
        final(v)@ == old(v)@ + w@,
{
    let mut i: usize = 0;
    while i < w.len()
        invariant
            i <= w.len(),
            v@ == old(v)@ + w@.take(i as int),
        decreases w.len() - i,
    {
        v.push(w[i]);
        assert(w@.take(i as int + 1) =~= w@.take(i as int).push(w@[i as int]));
        i = i + 1;
    }
    assert(w@.take(w.len() as int) =~= w@);
}

/// A copy of the characters `v[from..to]`.
pub fn sub_chars(v: &Vec<char>, from: usize, to: usize) -> (r: Vec<char>)
    requires
        from <= to <= v.len(),
    ensures
        r@ == v@.subrange(from as int, to as int),
{
    let mut r: Vec<char> = Vec::new();
    let mut i: usize = from;
    while i < to
        invariant
            from <= i <= to <= v.len(),
            r@ == v@.subrange(from as int, i as int),
        decreases to - i,
    {
        r.push(v[i]);
        assert(v@.subrange(from as int, i as int + 1) =~= v@.subrange(from as int, i as int).push(
            v@[i as int],
        ));
        i = i + 1;
    }
    r
}

/// Whether two character vectors hold the same characters.
pub fn chars_eq(a: &Vec<char>, b: &Vec<char>) -> (r: bool)
    ensures
        r == (a@ == b@),
{
    if a.len() != b.len() {
        return false;
    }
    let mut i: usize = 0;
    while i < a.len()
        invariant
            a.len() == b.len(),
            i <= a.len(),
            forall|k: int| 0 <= k < i ==> a@[k] == b@[k],
        decreases a.len() - i,
    {
        if a[i] != b[i] {
            return false;
        }
        i = i + 1;
    }
    assert(a@ =~= b@);
    true
}

/// Appends the characters of `s` to `v`.
pub fn push_str_chars(v: &mut Vec<char>, s: &str)
    ensures
        final(v)@ == old(v)@ + s@,
{
    let w = chars_of(s);
    extend_chars(v, &w);
}

/// The items joined, with `sep` between consecutive ones.
pub open spec fn join(items: Seq<Seq<char>>, sep: Seq<char>) -> Seq<char>
    decreases items.len(),
{
    if items.len() == 0 {
        Seq::empty()
    } else if items.len() == 1 {
        items[0]
    } else {
        join(items.drop_last(), sep) + sep + items.last()
    }
}

// ------------------------------------------------------------------------
// Prefixes and searching
// ------------------------------------------------------------------------
/// `s` begins with `p`.
pub open spec fn starts_with(s: Seq<char>, p: Seq<char>) -> bool {
    p.len() <= s.len() && s.take(p.len() as int) == p
}

/// `p` occurs in `s` at position `i`.
pub open spec fn matches_at(s: Seq<char>, p: Seq<char>, i: int) -> bool {
    0 <= i && i + p.len() <= s.len() && s.subrange(i, i + p.len()) == p
}

/// The first position at or after `i` where `p` occurs in `s`.
pub open spec fn find_from(s: Seq<char>, p: Seq<char>, i: int) -> Option<int>
    decreases s.len() + 1 - i,
{
    if i < 0 || i + p.len() > s.len() {
        None
    } else if matches_at(s, p, i) {
        Some(i)
    } else {
        find_from(s, p, i + 1)
    }
}

/// The first position where `p` occurs in `s` (what `str::find` gives, counted in characters).
pub open spec fn find(s: Seq<char>, p: Seq<char>) -> Option<int> {
    find_from(s, p, 0)
}

/// What a search result says: the match is real and is the first one.
pub proof fn lemma_find_from(s: Seq<char>, p: Seq<char>, i: int)
    requires
        0 <= i,
    ensures
        match find_from(s, p, i) {
            Some(k) => i <= k && matches_at(s, p, k) && forall|j: int|
                i <= j < k ==> !matches_at(s, p, j),
            None => forall|j: int| i <= j ==> !matches_at(s, p, j),
        },
    decreases s.len() + 1 - i,
{
    if i + p.len() > s.len() {
    } else if matches_at(s, p, i) {
    } else {
        lemma_find_from(s, p, i + 1);
    }
}

/// Whether `p` occurs in `s` at position `i`.
pub fn matches_at_exec(s: &Vec<char>, p: &Vec<char>, i: usize) -> (r: bool)
    ensures
        r == matches_at(s@, p@, i as int),
{
    if i > s.len() || p.len() > s.len() - i {
        return false;
    }
    let mut j: usize = 0;
    while j < p.len()
        invariant
            i + p.len() <= s.len(),
            j <= p.len(),
            forall|k: int| 0 <= k < j ==> s@[i + k] == p@[k],
        decreases p.len() - j,
    {
        if s[i + j] != p[j] {
            assert(s@.subrange(i as int, i + p.len())[j as int] != p@[j as int]);
            return false;
        }
        j = j + 1;
    }
    assert(s@.subrange(i as int, i + p.len()) =~= p@);
    true
}

/// The first position at or after `from` where `p` occurs in `s`.
pub fn find_from_exec(s: &Vec<char>, p: &Vec<char>, from: usize) -> (r: Option<usize>)
    ensures
        match r {
            Some(k) => find_from(s@, p@, from as int) == Some(k as int),
            None => find_from(s@, p@, from as int) is None,
        },
{
    let mut i: usize = from;
    while i <= s.len() && p.len() <= s.len() - i
        invariant
            from <= i,
            find_from(s@, p@, from as int) == find_from(s@, p@, i as int),
        decreases s.len() + 1 - i,
    {
        if matches_at_exec(s, p, i) {
            return Some(i);
        }
        if p.len() == 0 {
            assert(s@.subrange(i as int, i as int) =~= p@);
        }
        i = i + 1;
    }
    None
}

/// Whether `s` begins with `p`.
pub fn starts_with_exec(s: &Vec<char>, p: &Vec<char>) -> (r: bool)
    ensures
        r == starts_with(s@, p@),
{
    let r = matches_at_exec(s, p, 0);
    proof {
        if r {
            assert(s@.take(p@.len() as int) =~= s@.subrange(0, p@.len() as int));
        } else if p@.len() <= s@.len() {
            assert(s@.take(p@.len() as int) =~= s@.subrange(0, p@.len() as int));
        }
    }
    r
}

/// Whether `c` occurs in `s`.
pub fn contains_char(s: &Vec<char>, c: char) -> (r: bool)
    ensures
        r == s@.contains(c),
{
    let mut i: usize = 0;
    while i < s.len()
        invariant
            i <= s.len(),
            forall|k: int| 0 <= k < i ==> s@[k] != c,
        decreases s.len() - i,
    {
        if s[i] == c {
            return true;
        }
        i = i + 1;
    }
    false
}

// ------------------------------------------------------------------------
// Trimming
// ------------------------------------------------------------------------
/// The first position at or after `i` that does not hold whitespace.
pub open spec fn ws_end_from(s: Seq<char>, i: int) -> int
    decreases s.len() - i,
{
    if 0 <= i < s.len() && is_ws(s[i]) {
        ws_end_from(s, i + 1)
    } else {
        i
    }
}

/// The start of the run of whitespace that ends just before position `j`.
pub open spec fn ws_start_before(s: Seq<char>, j: int) -> int
    decreases j,
{
    if 0 < j <= s.len() && is_ws(s[j - 1]) {
        ws_start_before(s, j - 1)
    } else {
        j
    }
}

/// `s` without its leading whitespace (`str::trim_start`).
pub open spec fn trim_start(s: Seq<char>) -> Seq<char> {
    s.skip(ws_end_from(s, 0))
}

/// `s` without its trailing whitespace (`str::trim_end`).
pub open spec fn trim_end(s: Seq<char>) -> Seq<char> {
    s.take(ws_start_before(s, s.len() as int))
}

/// `s` without leading and trailing whitespace (`str::trim`).
pub open spec fn trim(s: Seq<char>) -> Seq<char> {
    trim_end(trim_start(s))
}

pub proof fn lemma_ws_end_from(s: Seq<char>, i: int)
    requires
        0 <= i <= s.len(),
    ensures
        i <= ws_end_from(s, i) <= s.len(),
        forall|k: int| i <= k < ws_end_from(s, i) ==> is_ws(s[k]),
        ws_end_from(s, i) < s.len() ==> !is_ws(s[ws_end_from(s, i)]),
    decreases s.len() - i,
{
    if i < s.len() && is_ws(s[i]) {
        lemma_ws_end_from(s, i + 1);
    }
}

pub proof fn lemma_ws_start_before(s: Seq<char>, j: int)
    requires
        0 <= j <= s.len(),
    ensures
        0 <= ws_start_before(s, j) <= j,
        forall|k: int| ws_start_before(s, j) <= k < j ==> is_ws(s[k]),
        ws_start_before(s, j) > 0 ==> !is_ws(s[ws_start_before(s, j) - 1]),
    decreases j,
{
    if 0 < j && is_ws(s[j - 1]) {
        lemma_ws_start_before(s, j - 1);
    }
}

/// Position of the first non-whitespace character of `s` (or its length).
pub fn trim_start_index(s: &Vec<char>) -> (r: usize)
    ensures
        r == ws_end_from(s@, 0),
        r <= s.len(),
{
    let mut i: usize = 0;
    while i < s.len() && is_whitespace(s[i])
        invariant
            i <= s.len(),
            ws_end_from(s@, 0) == ws_end_from(s@, i as int),
        decreases s.len() - i,
    {
        i = i + 1;
    }
    proof {
        lemma_ws_end_from(s@, i as int);
    }
    i
}

/// Position just after the last non-whitespace character of `s` (or 0).
pub fn trim_end_index(s: &Vec<char>) -> (r: usize)
    ensures
        r == ws_start_before(s@, s.len() as int),
        r <= s.len(),
{
    let mut j: usize = s.len();
    while j > 0 && is_whitespace(s[j - 1])
        invariant
            j <= s.len(),
            ws_start_before(s@, s.len() as int) == ws_start_before(s@, j as int),
        decreases j,
    {
        j = j - 1;
    }
    proof {
        lemma_ws_start_before(s@, j as int);
    }
    j
}

/// `s` without leading whitespace.
pub fn trim_start_chars(s: &Vec<char>) -> (r: Vec<char>)
    ensures
        r@ == trim_start(s@),
{
    let a = trim_start_index(s);
    sub_chars(s, a, s.len())
}

/// `s` without trailing whitespace.
pub fn trim_end_chars(s: &Vec<char>) -> (r: Vec<char>)
    ensures
        r@ == trim_end(s@),
{
    let b = trim_end_index(s);
    sub_chars(s, 0, b)
}

/// `s` without leading and trailing whitespace.
pub fn trim_chars(s: &Vec<char>) -> (r: Vec<char>)
    ensures
        r@ == trim(s@),
{
    let t = trim_start_chars(s);
    trim_end_chars(&t)
}

// ------------------------------------------------------------------------
// Splitting
// ------------------------------------------------------------------------
/// The pieces of `s` from position `i` on, separated by occurrences of `p`
/// (`str::split` with a string pattern).
pub open spec fn split_from(s: Seq<char>, p: Seq<char>, i: int) -> Seq<Seq<char>>
    decreases s.len() + 1 - i,
{
    if 0 <= i <= s.len() && p.len() > 0 && find_from(s, p, i) is Some {
        let k = find_from(s, p, i)->0;
        if i <= k && k + p.len() <= s.len() {
            seq![s.subrange(i, k)] + split_from(s, p, k + p.len())
        } else {
            seq![s.skip(i)]
        }
    } else {
        seq![s.skip(i)]
    }
}

/// The pieces of `s` separated by occurrences of the non-empty pattern `p`.
pub open spec fn split_on(s: Seq<char>, p: Seq<char>) -> Seq<Seq<char>> {
    split_from(s, p, 0)
}

/// The views of a vector of character vectors.
pub open spec fn views_of(v: Seq<Vec<char>>) -> Seq<Seq<char>> {
    v.map_values(|w: Vec<char>| w@)
}

/// The views of a vector of strings.
pub open spec fn string_views(v: Seq<String>) -> Seq<Seq<char>> {
    v.map_values(|w: String| w@)
}

/// Splits `s` at every occurrence of the non-empty pattern `p`.
pub fn split_chars(s: &Vec<char>, p: &Vec<char>) -> (r: Vec<Vec<char>>)
    requires
        p.len() > 0,
    ensures
        views_of(r@) == split_on(s@, p@),
        r.len() >= 1,
{
    let mut pieces: Vec<Vec<char>> = Vec::new();
    let mut pos: usize = 0;
    loop
        invariant
            pos <= s.len(),
            p.len() > 0,
            views_of(pieces@) + split_from(s@, p@, pos as int) == split_on(s@, p@),
        decreases s.len() + 1 - pos,
    {
        let found = find_from_exec(s, p, pos);
        proof {
            lemma_find_from(s@, p@, pos as int);
        }
        match found {
            Some(k) => {
                let piece = sub_chars(s, pos, k);
                let ghost before = pieces@;
                pieces.push(piece);
                proof {
                    assert(views_of(pieces@) =~= views_of(before).push(piece@));
                    assert(views_of(before) + split_from(s@, p@, pos as int) =~= views_of(
                        before,
                    ).push(piece@) + split_from(s@, p@, k + p.len()));
                }
                pos = k + p.len();
            },
            None => {
                let piece = sub_chars(s, pos, s.len());
                let ghost before = pieces@;
                pieces.push(piece);
                proof {
                    assert(views_of(pieces@) =~= views_of(before).push(piece@));
                    assert(views_of(before) + split_from(s@, p@, pos as int) =~= views_of(
                        pieces@,
                    ));
                }
                return pieces;
            },
        }
    }
}

/// The maximal runs of non-whitespace characters of `s` (`str::split_whitespace`).
pub open spec fn split_ws(s: Seq<char>) -> Seq<Seq<char>>
    decreases s.len(),
{
    if s.len() == 0 {
        seq![]
    } else {
        let p = split_ws(s.drop_last());
        let c = s.last();
        if is_ws(c) {
            p
        } else if s.len() >= 2 && !is_ws(s[s.len() - 2]) {
            p.update(p.len() - 1, p.last().push(c))
        } else {
            p.push(seq![c])
        }
    }
}

/// Splits `s` into its whitespace-separated words.
pub fn split_whitespace_chars(s: &Vec<char>) -> (r: Vec<Vec<char>>)
    ensures
        views_of(r@) == split_ws(s@),
{
    let mut words: Vec<Vec<char>> = Vec::new();
    let mut cur: Vec<char> = Vec::new();
    let mut in_word = false;
    let mut i: usize = 0;
    while i < s.len()
        invariant
            i <= s.len(),
            in_word == (i > 0 && !is_ws(s@[i - 1])),
            in_word ==> split_ws(s@.take(i as int)) == views_of(words@).push(cur@),
            !in_word ==> split_ws(s@.take(i as int)) == views_of(words@),
        decreases s.len() - i,
    {
        let c = s[i];
        let ghost prev = s@.take(i as int);
        let ghost next = s@.take(i as int + 1);
        assert(next.drop_last() =~= prev);
        assert(next.last() == c);
        if is_whitespace(c) {
            if in_word {
                let w = cur;
                cur = Vec::new();
                let ghost before = words@;
                words.push(w);
                assert(views_of(words@) =~= views_of(before).push(w@));
            }
            in_word = false;
        } else {
            if in_word {
                let ghost old_cur = cur@;
                cur.push(c);
                assert(i >= 1 && next[i - 1] == s@[i - 1]);
                assert(split_ws(next) == split_ws(prev).update(
                    split_ws(prev).len() - 1,
                    split_ws(prev).last().push(c),
                ));
                assert(split_ws(next) =~= views_of(words@).push(cur@));
            } else {
                cur = Vec::new();
                cur.push(c);
                assert(cur@ =~= seq![c]);
                assert(i >= 1 ==> next[i - 1] == s@[i - 1]);
            }
            in_word = true;
        }
        i = i + 1;
    }
    assert(s@.take(s.len() as int) =~= s@);
    if in_word {
        let ghost before = words@;
        words.push(cur);
        assert(views_of(words@) =~= views_of(before).push(cur@));
    }
    words
}

/// The last line of `s` loses a trailing carriage return only when it was
/// terminated by a newline.
pub open spec fn strip_cr(l: Seq<char>) -> Seq<char> {
    if l.len() > 0 && l.last() == '\r' {
        l.drop_last()
    } else {
        l
    }
}

/// The lines of `s` (`str::lines`): split at `\n`, a `\r` before the `\n` is
/// dropped, and a final empty piece after the last `\n` is not a line.
pub open spec fn lines_of(s: Seq<char>) -> Seq<Seq<char>> {
    let parts = split_on(s, seq!['\n']);
    let n = parts.len();
    let init = parts.take(n - 1).map_values(|l: Seq<char>| strip_cr(l));
    if parts[n - 1].len() == 0 {
        init
    } else {
        init.push(parts[n - 1])
    }
}

pub proof fn lemma_split_from_nonempty(s: Seq<char>, p: Seq<char>, i: int)
    ensures
        split_from(s, p, i).len() >= 1,
    decreases s.len() + 1 - i,
{
    if 0 <= i <= s.len() && p.len() > 0 && find_from(s, p, i) is Some {
        let k = find_from(s, p, i)->0;
        if i <= k && k + p.len() <= s.len() {
            lemma_split_from_nonempty(s, p, k + p.len());
        }
    }
}

/// Removes a final carriage return from a line.
pub fn strip_cr_chars(l: Vec<char>) -> (r: Vec<char>)
    ensures
        r@ == strip_cr(l@),
{
    let mut l = l;
    if l.len() > 0 && l[l.len() - 1] == '\r' {
        l.pop();
    }
    l
}

/// Splits `s` into lines.
pub fn lines_chars(s: &Vec<char>) -> (r: Vec<Vec<char>>)
    ensures
        views_of(r@) == lines_of(s@),
{
    let mut nl: Vec<char> = Vec::new();
    nl.push('\n');
    assert(nl@ =~= seq!['\n']);
    let parts = split_chars(s, &nl);
    let n = parts.len();
    let mut r: Vec<Vec<char>> = Vec::new();
    let mut i: usize = 0;
    let ghost parts_v = views_of(parts@);
    while i + 1 < n
        invariant
            n == parts.len(),
            n >= 1,
            i + 1 <= n,
            parts_v == views_of(parts@),
            parts_v == split_on(s@, seq!['\n']),
            views_of(r@) == parts_v.take(i as int).map_values(|l: Seq<char>| strip_cr(l)),
        decreases n - i,
    {
        let piece = strip_cr_chars(parts[i].clone());
        let ghost before = r@;
        r.push(piece);
        proof {
            assert(parts_v[i as int] == parts@[i as int]@);
            assert(views_of(r@) =~= views_of(before).push(piece@));
            assert(parts_v.take(i as int + 1).map_values(|l: Seq<char>| strip_cr(l))
                =~= parts_v.take(i as int).map_values(|l: Seq<char>| strip_cr(l)).push(
                strip_cr(parts_v[i as int]),
            ));
        }
        i = i + 1;
    }
    if parts[n - 1].len() > 0 {
        let last = parts[n - 1].clone();
        let ghost before = r@;
        r.push(last);
        assert(views_of(r@) =~= views_of(before).push(last@));
    }
    r
}

// ------------------------------------------------------------------------
// Decimal numbers
// ------------------------------------------------------------------------
/// The decimal digit character for `d < 10`.
pub open spec fn digit_char(d: nat) -> char {
    (d + 48) as char
}

/// The decimal representation of `n`, without sign or leading zeros.
pub open spec fn decimal(n: nat) -> Seq<char>
    decreases n,
{
    if n < 10 {
        seq![digit_char(n)]
    } else {
        decimal(n / 10).push(digit_char(n % 10))
    }
}

/// The decimal representation of `n`.
pub fn decimal_chars(n: u128) -> (r: Vec<char>)
    ensures
        r@ == decimal(n as nat),
    decreases n,
{
    let d = (n % 10) as u8;
    let c = (48u8 + d) as char;
    assert(c == digit_char((n % 10) as nat));
    if n < 10 {
        let mut r: Vec<char> = Vec::new();
        r.push(c);
        assert(r@ =~= seq![c]);
        r
    } else {
        let mut r = decimal_chars(n / 10);
        r.push(c);
        r
    }
}

/// An ASCII decimal digit.
pub open spec fn is_digit(c: char) -> bool {
    '0' <= c && c <= '9'
}

/// The value of a sequence of decimal digits.
pub open spec fn digits_value(d: Seq<char>) -> nat
    decreases d.len(),
{
    if d.len() == 0 {
        0
    } else {
        digits_value(d.drop_last()) * 10 + ((d.last() as int - 48) as nat)
    }
}

/// `s` without an optional leading `+`.
pub open spec fn parse_digits_part(s: Seq<char>) -> Seq<char> {
    if s.len() > 0 && s[0] == '+' {
        s.drop_first()
    } else {
        s
    }
}

/// The unsigned integer that `s` denotes, if it is at most `max`: what
/// `str::parse` gives for the unsigned integer types (an optional `+`, then
/// at least one ASCII digit, and nothing else).
pub open spec fn parse_unsigned(s: Seq<char>, max: nat) -> Option<nat> {
    let d = parse_digits_part(s);
    if d.len() == 0 || !(forall|i: int| 0 <= i < d.len() ==> is_digit(#[trigger] d[i]))
        || digits_value(d) > max {
        None
    } else {
        Some(digits_value(d))
    }
}

proof fn lemma_digits_value_grows(d: Seq<char>, i: int)
    requires
        0 <= i <= d.len(),
        forall|k: int| 0 <= k < d.len() ==> is_digit(#[trigger] d[k]),
    ensures
        digits_value(d.take(i)) <= digits_value(d),
    decreases d.len() - i,
{
    if i < d.len() {
        let t = d.take(i + 1);
        assert(t.drop_last() =~= d.take(i));
        assert(is_digit(d[i]));
        lemma_digits_value_grows(d, i + 1);
    } else {
        assert(d.take(i) =~= d);
    }
}

/// Parses an unsigned decimal number no greater than `max`.
pub fn parse_unsigned_chars(s: &Vec<char>, max: u64) -> (r: Option<u64>)
    ensures
        match r {
            Some(v) => parse_unsigned(s@, max as nat) == Some(v as nat),
            None => parse_unsigned(s@, max as nat) is None,
        },
{
    let start: usize = if s.len() > 0 && s[0] == '+' {
        1
    } else {
        0
    };
    let ghost d = parse_digits_part(s@);
    assert(d =~= s@.skip(start as int));
    if start >= s.len() {
        return None;
    }
    let mut acc: u128 = 0;
    let mut i: usize = start;
    while i < s.len()
        invariant
            start <= i <= s.len(),
            d == s@.skip(start as int),
            d == parse_digits_part(s@),
            forall|k: int| start <= k < i ==> is_digit(#[trigger] s@[k]),
            acc == digits_value(d.take(i - start)),
            acc <= max,
        decreases s.len() - i,
    {
        let c = s[i];
        if !('0' <= c && c <= '9') {
            assert(!is_digit(d[i - start]));
            assert(!(forall|k: int| 0 <= k < d.len() ==> is_digit(#[trigger] d[k])));
            return None;
        }
        let ghost t = d.take(i - start + 1);
        assert(t.drop_last() =~= d.take(i - start));
        assert(t.last() == c);
        acc = acc * 10 + ((c as u32 - 48) as u128);
        if acc > max as u128 {
            proof {
                let ghost j = i - start + 1;
                if forall|k: int| 0 <= k < d.len() ==> is_digit(#[trigger] d[k]) {
                    lemma_digits_value_grows(d, j);
                }
                assert(parse_unsigned(s@, max as nat) is None);
            }
            return None;
        }
        i = i + 1;
    }
    assert(d.take(i - start) =~= d);
    assert forall|k: int| 0 <= k < d.len() implies is_digit(#[trigger] d[k]) by {
        assert(d[k] == s@[k + start]);
    }
    Some(acc as u64)
}

/// The decimal form of a number is a non-empty run of digits with that value.
pub proof fn lemma_decimal_digits(n: nat)
    ensures
        decimal(n).len() > 0,
        forall|i: int| 0 <= i < decimal(n).len() ==> is_digit(#[trigger] decimal(n)[i]),
        digits_value(decimal(n)) == n,
    decreases n,
{
    let d = digit_char(n % 10);
    assert((n % 10 + 48) as char as int == n % 10 + 48);
    if n < 10 {
        assert(decimal(n) == seq![d]);
        assert(seq![d].drop_last() =~= Seq::<char>::empty());
        assert(digits_value(Seq::<char>::empty()) == 0);
        assert(digits_value(seq![d]) == digits_value(seq![d].drop_last()) * 10 + ((d as int
            - 48) as nat));
    } else {
        lemma_decimal_digits(n / 10);
        let x = decimal(n);
        assert(x.drop_last() =~= decimal(n / 10));
        assert(x.last() == d);
        assert(digits_value(x) == digits_value(x.drop_last()) * 10 + ((d as int - 48) as nat));
        assert(n == (n / 10) * 10 + n % 10);
    }
}

/// Reading back the decimal form of a number gives the number.
pub proof fn lemma_parse_decimal(n: nat, max: nat)
    requires
        n <= max,
    ensures
        parse_unsigned(decimal(n), max) == Some(n),
{
    lemma_decimal_digits(n);
    assert(is_digit(decimal(n)[0]));
    assert(parse_digits_part(decimal(n)) == decimal(n));
}

// ------------------------------------------------------------------------
// Facts about searching, splitting and trimming
// ------------------------------------------------------------------------
/// A match with none before it (from `i` on) is what a search from `i` finds.
pub proof fn lemma_find_from_first(s: Seq<char>, p: Seq<char>, i: int, k: int)
    requires
        0 <= i <= k,
        matches_at(s, p, k),
        forall|j: int| i <= j < k ==> !matches_at(s, p, j),
    ensures
        find_from(s, p, i) == Some(k),
    decreases k - i,
{
    if i < k {
        assert(!matches_at(s, p, i));
        lemma_find_from_first(s, p, i + 1, k);
    }
}

/// Searching `w + y` from inside `y` is searching `y`, shifted by `w`'s length.
pub proof fn lemma_find_from_shift(w: Seq<char>, y: Seq<char>, p: Seq<char>, j: int)
    requires
        0 <= j,
    ensures
        find_from(w + y, p, w.len() + j) == (match find_from(y, p, j) {
            Some(k) => Some(k + w.len()),
            None => None,
        }),
    decreases y.len() + 1 - j,
{
    let z = w + y;
    if j + p.len() <= y.len() {
        assert(z.subrange(w.len() + j, w.len() + j + p.len()) =~= y.subrange(j, j + p.len()));
        if !matches_at(y, p, j) {
            lemma_find_from_shift(w, y, p, j + 1);
            assert(w.len() + j + 1 == w.len() + (j + 1));
        }
    }
}

/// Splitting `w + y` from inside `y` is splitting `y`.
pub proof fn lemma_split_shift(w: Seq<char>, y: Seq<char>, p: Seq<char>, j: int)
    requires
        0 <= j <= y.len(),
        p.len() > 0,
    ensures
        split_from(w + y, p, w.len() + j) == split_from(y, p, j),
    decreases y.len() + 1 - j,
{
    let z = w + y;
    lemma_find_from_shift(w, y, p, j);
    match find_from(y, p, j) {
        Some(k) => {
            lemma_find_from(y, p, j);
            assert(z.subrange(w.len() + j, w.len() + k) =~= y.subrange(j, k));
            lemma_split_shift(w, y, p, k + p.len());
            assert(w.len() + k + p.len() == w.len() + (k + p.len()));
        },
        None => {
            assert(z.skip(w.len() + j) =~= y.skip(j));
        },
    }
}

/// Splitting on spaces: a space between `x` and `y` separates their pieces.
pub proof fn lemma_split_space_concat(x: Seq<char>, y: Seq<char>, i: int)
    requires
        0 <= i <= x.len(),
    ensures
        split_from(x + seq![' '] + y, seq![' '], i) == split_from(x, seq![' '], i) + split_from(
            y,
            seq![' '],
            0,
        ),
    decreases x.len() - i,
{
    let sp = seq![' '];
    let z = x + sp + y;
    assert forall|j: int| 0 <= j < x.len() implies #[trigger] matches_at(z, sp, j) == matches_at(
        x,
        sp,
        j,
    ) by {
        assert(z.subrange(j, j + 1) =~= seq![z[j]]);
        assert(x.subrange(j, j + 1) =~= seq![x[j]]);
    }
    assert(matches_at(z, sp, x.len() as int)) by {
        assert(z.subrange(x.len() as int, x.len() + 1int) =~= sp);
    }
    lemma_find_from(x, sp, i);
    match find_from(x, sp, i) {
        Some(k) => {
            lemma_find_from_first(z, sp, i, k);
            assert(z.subrange(i, k) =~= x.subrange(i, k));
            lemma_split_space_concat(x, y, k + 1);
            assert(split_from(z, sp, i) =~= split_from(x, sp, i) + split_from(y, sp, 0));
        },
        None => {
            lemma_find_from_first(z, sp, i, x.len() as int);
            assert(z.subrange(i, x.len() as int) =~= x.skip(i));
            assert(z =~= (x + sp) + y);
            lemma_split_shift(x + sp, y, sp, 0);
            assert(split_from(z, sp, i) =~= split_from(x, sp, i) + split_from(y, sp, 0));
        },
    }
}

/// A text without spaces splits on spaces into itself.
pub proof fn lemma_split_space_none(a: Seq<char>)
    requires
        forall|k: int| 0 <= k < a.len() ==> a[k] != ' ',
    ensures
        split_on(a, seq![' ']) == seq![a],
{
    let sp = seq![' '];
    lemma_find_from(a, sp, 0);
    if let Some(k) = find_from(a, sp, 0) {
        assert(a.subrange(k, k + 1)[0] == a[k]);
    }
    assert(a.skip(0) =~= a);
}

/// Leading whitespace that ends inside `x` ends at the same place in `x + y`.
pub proof fn lemma_ws_end_from_prefix(x: Seq<char>, y: Seq<char>, i: int)
    requires
        0 <= i <= x.len(),
        ws_end_from(x, i) < x.len(),
    ensures
        ws_end_from(x + y, i) == ws_end_from(x, i),
    decreases x.len() - i,
{
    if i < x.len() && is_ws(x[i]) {
        lemma_ws_end_from_prefix(x, y, i + 1);
    }
}

/// Trimming a text that ends with a non-whitespace character only removes
/// its leading whitespace.
pub proof fn lemma_trim_ends_solid(s: Seq<char>)
    requires
        s.len() > 0,
        !is_ws(s.last()),
    ensures
        ws_end_from(s, 0) < s.len(),
        trim(s) == s.skip(ws_end_from(s, 0)),
{
    lemma_ws_end_from(s, 0);
    let w = ws_end_from(s, 0);
    if w == s.len() {
        assert(is_ws(s[s.len() - 1]));
    }
    let t = s.skip(w);
    assert(t.last() == s.last());
    assert(ws_start_before(t, t.len() as int) == t.len());
    assert(t.take(t.len() as int) =~= t);
}

/// A non-empty text without whitespace is its own trim.
pub proof fn lemma_trim_solid(s: Seq<char>)
    requires
        s.len() > 0,
        forall|k: int| 0 <= k < s.len() ==> !is_ws(#[trigger] s[k]),
    ensures
        trim(s) == s,
{
    assert(!is_ws(s[0]));
    assert(ws_end_from(s, 0) == 0);
    lemma_trim_ends_solid(s);
    assert(s.skip(0) =~= s);
}

/// Appending a text that ends with a non-whitespace character to a text that
/// holds a non-whitespace character trims only the leading whitespace.
pub proof fn lemma_trim_append_to_solid(x: Seq<char>, y: Seq<char>)
    requires
        ws_end_from(x, 0) < x.len(),
        y.len() > 0,
        !is_ws(y.last()),
    ensures
        trim(x + y) == trim_start(x) + y,
{
    lemma_ws_end_from(x, 0);
    let z = x + y;
    assert(z.last() == y.last());
    lemma_trim_ends_solid(z);
    lemma_ws_end_from_prefix(x, y, 0);
    assert(z.skip(ws_end_from(x, 0)) =~= x.skip(ws_end_from(x, 0)) + y);
}

/// A text whose trim is not empty holds a non-whitespace character.
pub proof fn lemma_trim_nonempty(x: Seq<char>)
    requires
        trim(x).len() > 0,
    ensures
        ws_end_from(x, 0) < x.len(),
{
    lemma_ws_end_from(x, 0);
    if ws_end_from(x, 0) >= x.len() {
        assert(trim_start(x).len() == 0);
        assert(ws_start_before(trim_start(x), 0) == 0);
    }
}

} // verus!
