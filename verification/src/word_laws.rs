//! Where numbers end: identifiers with digits in them (`T1`, `col_2`,
//! `table_2024`) are words, not numbers, and keep their digits in the
//! fingerprint.

use vstd::prelude::*;

use crate::fingerprint::{flatten_spec, list_len, lists_pass, normalize_spec, number_len,
    numbers_from, numbers_pass, strings_pass};
use crate::literal_laws::{
    all_chars, flat_left, lemma_all_chars_collapse, lemma_all_chars_trim, lemma_collapse_no_ws,
    lemma_flat_left_ends, lemma_flatten_split, lemma_lists_concat, lemma_numbers_concat,
    lemma_stop_char, lemma_strings_pass_plain_prefix, not_quote, sep_char, word_after,
};
use crate::text::{is_digit, is_word, is_ws};

verus! {

/// A character of the regex class `\w` among ASCII characters: a letter of
/// either case, a digit or `_`.
pub open spec fn ascii_word_char(c: char) -> bool {
    ||| ('0' <= c && c <= '9')
    ||| ('a' <= c && c <= 'z')
    ||| ('A' <= c && c <= 'Z')
    ||| c == '_'
}

/// An SQL identifier `[A-Za-z_][A-Za-z0-9_]*`.
pub open spec fn identifier(w: Seq<char>) -> bool {
    &&& w.len() > 0
    &&& !('0' <= w[0] && w[0] <= '9')
    &&& forall|i: int| 0 <= i < w.len() ==> ascii_word_char(#[trigger] w[i])
}

/// `s` holds `w` somewhere.
pub open spec fn contains(s: Seq<char>, w: Seq<char>) -> bool {
    exists|i: int| 0 <= i && i + w.len() <= s.len() && #[trigger] s.subrange(i, i + w.len()) == w
}

/// Among ASCII characters, the word characters (`\w`) are exactly
/// `[0-9A-Za-z_]`, the digits (`\d`) exactly `[0-9]`, and the whitespace
/// (`\s`) exactly the space and `\t`, `\n`, `\x0B`, `\x0C`, `\r`.
pub proof fn law_ascii_classes(c: char)
    requires
        (c as u32) < 0x80,
    ensures
        is_word(c) <==> ascii_word_char(c),
        is_digit(c) <==> ('0' <= c && c <= '9'),
        is_ws(c) <==> (c == ' ' || c == '\t' || c == '\n' || c == '\x0B' || c == '\x0C'
            || c == '\r'),
{
}

proof fn lemma_word_char_plain(c: char)
    requires
        ascii_word_char(c),
    ensures
        is_word(c),
        !is_ws(c),
        c != '\'',
        c != '(',
        (c as u32) < 0x80,
{
}

/// The number pass copies a run of word characters that starts after a
/// word character or with a character other than a digit: no `\b` stands
/// before any of its digits.
proof fn lemma_numbers_word_run(w: Seq<char>, r: Seq<char>, pw: bool)
    requires
        forall|i: int| 0 <= i < w.len() ==> ascii_word_char(#[trigger] w[i]),
        pw || (w.len() > 0 && !('0' <= w[0] && w[0] <= '9')),
    ensures
        numbers_from(w + r, pw) == w + numbers_from(r, true),
    decreases w.len(),
{
    if w.len() == 0 {
        assert(w + r =~= r);
        assert(w + numbers_from(r, true) =~= numbers_from(r, true));
    } else {
        let s = w + r;
        let c = w[0];
        assert(s[0] == c);
        lemma_word_char_plain(c);
        assert(number_len(s, pw) is None);
        let v = w.drop_first();
        assert forall|i: int| 0 <= i < v.len() implies ascii_word_char(#[trigger] v[i]) by {
            assert(v[i] == w[i + 1]);
        }
        assert(s.drop_first() =~= v + r);
        lemma_numbers_word_run(v, r, true);
        assert(w =~= seq![c] + v);
    }
}

/// The number pass leaves an identifier as it is, whatever follows it.
pub proof fn law_numbers_keep_identifier(w: Seq<char>, r: Seq<char>, pw: bool)
    requires
        identifier(w),
    ensures
        numbers_from(w + r, pw) == w + numbers_from(r, true),
{
    lemma_numbers_word_run(w, r, pw);
}

/// The list pass copies text without `(`.
proof fn lemma_lists_copy(x: Seq<char>, r: Seq<char>)
    requires
        forall|i: int| 0 <= i < x.len() ==> #[trigger] x[i] != '(',
    ensures
        lists_pass(x + r) == x + lists_pass(r),
    decreases x.len(),
{
    if x.len() == 0 {
        assert(x + r =~= r);
        assert(x + lists_pass(r) =~= lists_pass(r));
    } else {
        let s = x + r;
        assert(s[0] == x[0]);
        assert(list_len(s) is None);
        let v = x.drop_first();
        assert forall|i: int| 0 <= i < v.len() implies #[trigger] v[i] != '(' by {
            assert(v[i] == x[i + 1]);
        }
        assert(s.drop_first() =~= v + r);
        lemma_lists_copy(v, r);
        assert(x =~= seq![x[0]] + v);
    }
}

/// An identifier that stands after a separator (or at the start) and
/// outside any string literal keeps all its characters, digits included, in
/// the fingerprint: `SELECT * FROM T1 WHERE id = 5` keeps `T1`, and so
/// does every query that names `T1` there.
pub proof fn law_normalize_keeps_identifier(p: Seq<char>, w: Seq<char>, s: Seq<char>)
    requires
        identifier(w),
        all_chars(p, |c: char| not_quote(c)),
        p.len() == 0 || sep_char(p.last()),
    ensures
        contains(normalize_spec(p + w + s), w),
{
    reveal(normalize_spec);
    let f = |c: char| not_quote(c);
    assert forall|i: int| 0 <= i < w.len() implies !is_ws(#[trigger] w[i]) && f(w[i]) && w[i]
        != '(' by {
        lemma_word_char_plain(w[i]);
    }
    lemma_word_char_plain(w[0]);
    lemma_word_char_plain(w.last());
    lemma_collapse_no_ws(w, false);
    // Flattening.
    lemma_flatten_split(p, w, s);
    let l = flat_left(p);
    let r = crate::literal_laws::flat_right(s);
    assert(f(' '));
    lemma_all_chars_trim(p, f);
    lemma_all_chars_collapse(crate::fingerprint::trim_start(p), false, f);
    lemma_flat_left_ends(p);
    // String literals.
    assert(all_chars(w, f));
    crate::literal_laws::lemma_all_chars_concat(l, w, f);
    lemma_strings_pass_plain_prefix(l + w, r);
    let y = strings_pass(r);
    assert(strings_pass(flatten_spec(p + w + s)) == l + w + y);
    // Numbers.
    assert(l + w + y =~= l + (w + y));
    lemma_numbers_concat(l, w + y, false);
    if l.len() > 0 {
        lemma_stop_char(l.last());
    }
    assert(word_after(l, false) == false);
    law_numbers_keep_identifier(w, y, false);
    let a = numbers_from(l, false);
    let b = numbers_from(y, true);
    assert(numbers_pass(l + w + y) == a + (w + b));
    // Lists.
    assert((w + b)[0] == w[0]);
    lemma_lists_concat(a, w + b);
    lemma_lists_copy(w, b);
    let c = lists_pass(a);
    let d = lists_pass(b);
    assert(lists_pass(a + (w + b)) =~= c + w + d);
    // Flattening again.
    lemma_flatten_split(c, w, d);
    let n = flat_left(c) + w + crate::literal_laws::flat_right(d);
    let i = flat_left(c).len() as int;
    assert(n.subrange(i, i + w.len()) =~= w);
    assert(normalize_spec(p + w + s) == n);
}

} // verus!
