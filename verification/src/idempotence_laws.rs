//! A fingerprint is its own fingerprint: normalizing it again changes
//! nothing. The string-literal, number and list passes keep a normalized
//! line normalized, the number and list passes find nothing left to replace
//! in their own output, and the list pass leaves the number pass nothing
//! new to replace.

use vstd::prelude::*;

use crate::fingerprint::{
    boundary, flatten_spec, last_boundary, lemma_list_len_bounds, lemma_lit_len_bounds,
    lemma_number_len_bounds, list_len, lists_pass, lit_len, normalize_spec, number_len,
    numbers_from, numbers_pass, strings_pass,
};
use crate::fingerprint_laws::{is_flat, law_normalize_is_flat, lemma_flat_fixed, lemma_flatten_is_flat};
use crate::literal_laws::{
    all_chars, lemma_all_chars_collapse, lemma_all_chars_drop_first, lemma_all_chars_trim,
    lemma_list_len_concat, lemma_lists_concat, lemma_number_ends_in_digit, lemma_numbers_concat,
    lemma_numbers_stop, stop_char, word_after,
};
use crate::quote_laws::law_normalize_leaves_no_literal;
use crate::text::{digit_run, is_digit, is_word, is_ws, lemma_digit_run_bounds};

verus! {

// ---------------------------------------------------------------------
// The passes keep a normalized line normalized.
// ---------------------------------------------------------------------

/// Each whitespace character of `s` is a `' '` followed by a character
/// other than whitespace.
spec fn spaced(s: Seq<char>) -> bool {
    forall|k: int|
        0 <= k < s.len() && is_ws(#[trigger] s[k]) ==> s[k] == ' ' && k + 1 < s.len() && !is_ws(
            s[k + 1],
        )
}

proof fn lemma_spaced_cons(c: char, p: Seq<char>)
    requires
        spaced(p),
        is_ws(c) ==> c == ' ' && p.len() > 0 && !is_ws(p[0]),
    ensures
        spaced(seq![c] + p),
{
    let s = seq![c] + p;
    assert forall|k: int| 0 <= k < s.len() && is_ws(#[trigger] s[k]) implies s[k] == ' ' && k + 1
        < s.len() && !is_ws(s[k + 1]) by {
        if k > 0 {
            assert(s[k] == p[k - 1]);
            assert(s[k + 1] == p[k]);
        } else {
            assert(s[1] == p[0]);
        }
    }
}

proof fn lemma_spaced_skip(s: Seq<char>, n: int)
    requires
        spaced(s),
        0 <= n <= s.len(),
    ensures
        spaced(s.skip(n)),
{
    let t = s.skip(n);
    assert forall|k: int| 0 <= k < t.len() && is_ws(#[trigger] t[k]) implies t[k] == ' ' && k + 1
        < t.len() && !is_ws(t[k + 1]) by {
        assert(t[k] == s[k + n]);
        assert(is_ws(s[k + n]));
        if k + 1 < t.len() {
            assert(t[k + 1] == s[k + n + 1]);
        }
    }
}

proof fn lemma_spaced_head(s: Seq<char>)
    requires
        spaced(s),
        s.len() > 0,
        is_ws(s[0]),
    ensures
        s[0] == ' ',
        s.drop_first().len() > 0,
        !is_ws(s.drop_first()[0]),
{
    assert(s.drop_first()[0] == s[1]);
}

proof fn lemma_flat_spaced(s: Seq<char>)
    ensures
        is_flat(s) <==> (spaced(s) && (s.len() > 0 ==> !is_ws(s[0]))),
{
}

proof fn lemma_strings_spaced(s: Seq<char>)
    requires
        spaced(s),
    ensures
        spaced(strings_pass(s)),
        s.len() > 0 && !is_ws(s[0]) ==> strings_pass(s).len() > 0 && !is_ws(strings_pass(s)[0]),
    decreases s.len(),
{
    if s.len() > 0 {
        let rest = s.drop_first();
        if s[0] == '\'' && lit_len(rest) is Some {
            let n = lit_len(rest)->0;
            lemma_lit_len_bounds(rest);
            lemma_spaced_skip(s, n + 1);
            lemma_strings_spaced(s.skip(n + 1));
            lemma_spaced_cons('?', strings_pass(s.skip(n + 1)));
        } else {
            lemma_spaced_skip(s, 1);
            assert(s.skip(1) =~= rest);
            lemma_strings_spaced(rest);
            if is_ws(s[0]) {
                lemma_spaced_head(s);
            }
            lemma_spaced_cons(s[0], strings_pass(rest));
        }
    }
}

proof fn lemma_numbers_spaced(s: Seq<char>, pw: bool)
    requires
        spaced(s),
    ensures
        spaced(numbers_from(s, pw)),
        s.len() > 0 && !is_ws(s[0]) ==> numbers_from(s, pw).len() > 0 && !is_ws(
            numbers_from(s, pw)[0],
        ),
    decreases s.len(),
{
    if s.len() > 0 {
        let rest = s.drop_first();
        lemma_number_len_bounds(s, pw);
        match number_len(s, pw) {
            Some(n) => {
                lemma_spaced_skip(s, n);
                lemma_numbers_spaced(s.skip(n), is_word(s[n - 1]));
                lemma_spaced_cons('?', numbers_from(s.skip(n), is_word(s[n - 1])));
            },
            None => {
                lemma_spaced_skip(s, 1);
                assert(s.skip(1) =~= rest);
                lemma_numbers_spaced(rest, is_word(s[0]));
                if is_ws(s[0]) {
                    lemma_spaced_head(s);
                }
                lemma_spaced_cons(s[0], numbers_from(rest, is_word(s[0])));
            },
        }
    }
}

proof fn lemma_lists_spaced(s: Seq<char>)
    requires
        spaced(s),
    ensures
        spaced(lists_pass(s)),
        s.len() > 0 && !is_ws(s[0]) ==> lists_pass(s).len() > 0 && !is_ws(lists_pass(s)[0]),
    decreases s.len(),
{
    if s.len() > 0 {
        let rest = s.drop_first();
        lemma_list_len_bounds(s);
        match list_len(s) {
            Some(n) => {
                lemma_spaced_skip(s, n);
                lemma_lists_spaced(s.skip(n));
                let r = lists_pass(s.skip(n));
                lemma_spaced_cons(')', r);
                lemma_spaced_cons('?', seq![')'] + r);
                lemma_spaced_cons('(', seq!['?'] + (seq![')'] + r));
                assert(seq!['(', '?', ')'] + r =~= seq!['('] + (seq!['?'] + (seq![')'] + r)));
            },
            None => {
                lemma_spaced_skip(s, 1);
                assert(s.skip(1) =~= rest);
                lemma_lists_spaced(rest);
                if is_ws(s[0]) {
                    lemma_spaced_head(s);
                }
                lemma_spaced_cons(s[0], lists_pass(rest));
            },
        }
    }
}

// ---------------------------------------------------------------------
// The list pass finds nothing new in its own output.
// ---------------------------------------------------------------------

spec fn no_paren(s: Seq<char>) -> bool {
    forall|i: int| 0 <= i < s.len() ==> #[trigger] s[i] != '('
}

/// Where the first `(` of `y` stands, or its length when it has none.
proof fn lemma_first_paren(y: Seq<char>) -> (k: int)
    ensures
        0 <= k <= y.len(),
        no_paren(y.take(k)),
        k < y.len() ==> y[k] == '(',
    decreases y.len(),
{
    if y.len() == 0 || y[0] == '(' {
        assert(y.take(0) =~= Seq::<char>::empty());
        0
    } else {
        let k = lemma_first_paren(y.drop_first());
        assert forall|i: int| 0 <= i < k + 1 implies #[trigger] y.take(k + 1)[i] != '(' by {
            if i > 0 {
                assert(y.take(k + 1)[i] == y.drop_first().take(k)[i - 1]);
            }
        }
        if k < y.drop_first().len() {
            assert(y[k + 1] == y.drop_first()[k]);
        }
        k + 1
    }
}

proof fn lemma_no_paren_lists(y: Seq<char>)
    requires
        no_paren(y),
    ensures
        lists_pass(y) == y,
    decreases y.len(),
{
    if y.len() > 0 {
        assert(y[0] != '(');
        assert(list_len(y) is None);
        assert forall|i: int| 0 <= i < y.drop_first().len() implies #[trigger] y.drop_first()[i]
            != '(' by {
            assert(y.drop_first()[i] == y[i + 1]);
        }
        lemma_no_paren_lists(y.drop_first());
        assert(y =~= seq![y[0]] + y.drop_first());
    }
}

/// The list pass goes over text without `(` up to the next `(`.
proof fn lemma_lists_paren_split(p: Seq<char>, r: Seq<char>)
    requires
        no_paren(p),
        r.len() > 0,
        r[0] == '(',
    ensures
        lists_pass(p + r) == p + lists_pass(r),
{
    lemma_lists_concat(p, r);
    lemma_no_paren_lists(p);
}

proof fn lemma_lists_starts_paren(r: Seq<char>)
    requires
        r.len() > 0,
        r[0] == '(',
    ensures
        lists_pass(r).len() > 0,
        lists_pass(r)[0] == '(',
{
    lemma_list_len_bounds(r);
}

/// `(?)` is a list of one placeholder.
proof fn lemma_list_len_mark(w: Seq<char>)
    ensures
        list_len(seq!['(', '?', ')'] + w) == Some(3int),
{
    let s = seq!['(', '?', ')'] + w;
    assert(s.drop_first() =~= seq!['?', ')'] + w);
    assert(crate::text::ws_run(s.drop_first()) == 0);
    let t = s.skip(2);
    assert(t =~= seq![')'] + w);
    assert(crate::text::ws_run(t) == 0);
    assert(crate::fingerprint::list_item_len(t) == 0);
    assert(crate::fingerprint::list_tail(t) == 0);
}

proof fn lemma_lists_mark(w: Seq<char>)
    ensures
        lists_pass(seq!['(', '?', ')'] + w) == seq!['(', '?', ')'] + lists_pass(w),
{
    let s = seq!['(', '?', ')'] + w;
    lemma_list_len_mark(w);
    assert(s.skip(3) =~= w);
}

/// The list pass at a `(` where no list starts, run again over its own
/// output.
proof fn lemma_lists_idem_paren(r: Seq<char>)
    requires
        r.len() > 0,
        r[0] == '(',
        list_len(r) is None,
        lists_pass(lists_pass(r.drop_first())) == lists_pass(r.drop_first()),
    ensures
        lists_pass(lists_pass(r)) == lists_pass(r),
{
    let r1 = r.drop_first();
    let o = lists_pass(r1);
    assert(lists_pass(r) == seq!['('] + o);
    let k = lemma_first_paren(r1);
    let p = r1.take(k);
    let r2 = r1.skip(k);
    let o2 = seq!['('] + o;
    if k == r1.len() {
        assert(r1.take(k) =~= r1);
        lemma_no_paren_lists(r1);
        assert(o2 =~= r);
    } else {
        assert(r1 =~= p + r2);
        lemma_lists_paren_split(p, r2);
        lemma_lists_starts_paren(r2);
        let head = seq!['('] + p;
        assert(r =~= head + r2);
        assert(o2 =~= head + lists_pass(r2));
        lemma_list_len_concat(head, r2);
        lemma_list_len_concat(head, lists_pass(r2));
    }
    assert(o2[0] == '(');
    assert(list_len(o2) is None);
    assert(o2.drop_first() =~= o);
}

/// Running the list pass twice is running it once.
proof fn lemma_lists_idem(y: Seq<char>)
    ensures
        lists_pass(lists_pass(y)) == lists_pass(y),
    decreases y.len(),
{
    let k = lemma_first_paren(y);
    if k == y.len() {
        assert(y.take(k) =~= y);
        lemma_no_paren_lists(y);
    } else {
        let p = y.take(k);
        let r = y.skip(k);
        assert(y =~= p + r);
        lemma_lists_paren_split(p, r);
        lemma_lists_starts_paren(r);
        lemma_lists_paren_split(p, lists_pass(r));
        if k > 0 {
            lemma_lists_idem(r);
        } else {
            lemma_list_len_bounds(r);
            match list_len(r) {
                Some(n) => {
                    lemma_lists_idem(r.skip(n));
                    lemma_lists_mark(lists_pass(r.skip(n)));
                },
                None => {
                    lemma_lists_idem(r.drop_first());
                    lemma_lists_idem_paren(r);
                },
            }
        }
    }
}

// ---------------------------------------------------------------------
// The list pass leaves the number pass nothing new to replace.
// ---------------------------------------------------------------------

proof fn lemma_numbers_len(s: Seq<char>, pw: bool)
    ensures
        numbers_from(s, pw).len() <= s.len(),
    decreases s.len(),
{
    if s.len() > 0 {
        lemma_number_len_bounds(s, pw);
        match number_len(s, pw) {
            Some(n) => lemma_numbers_len(s.skip(n), is_word(s[n - 1])),
            None => lemma_numbers_len(s.drop_first(), is_word(s[0])),
        }
    }
}

/// Where the number pass changes nothing in `x + r`, split after a
/// `stop_char`, it changes nothing in either part.
proof fn lemma_numbers_fixed_split(x: Seq<char>, r: Seq<char>, pw: bool)
    requires
        x.len() == 0 || stop_char(x.last()),
        numbers_from(x + r, pw) == x + r,
    ensures
        numbers_from(x, pw) == x,
        numbers_from(r, word_after(x, pw)) == r,
{
    lemma_numbers_concat(x, r, pw);
    let a = numbers_from(x, pw);
    let b = numbers_from(r, word_after(x, pw));
    lemma_numbers_len(x, pw);
    lemma_numbers_len(r, word_after(x, pw));
    assert(a.len() == x.len());
    assert(a =~= (x + r).take(x.len() as int));
    assert(x =~= (x + r).take(x.len() as int));
    assert(b =~= (a + b).skip(x.len() as int));
    assert(r =~= (x + r).skip(x.len() as int));
}

proof fn lemma_numbers_mark_tail(w: Seq<char>, pw: bool)
    ensures
        numbers_from(seq!['?', ')'] + w, pw) == seq!['?', ')'] + numbers_from(w, false),
{
    assert(stop_char('?') && stop_char(')'));
    assert(seq!['?', ')'] + w =~= seq!['?'] + (seq![')'] + w));
    lemma_numbers_stop('?', seq![')'] + w, pw);
    lemma_numbers_stop(')', w, false);
    assert(seq!['?'] + (seq![')'] + numbers_from(w, false)) =~= seq!['?', ')'] + numbers_from(
        w,
        false,
    ));
}

/// A list ends in `)`.
proof fn lemma_list_len_ends(r: Seq<char>)
    ensures
        list_len(r) matches Some(n) ==> n >= 3 && r[n - 1] == ')',
{
    if r.len() > 0 && r[0] == '(' {
        crate::text::lemma_ws_run_bounds(r.drop_first());
        let j = 1 + crate::text::ws_run(r.drop_first());
        if j < r.len() && r[j] == '?' {
            crate::fingerprint::lemma_list_tail_bounds(r.skip(j + 1));
            let e = j + 1 + crate::fingerprint::list_tail(r.skip(j + 1));
            crate::text::lemma_ws_run_bounds(r.skip(e));
        }
    }
}

/// Where the number pass finds nothing to replace, it finds nothing after
/// the list pass either.
proof fn lemma_numbers_after_lists(y: Seq<char>, pw: bool)
    requires
        numbers_from(y, pw) == y,
    ensures
        numbers_from(lists_pass(y), pw) == lists_pass(y),
    decreases y.len(),
{
    let k = lemma_first_paren(y);
    if k == y.len() {
        assert(y.take(k) =~= y);
        lemma_no_paren_lists(y);
    } else {
        let p = y.take(k);
        let r = y.skip(k);
        let r1 = r.drop_first();
        let x = p + seq!['('];
        assert(y =~= p + r);
        assert(y =~= x + r1);
        assert(x.last() == '(');
        assert(stop_char('('));
        lemma_numbers_fixed_split(x, r1, pw);
        assert(word_after(x, pw) == false);
        lemma_lists_paren_split(p, r);
        lemma_list_len_bounds(r);
        match list_len(r) {
            Some(n) => {
                lemma_list_len_ends(r);
                let rn = r.skip(n);
                let w = r1.take(n - 1);
                assert(r1 =~= w + rn);
                assert(w.last() == r[n - 1]);
                lemma_numbers_fixed_split(w, rn, false);
                assert(word_after(w, false) == false);
                lemma_numbers_after_lists(rn, false);
                let ln = lists_pass(rn);
                assert(lists_pass(y) =~= x + (seq!['?', ')'] + ln));
                lemma_numbers_concat(x, seq!['?', ')'] + ln, pw);
                lemma_numbers_mark_tail(ln, false);
            },
            None => {
                assert(lists_pass(r) == seq!['('] + lists_pass(r1));
                lemma_numbers_after_lists(r1, false);
                assert(lists_pass(y) =~= x + lists_pass(r1));
                lemma_numbers_concat(x, lists_pass(r1), pw);
            },
        }
    }
}

// ---------------------------------------------------------------------
// The number pass finds nothing new in its own output.
// ---------------------------------------------------------------------

/// `\d` characters are `\w` characters: the regex syntax's `\w` takes in
/// every `\d`.
pub open spec fn digit_word(c: char) -> bool {
    is_digit(c) ==> is_word(c)
}

/// Every digit of `s` is a word character.
pub open spec fn digits_are_words(s: Seq<char>) -> bool {
    all_chars(s, |c: char| digit_word(c))
}

proof fn lemma_digits_are_words_skip(s: Seq<char>, n: int)
    requires
        digits_are_words(s),
        0 <= n <= s.len(),
    ensures
        digits_are_words(s.skip(n)),
{
    assert forall|k: int| 0 <= k < s.skip(n).len() implies digit_word(#[trigger] s.skip(n)[k]) by {
        assert(s.skip(n)[k] == s[k + n]);
    }
}

proof fn lemma_last_boundary_some(s: Seq<char>, pw: bool, lo: int, hi: int)
    ensures
        last_boundary(s, pw, lo, hi) matches Some(b) ==> boundary(s, pw, b),
    decreases hi - lo + 1,
{
    if hi >= lo && !boundary(s, pw, hi) {
        lemma_last_boundary_some(s, pw, lo, hi - 1);
    }
}

/// A number ends at `\b`.
proof fn lemma_number_len_boundary(s: Seq<char>, pw: bool)
    ensures
        number_len(s, pw) matches Some(n) ==> boundary(s, pw, n),
{
    if s.len() > 0 && is_digit(s[0]) && boundary(s, pw, 0) {
        let a = digit_run(s);
        lemma_last_boundary_some(s, pw, 1, a);
        if a + 1 < s.len() && s[a] == '.' && is_digit(s[a + 1]) {
            lemma_last_boundary_some(s, pw, a + 2, a + 1 + digit_run(s.skip(a + 1)));
        }
    }
}

/// After a character that cannot start a number, what came before it does
/// not matter.
proof fn lemma_numbers_nondigit_start(r: Seq<char>)
    requires
        r.len() == 0 || !is_digit(r[0]),
    ensures
        numbers_from(r, true) == numbers_from(r, false),
{
}

/// Inside a run of digits that follows a word character, the number pass
/// copies the run.
proof fn lemma_numbers_run(u: Seq<char>, m: int)
    requires
        0 <= m <= u.len(),
        forall|i: int| 0 <= i < m ==> is_digit(#[trigger] u[i]) && is_word(u[i]),
    ensures
        numbers_from(u, true) == u.take(m) + numbers_from(u.skip(m), true),
    decreases m,
{
    if m == 0 {
        assert(u.take(0) + numbers_from(u, true) =~= numbers_from(u, true));
        assert(u.skip(0) =~= u);
    } else {
        assert(is_digit(u[0]) && is_word(u[0]));
        assert(!boundary(u, true, 0));
        assert(number_len(u, true) is None);
        let v = u.drop_first();
        assert forall|i: int| 0 <= i < m - 1 implies is_digit(#[trigger] v[i]) && is_word(v[i]) by {
            assert(v[i] == u[i + 1]);
        }
        lemma_numbers_run(v, m - 1);
        assert(v.skip(m - 1) =~= u.skip(m));
        assert(seq![u[0]] + (v.take(m - 1) + numbers_from(u.skip(m), true)) =~= u.take(m)
            + numbers_from(u.skip(m), true));
    }
}

proof fn lemma_digit_run_shape(s: Seq<char>)
    ensures
        forall|i: int| 0 <= i < digit_run(s) ==> is_digit(#[trigger] s[i]),
        digit_run(s) < s.len() ==> !is_digit(s[digit_run(s)]),
    decreases s.len(),
{
    lemma_digit_run_bounds(s);
    if s.len() > 0 && is_digit(s[0]) {
        lemma_digit_run_shape(s.drop_first());
        assert forall|i: int| 0 <= i < digit_run(s) implies is_digit(#[trigger] s[i]) by {
            if i > 0 {
                assert(s[i] == s.drop_first()[i - 1]);
            }
        }
        if digit_run(s) < s.len() {
            assert(s[digit_run(s)] == s.drop_first()[digit_run(s) - 1]);
        }
    }
}

proof fn lemma_digit_run_same(s: Seq<char>, t: Seq<char>, a: int)
    requires
        0 <= a < s.len(),
        a < t.len(),
        forall|i: int| 0 <= i <= a ==> #[trigger] s[i] == t[i],
        digit_run(s) == a,
    ensures
        digit_run(t) == a,
    decreases a,
{
    lemma_digit_run_shape(s);
    if a > 0 {
        assert(s[0] == t[0]);
        lemma_digit_run_same(s.drop_first(), t.drop_first(), a - 1);
        assert forall|i: int| 0 <= i <= a - 1 implies #[trigger] s.drop_first()[i]
            == t.drop_first()[i] by {
            assert(s.drop_first()[i] == s[i + 1]);
            assert(t.drop_first()[i] == t[i + 1]);
        }
    } else {
        assert(s[0] == t[0]);
    }
}

proof fn lemma_last_boundary_same(s: Seq<char>, t: Seq<char>, pw: bool, lo: int, hi: int, a: int)
    requires
        1 <= lo,
        hi <= a,
        a < s.len(),
        a < t.len(),
        forall|i: int| 0 <= i <= a ==> #[trigger] s[i] == t[i],
    ensures
        last_boundary(s, pw, lo, hi) == last_boundary(t, pw, lo, hi),
    decreases hi - lo + 1,
{
    if hi >= lo {
        assert(s[hi - 1] == t[hi - 1]);
        assert(s[hi] == t[hi]);
        assert(boundary(s, pw, hi) == boundary(t, pw, hi));
        lemma_last_boundary_same(s, t, pw, lo, hi - 1, a);
    }
}

/// A digit where no number starts still starts none once the number pass
/// has gone over the text after it.
#[verifier::spinoff_prover]
proof fn lemma_number_none_kept(s: Seq<char>, pw: bool)
    requires
        digits_are_words(s),
        s.len() > 0,
        number_len(s, pw) is None,
    ensures
        number_len(seq![s[0]] + numbers_from(s.drop_first(), is_word(s[0])), pw) is None,
{
    let rest = s.drop_first();
    let t = seq![s[0]] + numbers_from(rest, is_word(s[0]));
    assert(t[0] == s[0]);
    if is_digit(s[0]) && boundary(s, pw, 0) {
        assert(digit_word(s[0]));
        lemma_digit_run_bounds(s);
        lemma_digit_run_shape(s);
        let a = digit_run(s);
        assert(a >= 1);
        assert(digit_word(s[a - 1]));
        if !(a < s.len() && is_word(s[a])) {
            assert(boundary(s, pw, a));
            assert(last_boundary(s, pw, 1, a) == Some(a));
            assert(false);
        }
        assert(s[a] != '.');
        assert(digit_word(s[a]));
        assert forall|i: int| 0 <= i < a - 1 implies is_digit(#[trigger] rest[i]) && is_word(
            rest[i],
        ) by {
            assert(rest[i] == s[i + 1]);
            assert(digit_word(s[i + 1]));
        }
        lemma_numbers_run(rest, a - 1);
        let u = rest.skip(a - 1);
        assert(u[0] == s[a]);
        assert(number_len(u, true) is None);
        let tail = numbers_from(u.drop_first(), is_word(u[0]));
        assert(numbers_from(u, true) == seq![u[0]] + tail);
        assert(t =~= seq![s[0]] + rest.take(a - 1) + seq![s[a]] + tail);
        assert forall|i: int| 0 <= i <= a implies #[trigger] s[i] == t[i] by {
            if 0 < i && i < a {
                assert(t[i] == rest[i - 1]);
            }
        }
        lemma_digit_run_same(s, t, a);
        lemma_last_boundary_same(s, t, pw, 1, a, a);
        assert(boundary(t, pw, 0));
    }
}

/// Running the number pass twice is running it once, when digits are word
/// characters.
#[verifier::spinoff_prover]
proof fn lemma_numbers_idem(s: Seq<char>, pw: bool)
    requires
        digits_are_words(s),
    ensures
        numbers_from(numbers_from(s, pw), pw) == numbers_from(s, pw),
    decreases s.len(),
{
    if s.len() > 0 {
        lemma_number_len_bounds(s, pw);
        match number_len(s, pw) {
            Some(n) => {
                lemma_number_ends_in_digit(s, pw);
                lemma_number_len_boundary(s, pw);
                assert(digit_word(s[n - 1]));
                if n < s.len() {
                    assert(digit_word(s[n]));
                }
                let r = s.skip(n);
                if r.len() > 0 {
                    assert(r[0] == s[n]);
                }
                lemma_numbers_nondigit_start(r);
                lemma_digits_are_words_skip(s, n);
                lemma_numbers_idem(r, false);
                let t = numbers_from(r, false);
                assert(numbers_from(s, pw) == seq!['?'] + t);
                assert(stop_char('?'));
                lemma_numbers_stop('?', t, pw);
            },
            None => {
                let rest = s.drop_first();
                lemma_digits_are_words_skip(s, 1);
                assert(s.skip(1) =~= rest);
                lemma_numbers_idem(rest, is_word(s[0]));
                lemma_number_none_kept(s, pw);
                let t = numbers_from(s, pw);
                assert(t == seq![s[0]] + numbers_from(rest, is_word(s[0])));
                assert(t[0] == s[0]);
                assert(t.drop_first() =~= numbers_from(rest, is_word(s[0])));
            },
        }
    }
}

// ---------------------------------------------------------------------
// The law.
// ---------------------------------------------------------------------

/// The string-literal pass brings in no character but `?`.
proof fn lemma_strings_keep_chars(s: Seq<char>, f: spec_fn(char) -> bool)
    requires
        all_chars(s, f),
        f('?'),
    ensures
        all_chars(strings_pass(s), f),
    decreases s.len(),
{
    if s.len() > 0 {
        let rest = s.drop_first();
        if s[0] == '\'' && lit_len(rest) is Some {
            let n = lit_len(rest)->0;
            lemma_lit_len_bounds(rest);
            assert forall|k: int| 0 <= k < s.skip(n + 1).len() implies f(
                #[trigger] s.skip(n + 1)[k],
            ) by {
                assert(s.skip(n + 1)[k] == s[k + n + 1]);
            }
            lemma_strings_keep_chars(s.skip(n + 1), f);
            let o = strings_pass(s);
            assert forall|k: int| 0 <= k < o.len() implies f(#[trigger] o[k]) by {
                if k > 0 {
                    assert(o[k] == strings_pass(s.skip(n + 1))[k - 1]);
                }
            }
        } else {
            lemma_all_chars_drop_first(s, f);
            lemma_strings_keep_chars(rest, f);
            let o = strings_pass(s);
            assert(f(s[0]));
            assert forall|k: int| 0 <= k < o.len() implies f(#[trigger] o[k]) by {
                if k > 0 {
                    assert(o[k] == strings_pass(rest)[k - 1]);
                }
            }
        }
    }
}

/// A fingerprint is its own fingerprint: normalizing it again, or
/// flattening it, changes nothing. `SELECT * FROM t WHERE id IN ( 1 , 2 )`
/// gives `SELECT * FROM t WHERE id IN (?)`, whose fingerprint is itself.
///
/// The law holds of every query whose digits are word characters, which
/// every character is: the regex syntax's `\w` takes in every `\d`. The
/// library knows the two classes for characters outside ASCII only by name,
/// so that fact is a requirement here.
pub proof fn law_normalize_idempotent(q: Seq<char>)
    requires
        digits_are_words(q),
    ensures
        normalize_spec(normalize_spec(q)) == normalize_spec(q),
        flatten_spec(normalize_spec(q)) == normalize_spec(q),
{
    reveal(normalize_spec);
    let f = |c: char| digit_word(c);
    let f0 = flatten_spec(q);
    let x = strings_pass(f0);
    let y = numbers_pass(x);
    let z = lists_pass(y);
    // The passes keep the line normalized, so the last flattening does
    // nothing and the fingerprint is `z`.
    lemma_flatten_is_flat(q);
    lemma_flat_spaced(f0);
    lemma_strings_spaced(f0);
    lemma_numbers_spaced(x, false);
    lemma_lists_spaced(y);
    if z.len() > 0 {
        assert(y.len() > 0);
        assert(x.len() > 0);
        assert(f0.len() > 0);
    }
    lemma_flat_spaced(z);
    lemma_flat_fixed(z);
    assert(normalize_spec(q) == z);
    // Digits stay word characters through flattening and the string pass.
    assert(f(' ') && f('?'));
    lemma_all_chars_trim(q, f);
    lemma_all_chars_trim(crate::fingerprint::trim_end(q), f);
    lemma_all_chars_collapse(crate::fingerprint::trim(q), false, f);
    lemma_strings_keep_chars(f0, f);
    // The number and list passes find nothing left to replace in `z`.
    lemma_numbers_idem(x, false);
    lemma_numbers_after_lists(y, false);
    lemma_lists_idem(y);
    law_normalize_leaves_no_literal(q);
    law_normalize_is_flat(q);
}

} // verus!
