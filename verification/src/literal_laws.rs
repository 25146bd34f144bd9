//! The laws that make a fingerprint a fingerprint: replacing one literal
//! of a query by another literal of the same kind (a string literal by a
//! string literal, a number by a number, a parenthesised list of numbers by
//! a list of any other length) leaves the fingerprint unchanged.

use vstd::prelude::*;

use crate::fingerprint::{
    boundary, collapse_from, collapse_ws, flatten_spec, last_boundary, lemma_last_boundary_bounds,
    lemma_list_item_len_bounds, lemma_list_len_bounds, lemma_lit_len_bounds,
    lemma_number_len_bounds, list_item_len,
    list_len, list_tail, lit_len, lists_pass, normalize_spec, number_len, numbers_from,
    numbers_pass, strings_pass, trim, trim_end, trim_start, word_at,
};
use crate::fingerprint_laws::lemma_trim_start_shape;
use crate::text::{
    digit_run, is_ascii_char, is_ascii_digit, is_ascii_word, is_digit, is_word, is_ws,
    lemma_digit_run_bounds, lemma_ws_run_bounds, ws_run,
};

verus! {

/// Whether the text before some position ended inside a whitespace run,
/// after the text `a` was scanned from the state `in_run`.
pub open spec fn run_after(a: Seq<char>, in_run: bool) -> bool {
    if a.len() == 0 {
        in_run
    } else {
        is_ws(a.last())
    }
}

/// Collapsing whitespace is a left-to-right scan whose only state is
/// whether it is inside a run.
pub proof fn lemma_collapse_concat(a: Seq<char>, r: Seq<char>, in_run: bool)
    ensures
        collapse_from(a + r, in_run) == collapse_from(a, in_run) + collapse_from(
            r,
            run_after(a, in_run),
        ),
    decreases a.len(),
{
    if a.len() == 0 {
        assert(a + r =~= r);
        assert(collapse_from(a, in_run) + collapse_from(r, in_run) =~= collapse_from(r, in_run));
    } else {
        let rest = a.drop_first();
        assert((a + r).drop_first() =~= rest + r);
        let next = is_ws(a[0]);
        lemma_collapse_concat(rest, r, next);
        if rest.len() > 0 {
            assert(rest.last() == a.last());
        }
        if is_ws(a[0]) && in_run {
        } else if is_ws(a[0]) {
            assert(seq![' '] + (collapse_from(rest, true) + collapse_from(r, run_after(rest, true)))
                =~= (seq![' '] + collapse_from(rest, true)) + collapse_from(
                r,
                run_after(rest, true),
            ));
        } else {
            assert(seq![a[0]] + (collapse_from(rest, false) + collapse_from(
                r,
                run_after(rest, false),
            )) =~= (seq![a[0]] + collapse_from(rest, false)) + collapse_from(
                r,
                run_after(rest, false),
            ));
        }
    }
}

/// Text that starts with a character other than whitespace collapses the
/// same way whatever came before it.
pub proof fn lemma_collapse_start(r: Seq<char>, in_run: bool)
    requires
        r.len() == 0 || !is_ws(r[0]),
    ensures
        collapse_from(r, in_run) == collapse_from(r, false),
{
}

/// Text without whitespace is left as it is.
pub proof fn lemma_collapse_no_ws(d: Seq<char>, in_run: bool)
    requires
        forall|k: int| 0 <= k < d.len() ==> !is_ws(#[trigger] d[k]),
    ensures
        collapse_from(d, in_run) == d,
    decreases d.len(),
{
    if d.len() > 0 {
        assert forall|k: int| 0 <= k < d.drop_first().len() implies !is_ws(
            #[trigger] d.drop_first()[k],
        ) by {
            assert(d.drop_first()[k] == d[k + 1]);
        }
        assert(!is_ws(d[0]));
        lemma_collapse_no_ws(d.drop_first(), false);
        assert(d =~= seq![d[0]] + d.drop_first());
    }
}

pub proof fn lemma_trim_end_concat(x: Seq<char>, b: Seq<char>)
    requires
        x.len() > 0,
        !is_ws(x.last()),
    ensures
        trim_end(x + b) == x + trim_end(b),
    decreases b.len(),
{
    if b.len() > 0 && is_ws(b.last()) {
        assert((x + b).drop_last() =~= x + b.drop_last());
        lemma_trim_end_concat(x, b.drop_last());
    } else if b.len() == 0 {
        assert(x + b =~= x);
    }
}

pub proof fn lemma_trim_start_concat(a: Seq<char>, y: Seq<char>)
    requires
        y.len() > 0,
        !is_ws(y[0]),
    ensures
        trim_start(a + y) == trim_start(a) + y,
    decreases a.len(),
{
    if a.len() > 0 {
        assert((a + y).drop_first() =~= a.drop_first() + y);
        lemma_trim_start_concat(a.drop_first(), y);
    } else {
        assert(a + y =~= y);
    }
}

/// The pieces that flattening a query `p + m + s` gives, for a middle part
/// `m` that starts and ends with something other than whitespace.
pub open spec fn flat_left(p: Seq<char>) -> Seq<char> {
    collapse_ws(trim_start(p))
}

pub open spec fn flat_right(s: Seq<char>) -> Seq<char> {
    collapse_ws(trim_end(s))
}

pub proof fn lemma_flatten_split(p: Seq<char>, m: Seq<char>, s: Seq<char>)
    requires
        m.len() > 0,
        !is_ws(m[0]),
        !is_ws(m.last()),
    ensures
        flatten_spec(p + m + s) == flat_left(p) + collapse_ws(m) + flat_right(s),
{
    lemma_trim_end_concat(p + m, s);
    assert((p + m).last() == m.last());
    let ms = m + trim_end(s);
    assert(p + m + trim_end(s) =~= p + ms);
    assert(ms[0] == m[0]);
    lemma_trim_start_concat(p, ms);
    assert(trim(p + m + s) == trim_start(p) + ms);
    let a = trim_start(p);
    lemma_collapse_concat(a, ms, false);
    lemma_collapse_start(ms, run_after(a, false));
    lemma_collapse_concat(m, trim_end(s), false);
    assert(run_after(m, false) == false);
    assert(collapse_ws(a) + (collapse_ws(m) + collapse_ws(trim_end(s))) =~= collapse_ws(a)
        + collapse_ws(m) + collapse_ws(trim_end(s)));
}


// ---------------------------------------------------------------------
// Character properties that flattening keeps.
// ---------------------------------------------------------------------

pub open spec fn all_chars(s: Seq<char>, f: spec_fn(char) -> bool) -> bool {
    forall|k: int| 0 <= k < s.len() ==> f(#[trigger] s[k])
}

pub proof fn lemma_all_chars_drop_first(s: Seq<char>, f: spec_fn(char) -> bool)
    requires
        s.len() > 0,
        all_chars(s, f),
    ensures
        all_chars(s.drop_first(), f),
{
    assert forall|k: int| 0 <= k < s.drop_first().len() implies f(#[trigger] s.drop_first()[k]) by {
        assert(s.drop_first()[k] == s[k + 1]);
    }
}

pub proof fn lemma_all_chars_concat(a: Seq<char>, b: Seq<char>, f: spec_fn(char) -> bool)
    ensures
        all_chars(a + b, f) <==> all_chars(a, f) && all_chars(b, f),
{
    if all_chars(a + b, f) {
        assert forall|k: int| 0 <= k < a.len() implies f(#[trigger] a[k]) by {
            assert((a + b)[k] == a[k]);
        }
        assert forall|k: int| 0 <= k < b.len() implies f(#[trigger] b[k]) by {
            assert((a + b)[a.len() + k] == b[k]);
        }
    }
    if all_chars(a, f) && all_chars(b, f) {
        assert forall|k: int| 0 <= k < (a + b).len() implies f(#[trigger] (a + b)[k]) by {
            if k < a.len() {
                assert((a + b)[k] == a[k]);
            } else {
                assert((a + b)[k] == b[k - a.len()]);
            }
        }
    }
}

pub proof fn lemma_all_chars_collapse(s: Seq<char>, in_run: bool, f: spec_fn(char) -> bool)
    requires
        all_chars(s, f),
        f(' '),
    ensures
        all_chars(collapse_from(s, in_run), f),
    decreases s.len(),
{
    if s.len() > 0 {
        lemma_all_chars_drop_first(s, f);
        let rest = s.drop_first();
        lemma_all_chars_collapse(rest, is_ws(s[0]), f);
        assert(f(s[0]));
        lemma_all_chars_concat(seq![' '], collapse_from(rest, true), f);
        lemma_all_chars_concat(seq![s[0]], collapse_from(rest, false), f);
    }
}

pub proof fn lemma_all_chars_trim(s: Seq<char>, f: spec_fn(char) -> bool)
    requires
        all_chars(s, f),
    ensures
        all_chars(trim_start(s), f),
        all_chars(trim_end(s), f),
    decreases s.len(),
{
    if s.len() > 0 {
        lemma_all_chars_drop_first(s, f);
        lemma_all_chars_trim(s.drop_first(), f);
        assert(s.drop_last() =~= s.subrange(0, s.len() - 1));
        assert forall|k: int| 0 <= k < s.drop_last().len() implies f(#[trigger] s.drop_last()[k]) by {
            assert(s.drop_last()[k] == s[k]);
        }
        lemma_all_chars_trim(s.drop_last(), f);
    }
}

// ---------------------------------------------------------------------
// String literals.
// ---------------------------------------------------------------------

pub open spec fn not_quote(c: char) -> bool {
    c != '\''
}

/// The quotes of `b` come in adjacent pairs, each an escaped quote.
pub open spec fn pairs_ok(b: Seq<char>) -> bool
    decreases b.len(),
{
    if b.len() == 0 {
        true
    } else if b[0] != '\'' {
        pairs_ok(b.drop_first())
    } else {
        b.len() >= 2 && b[1] == '\'' && pairs_ok(b.skip(2))
    }
}

/// `lit` is one well-formed SQL string literal: a quote, a body whose
/// quotes are all doubled, and a closing quote.
pub open spec fn sql_string(lit: Seq<char>) -> bool {
    &&& lit.len() >= 2
    &&& lit[0] == '\''
    &&& lit.last() == '\''
    &&& pairs_ok(lit.subrange(1, lit.len() - 1))
}

proof fn lemma_lit_len_literal(b: Seq<char>, r: Seq<char>)
    requires
        pairs_ok(b),
        r.len() == 0 || r[0] != '\'',
    ensures
        lit_len(b + seq!['\''] + r) == Some(b.len() + 1int),
    decreases b.len(),
{
    let t = b + seq!['\''] + r;
    if b.len() == 0 {
        assert(t =~= seq!['\''] + r);
        if r.len() > 0 {
            assert(t[1] == r[0]);
        }
    } else if b[0] != '\'' {
        assert(t.drop_first() =~= b.drop_first() + seq!['\''] + r);
        lemma_lit_len_literal(b.drop_first(), r);
    } else {
        assert(t.skip(2) =~= b.skip(2) + seq!['\''] + r);
        lemma_lit_len_literal(b.skip(2), r);
    }
}

proof fn lemma_pairs_ok_collapse(b: Seq<char>, in_run: bool)
    requires
        pairs_ok(b),
    ensures
        pairs_ok(collapse_from(b, in_run)),
    decreases b.len(),
{
    if b.len() > 0 {
        let rest = b.drop_first();
        if is_ws(b[0]) {
            lemma_pairs_ok_collapse(rest, true);
            let o = collapse_from(rest, true);
            assert((seq![' '] + o).drop_first() =~= o);
        } else if b[0] != '\'' {
            lemma_pairs_ok_collapse(rest, false);
            let o = collapse_from(rest, false);
            assert((seq![b[0]] + o).drop_first() =~= o);
        } else {
            let rest2 = b.skip(2);
            assert(rest.drop_first() =~= rest2);
            assert(rest[0] == '\'');
            lemma_pairs_ok_collapse(rest2, false);
            let o = collapse_from(rest2, false);
            assert(!is_ws(b[0]) && !is_ws(rest[0]));
            assert(collapse_from(rest, false) == seq![rest[0]] + collapse_from(rest.drop_first(), false));
            assert(collapse_from(b, in_run) == seq![b[0]] + collapse_from(rest, false));
            assert(collapse_from(b, in_run) =~= seq!['\'', '\''] + o);
            assert((seq!['\'', '\''] + o).skip(2) =~= o);
        }
    }
}

pub proof fn lemma_strings_pass_plain_prefix(a: Seq<char>, r: Seq<char>)
    requires
        all_chars(a, |c: char| not_quote(c)),
    ensures
        strings_pass(a + r) == a + strings_pass(r),
    decreases a.len(),
{
    if a.len() == 0 {
        assert(a + r =~= r);
        assert(a + strings_pass(r) =~= strings_pass(r));
    } else {
        let f = |c: char| not_quote(c);
        lemma_all_chars_drop_first(a, f);
        assert(f(a[0]));
        assert((a + r).drop_first() =~= a.drop_first() + r);
        lemma_strings_pass_plain_prefix(a.drop_first(), r);
        assert(a =~= seq![a[0]] + a.drop_first());
    }
}

proof fn lemma_lit_len_plain_prefix(d: Seq<char>, b: Seq<char>)
    requires
        all_chars(d, |c: char| not_quote(c)),
    ensures
        lit_len(d + b) == (match lit_len(b) {
            Some(m) => Some(m + d.len()),
            None => None,
        }),
    decreases d.len(),
{
    if d.len() == 0 {
        assert(d + b =~= b);
    } else {
        lemma_all_chars_drop_first(d, |c: char| not_quote(c));
        assert(not_quote(d[0]));
        assert((d + b).drop_first() =~= d.drop_first() + b);
        assert((d + b)[0] == d[0]);
        lemma_lit_len_plain_prefix(d.drop_first(), b);
    }
}

/// Where a literal that starts before a quote-free stretch `d` ends does
/// not depend on what `d` holds: before `d`, or at the same place after it.
proof fn lemma_lit_len_shift(a: Seq<char>, d1: Seq<char>, d2: Seq<char>, b: Seq<char>)
    requires
        d1.len() > 0,
        d2.len() > 0,
        all_chars(d1, |c: char| not_quote(c)),
        all_chars(d2, |c: char| not_quote(c)),
    ensures
        (lit_len(a + d1 + b) is None) == (lit_len(a + d2 + b) is None),
        lit_len(a + d1 + b) matches Some(n1) ==> (lit_len(a + d2 + b) matches Some(n2) && (
        (n1 <= a.len() && n2 == n1) || (n1 > a.len() + d1.len() && n2 - d2.len() == n1
            - d1.len()))),
    decreases a.len(),
{
    let t1 = a + d1 + b;
    let t2 = a + d2 + b;
    if a.len() == 0 {
        assert(t1 =~= d1 + b);
        assert(t2 =~= d2 + b);
        lemma_lit_len_plain_prefix(d1, b);
        lemma_lit_len_plain_prefix(d2, b);
        lemma_lit_len_bounds(b);
    } else {
        assert(t1[0] == a[0] && t2[0] == a[0]);
        if a[0] != '\'' {
            assert(t1.drop_first() =~= a.drop_first() + d1 + b);
            assert(t2.drop_first() =~= a.drop_first() + d2 + b);
            lemma_lit_len_shift(a.drop_first(), d1, d2, b);
        } else if a.len() >= 2 && a[1] == '\'' {
            assert(t1[1] == a[1] && t2[1] == a[1]);
            assert(t1.skip(2) =~= a.skip(2) + d1 + b);
            assert(t2.skip(2) =~= a.skip(2) + d2 + b);
            lemma_lit_len_shift(a.skip(2), d1, d2, b);
        } else if a.len() >= 2 {
            assert(t1[1] == a[1] && t2[1] == a[1]);
        } else {
            assert(t1[1] == d1[0] && t2[1] == d2[0]);
            assert(not_quote(d1[0]) && not_quote(d2[0]));
        }
    }
}

/// What the string-literal pass leaves around a quote-free stretch: either
/// the stretch is swallowed by a literal and the two texts come out the
/// same, or the stretch comes out unchanged between the same pieces.
pub proof fn lemma_strings_transparent(
    a: Seq<char>,
    d1: Seq<char>,
    d2: Seq<char>,
    b: Seq<char>,
) -> (x: Option<Seq<char>>)
    requires
        d1.len() > 0,
        d2.len() > 0,
        all_chars(d1, |c: char| not_quote(c)),
        all_chars(d2, |c: char| not_quote(c)),
    ensures
        x is None ==> strings_pass(a + d1 + b) == strings_pass(a + d2 + b),
        x matches Some(x) ==> {
            &&& strings_pass(a + d1 + b) == x + d1 + strings_pass(b)
            &&& strings_pass(a + d2 + b) == x + d2 + strings_pass(b)
            &&& x.len() == 0 ==> a.len() == 0
            &&& x.len() > 0 ==> (x.last() == '?' || (a.len() > 0 && x.last() == a.last()))
        },
    decreases a.len(),
{
    let f = |c: char| not_quote(c);
    let t1 = a + d1 + b;
    let t2 = a + d2 + b;
    if a.len() == 0 {
        assert(t1 =~= d1 + b);
        assert(t2 =~= d2 + b);
        lemma_strings_pass_plain_prefix(d1, b);
        lemma_strings_pass_plain_prefix(d2, b);
        assert(Seq::<char>::empty() + d1 =~= d1);
        assert(Seq::<char>::empty() + d2 =~= d2);
        Some(Seq::<char>::empty())
    } else {
        assert(t1[0] == a[0] && t2[0] == a[0]);
        let rest = a.drop_first();
        assert(t1.drop_first() =~= rest + d1 + b);
        assert(t2.drop_first() =~= rest + d2 + b);
        lemma_lit_len_shift(rest, d1, d2, b);
        lemma_lit_len_bounds(t1.drop_first());
        lemma_lit_len_bounds(t2.drop_first());
        if a[0] == '\'' && lit_len(t1.drop_first()) is Some {
            let n1 = lit_len(t1.drop_first())->0;
            let n2 = lit_len(t2.drop_first())->0;
            if n1 <= rest.len() {
                assert(t1.skip(n1 + 1) =~= a.skip(n1 + 1) + d1 + b);
                assert(t2.skip(n2 + 1) =~= a.skip(n1 + 1) + d2 + b);
                let inner = lemma_strings_transparent(a.skip(n1 + 1), d1, d2, b);
                match inner {
                    Some(y) => {
                        let x = seq!['?'] + y;
                        assert(seq!['?'] + (y + d1 + strings_pass(b)) =~= x + d1 + strings_pass(b));
                        assert(seq!['?'] + (y + d2 + strings_pass(b)) =~= x + d2 + strings_pass(b));
                        if y.len() > 0 {
                            assert(x.last() == y.last());
                            if y.last() != '?' {
                                assert(a.skip(n1 + 1).last() == a.last());
                            }
                        }
                        Some(x)
                    },
                    None => None,
                }
            } else {
                assert(t1.skip(n1 + 1) =~= t2.skip(n2 + 1)) by {
                    assert(t1.skip(n1 + 1) =~= b.skip(n1 + 1 - a.len() - d1.len()));
                    assert(t2.skip(n2 + 1) =~= b.skip(n2 + 1 - a.len() - d2.len()));
                }
                None
            }
        } else {
            let inner = lemma_strings_transparent(rest, d1, d2, b);
            match inner {
                Some(y) => {
                    let x = seq![a[0]] + y;
                    assert(seq![a[0]] + (y + d1 + strings_pass(b)) =~= x + d1 + strings_pass(b));
                    assert(seq![a[0]] + (y + d2 + strings_pass(b)) =~= x + d2 + strings_pass(b));
                    if y.len() > 0 {
                        assert(x.last() == y.last());
                        if y.last() != '?' {
                            assert(rest.last() == a.last());
                        }
                    } else {
                        assert(rest.len() == 0);
                        assert(x.last() == a[0]);
                    }
                    Some(x)
                },
                None => None,
            }
        }
    }
}

/// The collapsed form of a string literal is again a string literal.
proof fn lemma_collapse_sql_string(lit: Seq<char>)
    requires
        sql_string(lit),
    ensures
        ({
            let body = collapse_ws(lit.subrange(1, lit.len() - 1));
            &&& collapse_ws(lit) == seq!['\''] + body + seq!['\'']
            &&& pairs_ok(body)
        }),
{
    let b = lit.subrange(1, lit.len() - 1);
    assert(lit =~= seq!['\''] + (b + seq!['\'']));
    lemma_collapse_concat(seq!['\''], b + seq!['\''], false);
    assert(run_after(seq!['\''], false) == false);
    lemma_collapse_concat(b, seq!['\''], false);
    lemma_collapse_no_ws(seq!['\''], run_after(b, false));
    lemma_collapse_no_ws(seq!['\''], false);
    lemma_pairs_ok_collapse(b, false);
    assert(seq!['\''] + (collapse_ws(b) + seq!['\'']) =~= seq!['\''] + collapse_ws(b) + seq!['\'']);
}

/// `p` is SQL text whose quotes all belong to well-formed string
/// literals, each closed by a quote that no other quote follows.
pub open spec fn sql_text(p: Seq<char>) -> bool
    decreases p.len(),
{
    if p.len() == 0 {
        true
    } else if p[0] != '\'' {
        sql_text(p.drop_first())
    } else {
        match lit_len(p.drop_first()) {
            Some(n) => {
                proof {
                    lemma_lit_len_bounds(p.drop_first());
                }
                &&& pairs_ok(p.subrange(1, n))
                &&& (n + 1 == p.len() || p[n + 1] != '\'')
                &&& sql_text(p.skip(n + 1))
            },
            None => false,
        }
    }
}

proof fn lemma_lit_len_ends_in_quote(t: Seq<char>)
    ensures
        lit_len(t) matches Some(n) ==> t[n - 1] == '\'',
    decreases t.len(),
{
    lemma_lit_len_bounds(t);
    if t.len() > 0 {
        if t[0] != '\'' {
            lemma_lit_len_ends_in_quote(t.drop_first());
            lemma_lit_len_bounds(t.drop_first());
        } else if t.len() >= 2 && t[1] == '\'' {
            lemma_lit_len_ends_in_quote(t.skip(2));
            lemma_lit_len_bounds(t.skip(2));
        }
    }
}

/// The literal that `sql_text` finds at the start of `p`.
proof fn lemma_sql_text_literal(p: Seq<char>) -> (n: int)
    requires
        sql_text(p),
        p.len() > 0,
        p[0] == '\'',
    ensures
        1 <= n < p.len(),
        lit_len(p.drop_first()) == Some(n),
        p =~= seq!['\''] + p.subrange(1, n) + seq!['\''] + p.skip(n + 1),
        sql_string(p.take(n + 1)),
        p.take(n + 1).subrange(1, n) == p.subrange(1, n),
        pairs_ok(p.subrange(1, n)),
        n + 1 == p.len() || p[n + 1] != '\'',
        sql_text(p.skip(n + 1)),
{
    let t = p.drop_first();
    lemma_lit_len_bounds(t);
    lemma_lit_len_ends_in_quote(t);
    let n = lit_len(t)->0;
    assert(p[n] == t[n - 1]);
    assert(p.take(n + 1).subrange(1, n) =~= p.subrange(1, n));
    n
}

/// The string-literal pass works piecewise after SQL text that does not end
/// in a quote (or before text that does not start with one).
proof fn lemma_strings_split(x: Seq<char>, r: Seq<char>)
    requires
        sql_text(x),
        x.len() == 0 || x.last() != '\'' || r.len() == 0 || r[0] != '\'',
    ensures
        strings_pass(x + r) == strings_pass(x) + strings_pass(r),
    decreases x.len(),
{
    if x.len() == 0 {
        assert(x + r =~= r);
        assert(strings_pass(x) + strings_pass(r) =~= strings_pass(r));
    } else {
        let s = x + r;
        assert(s[0] == x[0]);
        if x[0] != '\'' {
            assert(s.drop_first() =~= x.drop_first() + r);
            if x.drop_first().len() > 0 {
                assert(x.drop_first().last() == x.last());
            }
            lemma_strings_split(x.drop_first(), r);
            assert(seq![x[0]] + (strings_pass(x.drop_first()) + strings_pass(r)) =~= (seq![x[0]]
                + strings_pass(x.drop_first())) + strings_pass(r));
        } else {
            let n = lemma_sql_text_literal(x);
            let body = x.subrange(1, n);
            let rest = x.skip(n + 1);
            assert(s.drop_first() =~= body + seq!['\''] + (rest + r));
            if rest.len() > 0 {
                assert(rest[0] == x[n + 1]);
                assert(rest.last() == x.last());
            } else {
                assert(x.last() == x[n]);
            }
            lemma_lit_len_literal(body, rest + r);
            assert(s.skip(n + 1) =~= rest + r);
            lemma_strings_split(rest, r);
            assert(seq!['?'] + (strings_pass(rest) + strings_pass(r)) =~= (seq!['?'] + strings_pass(
                rest,
            )) + strings_pass(r));
        }
    }
}

proof fn lemma_sql_text_trim_start(p: Seq<char>)
    requires
        sql_text(p),
    ensures
        sql_text(trim_start(p)),
    decreases p.len(),
{
    if p.len() > 0 && is_ws(p[0]) {
        lemma_sql_text_trim_start(p.drop_first());
    }
}

/// Collapsing whitespace keeps SQL text SQL text.
proof fn lemma_sql_text_collapse(x: Seq<char>, in_run: bool)
    requires
        sql_text(x),
    ensures
        sql_text(collapse_from(x, in_run)),
        !in_run && collapse_from(x, in_run).len() > 0 ==> x.len() > 0 && (collapse_from(x, in_run)[0]
            == ' ' || collapse_from(x, in_run)[0] == x[0]),
    decreases x.len(),
{
    if x.len() > 0 {
        let o = collapse_from(x, in_run);
        if x[0] != '\'' {
            let rest = x.drop_first();
            lemma_sql_text_collapse(rest, is_ws(x[0]));
            if is_ws(x[0]) && !in_run {
                let o2 = collapse_from(rest, true);
                assert((seq![' '] + o2).drop_first() =~= o2);
            } else if !is_ws(x[0]) {
                let o2 = collapse_from(rest, false);
                assert((seq![x[0]] + o2).drop_first() =~= o2);
            }
        } else {
            let n = lemma_sql_text_literal(x);
            let lit = x.take(n + 1);
            let rest = x.skip(n + 1);
            assert(x =~= lit + rest);
            lemma_collapse_concat(lit, rest, in_run);
            assert(run_after(lit, in_run) == false);
            lemma_collapse_start(lit, in_run);
            lemma_collapse_sql_string(lit);
            let cb = collapse_ws(lit.subrange(1, lit.len() - 1));
            lemma_sql_text_collapse(rest, false);
            let c = collapse_from(rest, false);
            if c.len() > 0 {
                assert(rest[0] == x[n + 1]);
            }
            assert(o =~= seq!['\''] + cb + seq!['\''] + c);
            let t = o.drop_first();
            assert(t =~= cb + seq!['\''] + c);
            lemma_lit_len_literal(cb, c);
            assert(o.subrange(1, cb.len() + 1int) =~= cb);
            assert(o.skip(cb.len() + 2int) =~= c);
            if c.len() > 0 {
                assert(o[cb.len() + 2int] == c[0]);
            }
        }
    }
}

/// What the string-literal pass leaves of a flattened `p + lit + s`.
#[verifier::spinoff_prover]
proof fn lemma_strings_around_literal(p: Seq<char>, lit: Seq<char>, s: Seq<char>)
    requires
        sql_text(p),
        p.len() == 0 || p.last() != '\'',
        s.len() == 0 || s[0] != '\'',
        sql_string(lit),
    ensures
        strings_pass(flatten_spec(p + lit + s)) == strings_pass(flat_left(p)) + seq!['?']
            + strings_pass(flat_right(s)),
{
    lemma_flatten_split(p, lit, s);
    lemma_collapse_sql_string(lit);
    let l = flat_left(p);
    let r = flat_right(s);
    lemma_sql_text_trim_start(p);
    lemma_sql_text_collapse(trim_start(p), false);
    if l.len() > 0 {
        lemma_collapse_last(trim_start(p), false);
        lemma_trim_start_shape(p);
    }
    lemma_trim_end_prefix(s);
    if r.len() > 0 {
        assert(trim_end(s)[0] == s[0]);
    }
    let body = collapse_ws(lit.subrange(1, lit.len() - 1));
    let m = seq!['\''] + body + seq!['\''];
    assert(l + m + r =~= l + (m + r));
    lemma_strings_split(l, m + r);
    let t = m + r;
    assert(t.drop_first() =~= body + seq!['\''] + r);
    lemma_lit_len_literal(body, r);
    assert(t.skip(body.len() + 2int) =~= r);
    assert(strings_pass(t) == seq!['?'] + strings_pass(r));
    assert(strings_pass(l) + (seq!['?'] + strings_pass(r)) =~= strings_pass(l) + seq!['?']
        + strings_pass(r));
}

/// Replacing one well-formed string literal of a query by another leaves
/// its fingerprint unchanged, where the literal stands apart: after SQL
/// text whose own literals are complete and that does not end in a quote,
/// and before text that does not start with one. `WHERE name = 'alice'`
/// and `WHERE name = 'bob'` (or `'O''Brien'`) are the same shape.
pub proof fn law_string_literals_collapse(
    p: Seq<char>,
    s: Seq<char>,
    lit1: Seq<char>,
    lit2: Seq<char>,
)
    requires
        sql_text(p),
        p.len() == 0 || p.last() != '\'',
        s.len() == 0 || s[0] != '\'',
        sql_string(lit1),
        sql_string(lit2),
    ensures
        normalize_spec(p + lit1 + s) == normalize_spec(p + lit2 + s),
{
    reveal(normalize_spec);
    lemma_strings_around_literal(p, lit1, s);
    lemma_strings_around_literal(p, lit2, s);
}

// ---------------------------------------------------------------------
// Numbers.
// ---------------------------------------------------------------------

/// An ASCII character that can neither be part of a number nor of a word:
/// anything but a letter, a digit, `_` and `.`. It ends any number before
/// it.
pub open spec fn stop_char(c: char) -> bool {
    &&& (c as u32) < 0x80
    &&& !('0' <= c && c <= '9')
    &&& !('a' <= c && c <= 'z')
    &&& !('A' <= c && c <= 'Z')
    &&& c != '_'
    &&& c != '.'
}

/// A character that, once flattened, is a `stop_char`: whitespace becomes
/// a space.
pub open spec fn sep_char(c: char) -> bool {
    is_ws(c) || stop_char(c)
}

pub open spec fn ascii_digits(d: Seq<char>) -> bool {
    d.len() > 0 && forall|k: int| 0 <= k < d.len() ==> is_ascii_digit(#[trigger] d[k])
}

/// A numeric literal: ASCII digits, with an optional fractional part.
pub open spec fn sql_number(d: Seq<char>) -> bool {
    ||| ascii_digits(d)
    ||| exists|k: int|
        0 < k < d.len() && d[k] == '.' && ascii_digits(#[trigger] d.take(k)) && ascii_digits(
            d.skip(k + 1),
        )
}

pub proof fn lemma_stop_char(c: char)
    requires
        stop_char(c),
    ensures
        !is_digit(c),
        !is_word(c),
        c != '.',
{
}

proof fn lemma_ascii_digit(c: char)
    requires
        is_ascii_digit(c),
    ensures
        is_digit(c),
        is_word(c),
        c != '.',
        !is_ws(c),
{
}

proof fn lemma_digit_run_concat(x: Seq<char>, r: Seq<char>)
    requires
        x.len() > 0,
        !is_digit(x.last()),
    ensures
        digit_run(x + r) == digit_run(x),
    decreases x.len(),
{
    if is_digit(x[0]) {
        assert(x.len() > 1);
        assert((x + r).drop_first() =~= x.drop_first() + r);
        assert(x.drop_first().last() == x.last());
        lemma_digit_run_concat(x.drop_first(), r);
    }
}

proof fn lemma_digit_run_digits(d: Seq<char>, r: Seq<char>)
    requires
        forall|k: int| 0 <= k < d.len() ==> is_ascii_digit(#[trigger] d[k]),
        r.len() == 0 || !is_digit(r[0]),
    ensures
        digit_run(d + r) == d.len(),
    decreases d.len(),
{
    if d.len() == 0 {
        assert(d + r =~= r);
    } else {
        lemma_ascii_digit(d[0]);
        assert((d + r).drop_first() =~= d.drop_first() + r);
        assert forall|k: int| 0 <= k < d.drop_first().len() implies is_ascii_digit(
            #[trigger] d.drop_first()[k],
        ) by {
            assert(d.drop_first()[k] == d[k + 1]);
        }
        lemma_digit_run_digits(d.drop_first(), r);
    }
}

proof fn lemma_last_boundary_concat(x: Seq<char>, r: Seq<char>, pw: bool, lo: int, hi: int)
    requires
        0 <= lo,
        hi < x.len(),
    ensures
        last_boundary(x + r, pw, lo, hi) == last_boundary(x, pw, lo, hi),
    decreases hi - lo + 1,
{
    if hi >= lo {
        assert(word_at(x + r, hi) == word_at(x, hi));
        if hi > 0 {
            assert((x + r)[hi - 1] == x[hi - 1]);
        }
        assert(boundary(x + r, pw, hi) == boundary(x, pw, hi));
        lemma_last_boundary_concat(x, r, pw, lo, hi - 1);
    }
}

/// A number matched at the start of `s` ends with a digit.
pub proof fn lemma_number_ends_in_digit(s: Seq<char>, pw: bool)
    ensures
        number_len(s, pw) matches Some(n) ==> is_digit(s[n - 1]),
{
    if s.len() > 0 && is_digit(s[0]) && boundary(s, pw, 0) {
        let a = digit_run(s);
        lemma_digit_run_bounds(s);
        lemma_last_boundary_bounds(s, pw, 1, a);
        if a + 1 < s.len() && s[a] == '.' && is_digit(s[a + 1]) {
            let t = s.skip(a + 1);
            lemma_digit_run_bounds(t);
            let hi = a + 1 + digit_run(t);
            lemma_last_boundary_bounds(s, pw, a + 2, hi);
            if let Some(b) = last_boundary(s, pw, a + 2, hi) {
                assert(s[b - 1] == t[b - 1 - (a + 1)]);
            }
        }
    }
}

/// Numbers that end before a `stop_char` are matched the same whatever
/// follows it.
#[verifier::spinoff_prover]
proof fn lemma_number_len_concat(x: Seq<char>, r: Seq<char>, pw: bool)
    requires
        x.len() > 0,
        stop_char(x.last()),
    ensures
        number_len(x + r, pw) == number_len(x, pw),
        number_len(x, pw) matches Some(n) ==> n < x.len(),
{
    let s = x + r;
    lemma_stop_char(x.last());
    assert(s[0] == x[0]);
    assert(word_at(s, 0) == word_at(x, 0));
    if x[0] == x.last() && x.len() == 1 {
    }
    if is_digit(x[0]) && boundary(x, pw, 0) {
        lemma_digit_run_concat(x, r);
        lemma_digit_run_bounds(x);
        let a = digit_run(x);
        assert(a < x.len()) by {
            if a == x.len() {
                assert(is_digit(x[x.len() - 1]));
            }
        }
        lemma_last_boundary_concat(x, r, pw, 1, a);
        if a + 1 < x.len() {
            assert(s[a] == x[a] && s[a + 1] == x[a + 1]);
        } else {
            assert(a == x.len() - 1);
            assert(x[a] != '.');
            assert(s[a] == x[a]);
        }
        if a + 1 < x.len() && x[a] == '.' && is_digit(x[a + 1]) {
            let t = x.skip(a + 1);
            assert(s.skip(a + 1) =~= t + r);
            assert(t.last() == x.last());
            lemma_digit_run_concat(t, r);
            lemma_digit_run_bounds(t);
            let hi = a + 1 + digit_run(t);
            assert(hi < x.len()) by {
                if hi == x.len() {
                    assert(is_digit(t[t.len() - 1]));
                }
            }
            lemma_last_boundary_concat(x, r, pw, a + 2, hi);
        }
    }
    lemma_number_ends_in_digit(x, pw);
    lemma_number_len_bounds(x, pw);
}

/// Whether the character before the text after `x` is a word character.
pub open spec fn word_after(x: Seq<char>, pw: bool) -> bool {
    if x.len() == 0 {
        pw
    } else {
        is_word(x.last())
    }
}

/// The number pass works piecewise across a `stop_char`.
pub proof fn lemma_numbers_concat(x: Seq<char>, r: Seq<char>, pw: bool)
    requires
        x.len() == 0 || stop_char(x.last()),
    ensures
        numbers_from(x + r, pw) == numbers_from(x, pw) + numbers_from(r, word_after(x, pw)),
    decreases x.len(),
{
    if x.len() == 0 {
        assert(x + r =~= r);
        assert(numbers_from(x, pw) + numbers_from(r, pw) =~= numbers_from(r, pw));
    } else {
        let s = x + r;
        lemma_number_len_concat(x, r, pw);
        lemma_number_len_bounds(x, pw);
        assert(s[0] == x[0]);
        match number_len(x, pw) {
            Some(n) => {
                let t = x.skip(n);
                assert(s.skip(n) =~= t + r);
                assert(t.last() == x.last());
                assert(s[n - 1] == x[n - 1]);
                lemma_numbers_concat(t, r, is_word(x[n - 1]));
                assert(seq!['?'] + (numbers_from(t, is_word(x[n - 1])) + numbers_from(
                    r,
                    word_after(t, is_word(x[n - 1])),
                )) =~= (seq!['?'] + numbers_from(t, is_word(x[n - 1]))) + numbers_from(
                    r,
                    word_after(t, is_word(x[n - 1])),
                ));
            },
            None => {
                let t = x.drop_first();
                assert(s.drop_first() =~= t + r);
                if t.len() > 0 {
                    assert(t.last() == x.last());
                }
                lemma_numbers_concat(t, r, is_word(x[0]));
                assert(seq![x[0]] + (numbers_from(t, is_word(x[0])) + numbers_from(
                    r,
                    word_after(t, is_word(x[0])),
                )) =~= (seq![x[0]] + numbers_from(t, is_word(x[0]))) + numbers_from(
                    r,
                    word_after(t, is_word(x[0])),
                ));
            },
        }
    }
}

/// A numeric literal followed by a `stop_char` (or nothing) is matched
/// whole.
#[verifier::spinoff_prover]
proof fn lemma_number_len_literal(d: Seq<char>, r: Seq<char>)
    requires
        sql_number(d),
        r.len() == 0 || stop_char(r[0]),
    ensures
        number_len(d + r, false) == Some(d.len() as int),
{
    let s = d + r;
    if r.len() > 0 {
        lemma_stop_char(r[0]);
        assert(s[d.len() as int] == r[0]);
    }
    assert(s[0] == d[0]);
    if ascii_digits(d) {
        lemma_ascii_digit(d[0]);
        lemma_digit_run_digits(d, r);
        assert(s[d.len() - 1] == d[d.len() - 1]);
        lemma_ascii_digit(d[d.len() - 1]);
        assert(boundary(s, false, d.len() as int));
    } else {
        let k = choose|k: int|
            0 < k < d.len() && d[k] == '.' && ascii_digits(#[trigger] d.take(k)) && ascii_digits(
                d.skip(k + 1),
            );
        let i = d.take(k);
        let f = d.skip(k + 1);
        assert(d =~= i + (seq!['.'] + f));
        assert(s =~= i + (seq!['.'] + f + r));
        assert(i[0] == d[0]);
        lemma_ascii_digit(d[0]);
        lemma_digit_run_digits(i, seq!['.'] + f + r);
        assert(s[k] == '.');
        assert(s[k + 1] == f[0]);
        lemma_ascii_digit(f[0]);
        assert(s.skip(k + 1) =~= f + r);
        lemma_digit_run_digits(f, r);
        assert(s[d.len() - 1] == f[f.len() - 1]);
        lemma_ascii_digit(f[f.len() - 1]);
        assert(boundary(s, false, d.len() as int));
    }
}

/// How flattening leaves the last character of the text before a middle
/// part, and the first of the text after it.
proof fn lemma_collapse_last(t: Seq<char>, in_run: bool)
    requires
        collapse_from(t, in_run).len() > 0,
    ensures
        t.len() > 0,
        collapse_from(t, in_run).last() == (if is_ws(t.last()) {
            ' '
        } else {
            t.last()
        }),
    decreases t.len(),
{
    let o = collapse_from(t, in_run);
    if t.len() == 0 {
    } else {
        let dl = t.drop_last();
        assert(t =~= dl + seq![t.last()]);
        lemma_collapse_concat(dl, seq![t.last()], in_run);
        let st = run_after(dl, in_run);
        let tail = collapse_from(seq![t.last()], st);
        assert(seq![t.last()].drop_first() =~= Seq::<char>::empty());
        assert(collapse_from(Seq::<char>::empty(), false) == Seq::<char>::empty());
        assert(collapse_from(Seq::<char>::empty(), true) == Seq::<char>::empty());
        assert(seq![t.last()][0] == t.last());
        if !is_ws(t.last()) {
            assert(tail =~= seq![t.last()]);
        } else if !st {
            assert(tail =~= seq![' ']);
        } else {
            assert(tail =~= Seq::<char>::empty());
            assert(collapse_from(dl, in_run) + tail =~= collapse_from(dl, in_run));
            if dl.len() > 0 {
                lemma_collapse_last(dl, in_run);
            }
        }
    }
}

proof fn lemma_trim_end_prefix(s: Seq<char>)
    ensures
        trim_end(s).len() <= s.len(),
        trim_end(s) == s.take(trim_end(s).len() as int),
    decreases s.len(),
{
    if s.len() > 0 && is_ws(s.last()) {
        lemma_trim_end_prefix(s.drop_last());
        assert(s.drop_last().take(trim_end(s).len() as int) =~= s.take(trim_end(s).len() as int));
    } else {
        assert(s.take(s.len() as int) =~= s);
    }
}

pub proof fn lemma_flat_left_ends(p: Seq<char>)
    requires
        p.len() == 0 || sep_char(p.last()),
    ensures
        flat_left(p).len() == 0 || stop_char(flat_left(p).last()),
{
    if flat_left(p).len() > 0 {
        lemma_collapse_last(trim_start(p), false);
        lemma_trim_start_shape(p);
    }
}

proof fn lemma_flat_right_starts(s: Seq<char>)
    requires
        s.len() == 0 || sep_char(s[0]),
    ensures
        flat_right(s).len() == 0 || stop_char(flat_right(s)[0]),
{
    let t = trim_end(s);
    lemma_trim_end_prefix(s);
    if t.len() > 0 {
        assert(t[0] == s[0]);
    }
}

proof fn lemma_number_not_ws(d: Seq<char>)
    requires
        sql_number(d),
    ensures
        forall|k: int| 0 <= k < d.len() ==> !is_ws(#[trigger] d[k]) && not_quote(d[k]),
{
    if !ascii_digits(d) {
        let k = choose|k: int|
            0 < k < d.len() && d[k] == '.' && ascii_digits(#[trigger] d.take(k)) && ascii_digits(
                d.skip(k + 1),
            );
        assert forall|j: int| 0 <= j < d.len() implies !is_ws(#[trigger] d[j]) && not_quote(d[j]) by {
            if j < k {
                assert(d[j] == d.take(k)[j]);
            } else if j > k {
                assert(d[j] == d.skip(k + 1)[j - k - 1]);
            }
        }
    }
}

/// The number pass over a number between two `stop_char`s (or ends).
#[verifier::spinoff_prover]
proof fn lemma_numbers_core(x: Seq<char>, d: Seq<char>, y: Seq<char>)
    requires
        x.len() == 0 || stop_char(x.last()),
        y.len() == 0 || stop_char(y[0]),
        sql_number(d),
    ensures
        numbers_pass(x + d + y) == numbers_from(x, false) + seq!['?'] + numbers_from(y, true),
{
    assert(x + d + y =~= x + (d + y));
    lemma_numbers_concat(x, d + y, false);
    if x.len() > 0 {
        lemma_stop_char(x.last());
    }
    lemma_number_len_literal(d, y);
    assert((d + y).skip(d.len() as int) =~= y);
    assert((d + y)[d.len() - 1] == d[d.len() - 1]);
    lemma_number_is_word_end(d);
    assert(numbers_from(x, false) + (seq!['?'] + numbers_from(y, true)) =~= numbers_from(x, false)
        + seq!['?'] + numbers_from(y, true));
}

/// The string-literal pass starts its output with `?` or with the first
/// character of its input.
proof fn lemma_strings_pass_first(y: Seq<char>)
    ensures
        strings_pass(y).len() == 0 <==> y.len() == 0,
        y.len() > 0 ==> (strings_pass(y)[0] == '?' || strings_pass(y)[0] == y[0]),
{
}

proof fn lemma_question_mark_stops()
    ensures
        stop_char('?'),
{
}

/// Replacing one number of a query by another leaves its fingerprint
/// unchanged, where the number stands on its own: after whitespace, the
/// start of the query or a punctuation character, and before whitespace,
/// the end of the query or a punctuation character other than `.`.
/// `WHERE id = 123` and `WHERE id = 456` are one shape, as are
/// `price > 19.99` and `price > 5`.
pub proof fn law_numbers_collapse(p: Seq<char>, s: Seq<char>, d1: Seq<char>, d2: Seq<char>)
    requires
        p.len() == 0 || sep_char(p.last()),
        s.len() == 0 || sep_char(s[0]),
        sql_number(d1),
        sql_number(d2),
    ensures
        normalize_spec(p + d1 + s) == normalize_spec(p + d2 + s),
{
    reveal(normalize_spec);
    lemma_number_not_ws(d1);
    lemma_number_not_ws(d2);
    lemma_flatten_split(p, d1, s);
    lemma_flatten_split(p, d2, s);
    lemma_collapse_no_ws(d1, false);
    lemma_collapse_no_ws(d2, false);
    let l = flat_left(p);
    let r = flat_right(s);
    lemma_flat_left_ends(p);
    lemma_flat_right_starts(s);
    match lemma_strings_transparent(l, d1, d2, r) {
        None => {},
        Some(x) => {
            let y = strings_pass(r);
            lemma_strings_pass_first(r);
            lemma_question_mark_stops();
            lemma_numbers_core(x, d1, y);
            lemma_numbers_core(x, d2, y);
        },
    }
}

// ---------------------------------------------------------------------
// Lists of numbers.
// ---------------------------------------------------------------------

pub open spec fn number_list(ns: Seq<Seq<char>>) -> bool {
    ns.len() > 0 && forall|i: int| 0 <= i < ns.len() ==> sql_number(#[trigger] ns[i])
}

/// Nothing but whitespace, possibly nothing at all.
pub open spec fn blank(g: Seq<char>) -> bool {
    forall|k: int| 0 <= k < g.len() ==> is_ws(#[trigger] g[k])
}

/// The `2 * k` gaps of a list of `k` items, each of them blank.
pub open spec fn list_gaps(gs: Seq<Seq<char>>, k: nat) -> bool {
    gs.len() == 2 * k && forall|i: int| 0 <= i < gs.len() ==> blank(#[trigger] gs[i])
}

/// The items `ns` written as a list, with the gap `gs[2 * i]` before item
/// `i`, the gap `gs[2 * i + 1]` after it, and a `,` before the next item's
/// gap: `1, 2` is the items `1` and `2` with the gaps `""`, `""`, `" "`,
/// `""`, and ` 1 ` is the item `1` with the gaps `" "`, `" "`.
pub open spec fn spaced_list(ns: Seq<Seq<char>>, gs: Seq<Seq<char>>) -> Seq<char>
    decreases ns.len(),
{
    if ns.len() == 0 {
        seq![]
    } else if ns.len() == 1 {
        gs[0] + ns[0] + gs[1]
    } else {
        gs[0] + ns[0] + gs[1] + seq![','] + spaced_list(ns.drop_first(), gs.skip(2))
    }
}

/// A gap as flattening leaves it between two other characters: nothing,
/// or one space.
spec fn flat_gap(g: Seq<char>) -> bool {
    g.len() == 0 || g == seq![' ']
}

spec fn flat_gaps(gs: Seq<Seq<char>>, k: nat) -> bool {
    gs.len() == 2 * k && forall|i: int| 0 <= i < gs.len() ==> flat_gap(#[trigger] gs[i])
}

/// `k` placeholders, as the items of a list.
spec fn marks(k: nat) -> Seq<Seq<char>> {
    Seq::new(k, |i: int| seq!['?'])
}

proof fn lemma_number_list_tail(ns: Seq<Seq<char>>)
    requires
        number_list(ns),
        ns.len() > 1,
    ensures
        number_list(ns.drop_first()),
{
    assert forall|i: int| 0 <= i < ns.drop_first().len() implies sql_number(
        #[trigger] ns.drop_first()[i],
    ) by {
        assert(ns.drop_first()[i] == ns[i + 1]);
    }
}

proof fn lemma_list_gaps_tail(gs: Seq<Seq<char>>, k: nat)
    requires
        list_gaps(gs, k),
        k > 1,
    ensures
        list_gaps(gs.skip(2), (k - 1) as nat),
        blank(gs[0]),
        blank(gs[1]),
{
    assert forall|i: int| 0 <= i < gs.skip(2).len() implies blank(#[trigger] gs.skip(2)[i]) by {
        assert(gs.skip(2)[i] == gs[i + 2]);
    }
}

proof fn lemma_flat_gaps_tail(gs: Seq<Seq<char>>, k: nat)
    requires
        flat_gaps(gs, k),
        k > 1,
    ensures
        flat_gaps(gs.skip(2), (k - 1) as nat),
        gs.skip(2)[2 * (k - 1) - 1] == gs[2 * k - 1],
{
    assert forall|i: int| 0 <= i < gs.skip(2).len() implies flat_gap(#[trigger] gs.skip(2)[i]) by {
        assert(gs.skip(2)[i] == gs[i + 2]);
    }
}

proof fn lemma_marks_tail(k: nat)
    requires
        k > 1,
    ensures
        marks(k).drop_first() == marks((k - 1) as nat),
        marks(k).len() == k,
        marks(k)[0] == seq!['?'],
{
    assert(marks(k).drop_first() =~= marks((k - 1) as nat));
}

proof fn lemma_marks_one()
    ensures
        marks(1).len() == 1,
        marks(1)[0] == seq!['?'],
{
}

// ---------------------------------------------------------------------
// Flattening a list.
// ---------------------------------------------------------------------

/// Inside a run, blank text collapses to nothing.
proof fn lemma_collapse_blank(g: Seq<char>)
    requires
        blank(g),
    ensures
        collapse_from(g, true) == Seq::<char>::empty(),
    decreases g.len(),
{
    if g.len() > 0 {
        assert forall|k: int| 0 <= k < g.drop_first().len() implies is_ws(
            #[trigger] g.drop_first()[k],
        ) by {
            assert(g.drop_first()[k] == g[k + 1]);
        }
        assert(is_ws(g[0]));
        lemma_collapse_blank(g.drop_first());
    }
}

/// A blank gap before text that starts with something other than
/// whitespace collapses to nothing or one space.
proof fn lemma_collapse_gap(g: Seq<char>, v: Seq<char>) -> (f: Seq<char>)
    requires
        blank(g),
        v.len() > 0,
        !is_ws(v[0]),
    ensures
        flat_gap(f),
        collapse_from(g + v, false) == f + collapse_from(v, false),
{
    lemma_collapse_concat(g, v, false);
    lemma_collapse_start(v, run_after(g, false));
    if g.len() == 0 {
        assert(Seq::<char>::empty() + collapse_from(v, false) =~= collapse_from(v, false));
        Seq::<char>::empty()
    } else {
        assert(is_ws(g[0]));
        assert forall|k: int| 0 <= k < g.drop_first().len() implies is_ws(
            #[trigger] g.drop_first()[k],
        ) by {
            assert(g.drop_first()[k] == g[k + 1]);
        }
        lemma_collapse_blank(g.drop_first());
        assert(collapse_from(g, false) =~= seq![' ']);
        seq![' ']
    }
}

/// A number followed by a blank gap and text that starts with something
/// other than whitespace: the number stays, the gap collapses.
proof fn lemma_collapse_item(d: Seq<char>, g: Seq<char>, v: Seq<char>) -> (f: Seq<char>)
    requires
        sql_number(d),
        blank(g),
        v.len() > 0,
        !is_ws(v[0]),
    ensures
        flat_gap(f),
        d.len() > 0,
        !is_ws(d[0]),
        collapse_from(d + (g + v), false) == d + (f + collapse_from(v, false)),
{
    lemma_number_not_ws(d);
    lemma_number_is_word_end(d);
    lemma_collapse_concat(d, g + v, false);
    lemma_collapse_no_ws(d, false);
    assert(!is_ws(d.last()));
    assert(run_after(d, false) == false);
    lemma_collapse_gap(g, v)
}

/// Flattening a list keeps its items and turns each of its gaps into
/// nothing or one space.
#[verifier::spinoff_prover]
#[verifier::rlimit(40)]
proof fn lemma_collapse_spaced(ns: Seq<Seq<char>>, gs: Seq<Seq<char>>, t: Seq<char>) -> (fgs: Seq<
    Seq<char>,
>)
    requires
        number_list(ns),
        list_gaps(gs, ns.len()),
        t.len() > 0,
        !is_ws(t[0]),
    ensures
        flat_gaps(fgs, ns.len()),
        collapse_from(spaced_list(ns, gs) + t, false) == spaced_list(ns, fgs) + collapse_from(
            t,
            false,
        ),
    decreases ns.len(),
{
    let d = ns[0];
    assert(sql_number(d));
    let g0 = gs[0];
    let g1 = gs[1];
    assert(blank(g0) && blank(g1));
    if ns.len() == 1 {
        let f1 = lemma_collapse_item(d, g1, t);
        let w = d + (g1 + t);
        assert(w[0] == d[0]);
        let f0 = lemma_collapse_gap(g0, w);
        let fgs = seq![f0, f1];
        assert(spaced_list(ns, gs) + t =~= g0 + w);
        assert(spaced_list(ns, fgs) + collapse_from(t, false) =~= f0 + (d + (f1 + collapse_from(
            t,
            false,
        ))));
        assert forall|i: int| 0 <= i < fgs.len() implies flat_gap(#[trigger] fgs[i]) by {
            if i == 0 {
                assert(fgs[i] == f0);
            } else {
                assert(fgs[i] == f1);
            }
        }
        fgs
    } else {
        lemma_number_list_tail(ns);
        lemma_list_gaps_tail(gs, ns.len());
        let rest = ns.drop_first();
        let tail_text = spaced_list(rest, gs.skip(2)) + t;
        let tail = lemma_collapse_spaced(rest, gs.skip(2), t);
        let v = seq![','] + tail_text;
        assert(v.drop_first() =~= tail_text);
        assert(collapse_from(v, false) == seq![','] + collapse_from(tail_text, false));
        let f1 = lemma_collapse_item(d, g1, v);
        let w = d + (g1 + v);
        assert(w[0] == d[0]);
        let f0 = lemma_collapse_gap(g0, w);
        let fgs = seq![f0, f1] + tail;
        assert(fgs.skip(2) =~= tail);
        assert(fgs[0] == f0 && fgs[1] == f1);
        assert(spaced_list(ns, gs) + t =~= g0 + w);
        assert(spaced_list(ns, fgs) + collapse_from(t, false) =~= f0 + (d + (f1 + (seq![',']
            + (spaced_list(rest, tail) + collapse_from(t, false))))));
        assert forall|i: int| 0 <= i < fgs.len() implies flat_gap(#[trigger] fgs[i]) by {
            if i == 0 {
                assert(fgs[i] == f0);
            } else if i == 1 {
                assert(fgs[i] == f1);
            } else {
                assert(fgs[i] == tail[i - 2]);
            }
        }
        fgs
    }
}

/// A flattened list holds no quote.
proof fn lemma_spaced_plain(ns: Seq<Seq<char>>, fgs: Seq<Seq<char>>)
    requires
        number_list(ns),
        flat_gaps(fgs, ns.len()),
    ensures
        all_chars(spaced_list(ns, fgs), |c: char| not_quote(c)),
    decreases ns.len(),
{
    let f = |c: char| not_quote(c);
    let d = ns[0];
    assert(sql_number(d));
    lemma_number_not_ws(d);
    assert(all_chars(d, f));
    let g0 = fgs[0];
    let g1 = fgs[1];
    assert(flat_gap(g0) && flat_gap(g1));
    assert(all_chars(g0, f));
    assert(all_chars(g1, f));
    let item = g0 + d + g1;
    lemma_all_chars_concat(g0, d, f);
    lemma_all_chars_concat(g0 + d, g1, f);
    if ns.len() > 1 {
        lemma_number_list_tail(ns);
        lemma_flat_gaps_tail(fgs, ns.len());
        let rest = spaced_list(ns.drop_first(), fgs.skip(2));
        lemma_spaced_plain(ns.drop_first(), fgs.skip(2));
        lemma_all_chars_concat(item, seq![','], f);
        lemma_all_chars_concat(item + seq![','], rest, f);
    }
}

proof fn lemma_number_is_word_end(d: Seq<char>)
    requires
        sql_number(d),
    ensures
        d.len() > 0,
        is_word(d[d.len() - 1]),
{
    if ascii_digits(d) {
        lemma_ascii_digit(d[d.len() - 1]);
    } else {
        let k = choose|k: int|
            0 < k < d.len() && d[k] == '.' && ascii_digits(#[trigger] d.take(k)) && ascii_digits(
                d.skip(k + 1),
            );
        assert(d[d.len() - 1] == d.skip(k + 1)[d.len() - k - 2]);
        lemma_ascii_digit(d[d.len() - 1]);
    }
}

/// The number pass keeps a trailing `stop_char`.
#[verifier::spinoff_prover]
proof fn lemma_numbers_keep_last(x: Seq<char>, c: char, pw: bool)
    requires
        stop_char(c),
    ensures
        numbers_from(x + seq![c], pw).len() > 0,
        numbers_from(x + seq![c], pw) == numbers_from(x + seq![c], pw).drop_last() + seq![c],
    decreases x.len(),
{
    let s = x + seq![c];
    lemma_stop_char(c);
    if x.len() == 0 {
        assert(s =~= seq![c]);
        assert(number_len(s, pw) is None);
        assert(s.drop_first() =~= Seq::<char>::empty());
        assert(numbers_from(Seq::<char>::empty(), is_word(c)) == Seq::<char>::empty());
        assert(s[0] == c);
        assert(numbers_from(s, pw) == seq![c] + numbers_from(s.drop_first(), is_word(c)));
        assert(numbers_from(s, pw) =~= seq![c]);
    } else {
        lemma_number_len_bounds(s, pw);
        lemma_number_ends_in_digit(s, pw);
        match number_len(s, pw) {
            Some(n) => {
                assert(n <= x.len()) by {
                    if n == s.len() {
                        assert(s[n - 1] == c);
                    }
                }
                assert(s.skip(n) =~= x.skip(n) + seq![c]);
                lemma_numbers_keep_last(x.skip(n), c, is_word(s[n - 1]));
                let o = numbers_from(x.skip(n) + seq![c], is_word(s[n - 1]));
                assert(numbers_from(s, pw) == seq!['?'] + o);
                assert(seq!['?'] + o =~= (seq!['?'] + o).drop_last() + seq![c]);
            },
            None => {
                assert(s.drop_first() =~= x.drop_first() + seq![c]);
                lemma_numbers_keep_last(x.drop_first(), c, is_word(s[0]));
                let o = numbers_from(x.drop_first() + seq![c], is_word(s[0]));
                assert(numbers_from(s, pw) == seq![s[0]] + o);
                assert(seq![s[0]] + o =~= (seq![s[0]] + o).drop_last() + seq![c]);
            },
        }
    }
}

/// A character that no list can run across: not whitespace, `?`, `,` or
/// `)`.
pub open spec fn list_breaker(c: char) -> bool {
    !is_ws(c) && c != '?' && c != ',' && c != ')'
}

proof fn lemma_ws_run_concat(y: Seq<char>, r: Seq<char>)
    requires
        r.len() > 0,
        !is_ws(r[0]),
    ensures
        ws_run(y + r) == ws_run(y),
    decreases y.len(),
{
    if y.len() == 0 {
        assert(y + r =~= r);
    } else {
        assert((y + r).drop_first() =~= y.drop_first() + r);
        lemma_ws_run_concat(y.drop_first(), r);
    }
}

proof fn lemma_list_item_len_concat(y: Seq<char>, r: Seq<char>)
    requires
        r.len() > 0,
        list_breaker(r[0]),
    ensures
        list_item_len(y + r) == list_item_len(y),
{
    let s = y + r;
    lemma_ws_run_concat(y, r);
    lemma_ws_run_bounds(y);
    let k = ws_run(y);
    if k < y.len() {
        assert(s[k] == y[k]);
        if y[k] == ',' {
            assert(s.skip(k + 1) =~= y.skip(k + 1) + r);
            lemma_ws_run_concat(y.skip(k + 1), r);
            lemma_ws_run_bounds(y.skip(k + 1));
            let m = ws_run(y.skip(k + 1));
            if k + 1 + m < y.len() {
                assert(s[k + 1 + m] == y[k + 1 + m]);
            } else {
                assert(s[k + 1 + m] == r[0]);
            }
        }
    } else {
        assert(s[k] == r[0]);
    }
}

proof fn lemma_list_tail_concat(y: Seq<char>, r: Seq<char>)
    requires
        r.len() > 0,
        list_breaker(r[0]),
    ensures
        list_tail(y + r) == list_tail(y),
    decreases y.len(),
{
    lemma_list_item_len_concat(y, r);
    lemma_list_item_len_bounds(y);
    let c = list_item_len(y);
    if c > 0 {
        assert((y + r).skip(c) =~= y.skip(c) + r);
        lemma_list_tail_concat(y.skip(c), r);
    }
}

#[verifier::spinoff_prover]
pub proof fn lemma_list_len_concat(y: Seq<char>, r: Seq<char>)
    requires
        y.len() > 0,
        r.len() > 0,
        list_breaker(r[0]),
    ensures
        list_len(y + r) == list_len(y),
        list_len(y) matches Some(n) ==> n <= y.len(),
{
    let s = y + r;
    lemma_list_len_bounds(y);
    assert(s[0] == y[0]);
    if y[0] == '(' {
        assert(s.drop_first() =~= y.drop_first() + r);
        lemma_ws_run_concat(y.drop_first(), r);
        lemma_ws_run_bounds(y.drop_first());
        let j = 1 + ws_run(y.drop_first());
        if j < y.len() {
            assert(s[j] == y[j]);
            if y[j] == '?' {
                assert(s.skip(j + 1) =~= y.skip(j + 1) + r);
                lemma_list_tail_concat(y.skip(j + 1), r);
                crate::fingerprint::lemma_list_tail_bounds(y.skip(j + 1));
                let e = j + 1 + list_tail(y.skip(j + 1));
                assert(s.skip(e) =~= y.skip(e) + r);
                lemma_ws_run_concat(y.skip(e), r);
                lemma_ws_run_bounds(y.skip(e));
                let k = e + ws_run(y.skip(e));
                if k < y.len() {
                    assert(s[k] == y[k]);
                } else {
                    assert(s[k] == r[0]);
                }
            }
        } else {
            assert(s[j] == r[0]);
        }
    }
}

/// The list pass works piecewise before a `list_breaker`.
pub proof fn lemma_lists_concat(y: Seq<char>, r: Seq<char>)
    requires
        r.len() > 0,
        list_breaker(r[0]),
    ensures
        lists_pass(y + r) == lists_pass(y) + lists_pass(r),
    decreases y.len(),
{
    if y.len() == 0 {
        assert(y + r =~= r);
        assert(lists_pass(y) + lists_pass(r) =~= lists_pass(r));
    } else {
        let s = y + r;
        lemma_list_len_concat(y, r);
        lemma_list_len_bounds(y);
        assert(s[0] == y[0]);
        match list_len(y) {
            Some(n) => {
                assert(s.skip(n) =~= y.skip(n) + r);
                lemma_lists_concat(y.skip(n), r);
                assert(seq!['(', '?', ')'] + (lists_pass(y.skip(n)) + lists_pass(r))
                    =~= (seq!['(', '?', ')'] + lists_pass(y.skip(n))) + lists_pass(r));
            },
            None => {
                assert(s.drop_first() =~= y.drop_first() + r);
                lemma_lists_concat(y.drop_first(), r);
                assert(seq![y[0]] + (lists_pass(y.drop_first()) + lists_pass(r)) =~= (seq![y[0]]
                    + lists_pass(y.drop_first())) + lists_pass(r));
            },
        }
    }
}

// ---------------------------------------------------------------------
// The number and list passes over a flattened list.
// ---------------------------------------------------------------------

/// The number pass goes over a `stop_char`, after which no word goes on.
pub proof fn lemma_numbers_stop(c: char, r: Seq<char>, pw: bool)
    requires
        stop_char(c),
    ensures
        numbers_from(seq![c] + r, pw) == seq![c] + numbers_from(r, false),
{
    let s = seq![c] + r;
    lemma_stop_char(c);
    assert(s[0] == c);
    assert(number_len(s, pw) is None);
    assert(s.drop_first() =~= r);
}

proof fn lemma_space_stops()
    ensures
        stop_char(' '),
        is_ws(' '),
        !is_ws('?'),
        !is_ws(','),
        !is_ws(')'),
        !is_ws('('),
{
}

/// The number pass keeps a flat gap before a `stop_char`.
proof fn lemma_numbers_gap(g: Seq<char>, c: char, r: Seq<char>, pw: bool)
    requires
        flat_gap(g),
        stop_char(c),
    ensures
        numbers_from(g + (seq![c] + r), pw) == g + (seq![c] + numbers_from(r, false)),
{
    lemma_numbers_stop(c, r, pw);
    if g.len() == 0 {
        assert(g + (seq![c] + r) =~= seq![c] + r);
        assert(g + (seq![c] + numbers_from(r, false)) =~= seq![c] + numbers_from(r, false));
    } else {
        lemma_space_stops();
        assert(g + (seq![c] + r) =~= seq![' '] + (seq![c] + r));
        lemma_numbers_stop(' ', seq![c] + r, pw);
        lemma_numbers_stop(c, r, false);
    }
}

/// The number pass keeps a flat gap at the start of a list item.
proof fn lemma_numbers_lead_gap(g: Seq<char>, v: Seq<char>)
    requires
        flat_gap(g),
    ensures
        numbers_from(g + v, false) == g + numbers_from(v, false),
{
    if g.len() == 0 {
        assert(g + v =~= v);
        assert(g + numbers_from(v, false) =~= numbers_from(v, false));
    } else {
        lemma_space_stops();
        assert(g + v =~= seq![' '] + v);
        lemma_numbers_stop(' ', v, false);
    }
}

/// A number followed by a flat gap and a `stop_char` becomes `?`.
proof fn lemma_numbers_item(d: Seq<char>, g: Seq<char>, c: char, r: Seq<char>)
    requires
        sql_number(d),
        flat_gap(g),
        stop_char(c),
    ensures
        numbers_from(d + (g + (seq![c] + r)), false) == seq!['?'] + (g + (seq![c] + numbers_from(
            r,
            false,
        ))),
{
    let t = g + (seq![c] + r);
    lemma_space_stops();
    assert(stop_char(t[0])) by {
        if g.len() == 0 {
            assert(t[0] == c);
        } else {
            assert(t[0] == ' ');
        }
    }
    lemma_number_len_literal(d, t);
    lemma_number_is_word_end(d);
    assert((d + t).skip(d.len() as int) =~= t);
    assert((d + t)[d.len() - 1] == d[d.len() - 1]);
    lemma_numbers_gap(g, c, r, true);
}

/// The number pass over a flattened list of numbers followed by `)`.
#[verifier::spinoff_prover]
#[verifier::rlimit(40)]
proof fn lemma_numbers_spaced(ns: Seq<Seq<char>>, fgs: Seq<Seq<char>>, r: Seq<char>)
    requires
        number_list(ns),
        flat_gaps(fgs, ns.len()),
    ensures
        numbers_from(spaced_list(ns, fgs) + seq![')'] + r, false) == spaced_list(
            marks(ns.len()),
            fgs,
        ) + seq![')'] + numbers_from(r, false),
    decreases ns.len(),
{
    let d = ns[0];
    assert(sql_number(d));
    let g0 = fgs[0];
    let g1 = fgs[1];
    assert(flat_gap(g0) && flat_gap(g1));
    lemma_space_stops();
    if ns.len() == 1 {
        lemma_marks_one();
        assert(spaced_list(ns, fgs) + seq![')'] + r =~= g0 + (d + (g1 + (seq![')'] + r))));
        lemma_numbers_lead_gap(g0, d + (g1 + (seq![')'] + r)));
        lemma_numbers_item(d, g1, ')', r);
        assert(spaced_list(marks(1), fgs) + seq![')'] + numbers_from(r, false) =~= g0 + (seq!['?']
            + (g1 + (seq![')'] + numbers_from(r, false)))));
    } else {
        let k = ns.len();
        lemma_number_list_tail(ns);
        lemma_flat_gaps_tail(fgs, k);
        lemma_marks_tail(k);
        let rest = ns.drop_first();
        let y = spaced_list(rest, fgs.skip(2)) + seq![')'] + r;
        lemma_numbers_spaced(rest, fgs.skip(2), r);
        assert(spaced_list(ns, fgs) + seq![')'] + r =~= g0 + (d + (g1 + (seq![','] + y))));
        lemma_numbers_lead_gap(g0, d + (g1 + (seq![','] + y)));
        lemma_numbers_item(d, g1, ',', y);
        let q = spaced_list(marks((k - 1) as nat), fgs.skip(2));
        assert(spaced_list(marks(k), fgs) == g0 + seq!['?'] + g1 + seq![','] + q);
        assert(spaced_list(marks(k), fgs) + seq![')'] + numbers_from(r, false) =~= g0 + (seq!['?']
            + (g1 + (seq![','] + (q + seq![')'] + numbers_from(r, false))))));
    }
}

/// `\s*` over a flat gap and what follows it.
proof fn lemma_ws_run_gap(g: Seq<char>, v: Seq<char>)
    requires
        flat_gap(g),
        v.len() > 0,
        !is_ws(v[0]),
    ensures
        ws_run(g + v) == g.len(),
{
    lemma_ws_run_concat(g, v);
    if g.len() > 0 {
        lemma_space_stops();
        assert(g.drop_first() =~= Seq::<char>::empty());
        assert(ws_run(Seq::<char>::empty()) == 0);
        assert(g[0] == ' ');
        assert(is_ws(g[0]));
    }
}

/// How a flattened list of placeholders starts and ends.
proof fn lemma_marks_shape(k: nat, fgs: Seq<Seq<char>>)
    requires
        k >= 1,
        flat_gaps(fgs, k),
    ensures
        ({
            let l = spaced_list(marks(k), fgs);
            let h: int = fgs[0].len() as int + 1;
            let last = fgs[2 * k - 1];
            &&& h + last.len() <= l.len()
            &&& l == fgs[0] + seq!['?'] + l.skip(h)
            &&& l.skip(l.len() - last.len()) == last
            &&& k == 1 ==> l.skip(h) == fgs[1]
            &&& k > 1 ==> l.skip(h) == fgs[1] + seq![','] + spaced_list(
                marks((k - 1) as nat),
                fgs.skip(2),
            )
        }),
    decreases k,
{
    let g0 = fgs[0];
    let g1 = fgs[1];
    let l = spaced_list(marks(k), fgs);
    let h: int = g0.len() as int + 1;
    if k == 1 {
        lemma_marks_one();
        assert(l == g0 + seq!['?'] + g1);
        assert(l.skip(h) =~= g1);
        assert(l.skip(l.len() - g1.len() as int) =~= g1);
    } else {
        lemma_marks_tail(k);
        lemma_flat_gaps_tail(fgs, k);
        let f2 = fgs.skip(2);
        lemma_marks_shape((k - 1) as nat, f2);
        let l2 = spaced_list(marks((k - 1) as nat), f2);
        let last = fgs[2 * k - 1];
        assert(l == g0 + seq!['?'] + g1 + seq![','] + l2);
        assert(l.skip(h) =~= g1 + seq![','] + l2);
        assert(l == g0 + seq!['?'] + l.skip(h));
        assert(l.skip(l.len() - last.len() as int) =~= l2.skip(l2.len() - last.len() as int));
    }
}

/// One `\s*,\s*\?` item over flat gaps.
proof fn lemma_list_item_spaced(g1: Seq<char>, g2: Seq<char>, u: Seq<char>)
    requires
        flat_gap(g1),
        flat_gap(g2),
    ensures
        ({
            let s = g1 + (seq![','] + (g2 + (seq!['?'] + u)));
            let c: int = g1.len() as int + g2.len() as int + 2;
            &&& list_item_len(s) == c
            &&& s.skip(c) == u
        }),
{
    lemma_space_stops();
    let s = g1 + (seq![','] + (g2 + (seq!['?'] + u)));
    lemma_ws_run_gap(g1, seq![','] + (g2 + (seq!['?'] + u)));
    let a = g1.len() as int;
    assert(s[a] == ',');
    assert(s.skip(a + 1) =~= g2 + (seq!['?'] + u));
    lemma_ws_run_gap(g2, seq!['?'] + u);
    assert(s[a + 1 + g2.len() as int] == '?');
    let c: int = g1.len() as int + g2.len() as int + 2;
    assert(s.skip(c) =~= u);
}

/// The repetition `(?:\s*,\s*\?)*` stops at a flat gap before `)`.
proof fn lemma_list_tail_end(g: Seq<char>, t: Seq<char>)
    requires
        flat_gap(g),
    ensures
        list_tail(g + seq![')'] + t) == 0,
{
    lemma_space_stops();
    let s = g + (seq![')'] + t);
    assert(g + seq![')'] + t =~= s);
    lemma_ws_run_gap(g, seq![')'] + t);
    assert(s[g.len() as int] == ')');
    assert(list_item_len(s) == 0);
}

/// The repetition `(?:\s*,\s*\?)*` takes one more item.
proof fn lemma_list_tail_step(g1: Seq<char>, g2: Seq<char>, r: Seq<char>, t: Seq<char>)
    requires
        flat_gap(g1),
        flat_gap(g2),
    ensures
        list_tail(g1 + seq![','] + (g2 + seq!['?'] + r) + seq![')'] + t) == g1.len() + g2.len() + 2
            + list_tail(r + seq![')'] + t),
{
    let u = r + seq![')'] + t;
    let s = g1 + seq![','] + (g2 + seq!['?'] + r) + seq![')'] + t;
    assert(s =~= g1 + (seq![','] + (g2 + (seq!['?'] + u))));
    lemma_list_item_spaced(g1, g2, u);
}

/// After the first `?` of a flattened list of placeholders, the repetition
/// `(?:\s*,\s*\?)*` runs up to the last gap.
#[verifier::spinoff_prover]
proof fn lemma_list_tail_spaced(k: nat, fgs: Seq<Seq<char>>, t: Seq<char>)
    requires
        k >= 1,
        flat_gaps(fgs, k),
    ensures
        ({
            let l = spaced_list(marks(k), fgs);
            let h: int = fgs[0].len() as int + 1;
            let last = fgs[2 * k - 1];
            list_tail(l.skip(h) + seq![')'] + t) == l.len() - h - last.len()
        }),
    decreases k,
{
    let g1 = fgs[1];
    assert(flat_gap(g1));
    lemma_marks_shape(k, fgs);
    let l = spaced_list(marks(k), fgs);
    let h: int = fgs[0].len() as int + 1;
    if k == 1 {
        lemma_list_tail_end(g1, t);
    } else {
        lemma_flat_gaps_tail(fgs, k);
        let f2 = fgs.skip(2);
        lemma_list_tail_spaced((k - 1) as nat, f2, t);
        lemma_marks_shape((k - 1) as nat, f2);
        let l2 = spaced_list(marks((k - 1) as nat), f2);
        let g2 = f2[0];
        assert(flat_gap(g2));
        let r2 = l2.skip(g2.len() as int + 1);
        lemma_list_tail_step(g1, g2, r2, t);
    }
}

/// A flattened list of placeholders in parentheses becomes `(?)`.
#[verifier::spinoff_prover]
proof fn lemma_lists_spaced(k: nat, fgs: Seq<Seq<char>>, t: Seq<char>)
    requires
        k >= 1,
        flat_gaps(fgs, k),
    ensures
        lists_pass(seq!['('] + spaced_list(marks(k), fgs) + seq![')'] + t) == seq!['(', '?', ')']
            + lists_pass(t),
{
    let l = spaced_list(marks(k), fgs);
    let g0 = fgs[0];
    let last = fgs[2 * k - 1];
    assert(flat_gap(g0) && flat_gap(last));
    lemma_space_stops();
    lemma_marks_shape(k, fgs);
    lemma_list_tail_spaced(k, fgs, t);
    let h: int = g0.len() as int + 1;
    let rr = l.skip(h);
    let s = seq!['('] + l + seq![')'] + t;
    assert(s.drop_first() =~= g0 + (seq!['?'] + rr + seq![')'] + t));
    lemma_ws_run_gap(g0, seq!['?'] + rr + seq![')'] + t);
    let j: int = 1 + g0.len() as int;
    assert(s[j] == l[g0.len() as int]);
    assert(s[j] == '?');
    assert(s.skip(j + 1) =~= rr + seq![')'] + t);
    let e = j + 1 + list_tail(s.skip(j + 1));
    assert(e == 1 + l.len() - last.len());
    assert(s.skip(e) =~= last + (seq![')'] + t));
    lemma_ws_run_gap(last, seq![')'] + t);
    assert(s[1 + l.len() as int] == ')');
    assert(list_len(s) == Some(l.len() as int + 2));
    assert(s.skip(l.len() + 2 as int) =~= t);
}

/// What the number and list passes make of `x`, a list of numbers in
/// parentheses, and `y`.
#[verifier::spinoff_prover]
proof fn lemma_lists_core(x: Seq<char>, ns: Seq<Seq<char>>, fgs: Seq<Seq<char>>, y: Seq<char>)
    requires
        number_list(ns),
        flat_gaps(fgs, ns.len()),
    ensures
        ({
            let a = numbers_from(x + seq!['('], false);
            lists_pass(numbers_pass(x + (seq!['('] + spaced_list(ns, fgs) + seq![')']) + y))
                == lists_pass(a.drop_last()) + seq!['(', '?', ')'] + lists_pass(
                numbers_from(y, false),
            )
        }),
{
    let j = spaced_list(ns, fgs);
    let xo = x + seq!['('];
    assert(xo.last() == '(');
    assert(x + (seq!['('] + j + seq![')']) + y =~= xo + (j + seq![')'] + y));
    lemma_numbers_concat(xo, j + seq![')'] + y, false);
    assert(word_after(xo, false) == false);
    lemma_numbers_spaced(ns, fgs, y);
    let a = numbers_from(xo, false);
    lemma_numbers_keep_last(x, '(', false);
    let n = numbers_from(y, false);
    let q = spaced_list(marks(ns.len()), fgs);
    let rest = seq!['('] + q + seq![')'] + n;
    assert(a + (q + seq![')'] + n) =~= a.drop_last() + rest);
    lemma_lists_concat(a.drop_last(), rest);
    lemma_lists_spaced(ns.len(), fgs, n);
    assert(lists_pass(a.drop_last()) + (seq!['(', '?', ')'] + lists_pass(n)) =~= lists_pass(
        a.drop_last(),
    ) + seq!['(', '?', ')'] + lists_pass(n));
}

/// Flattening a list in parentheses.
proof fn lemma_list_text(ns: Seq<Seq<char>>, gs: Seq<Seq<char>>) -> (fgs: Seq<Seq<char>>)
    requires
        number_list(ns),
        list_gaps(gs, ns.len()),
    ensures
        flat_gaps(fgs, ns.len()),
        ({
            let m = seq!['('] + spaced_list(ns, gs) + seq![')'];
            &&& m.len() > 0 && !is_ws(m[0]) && !is_ws(m.last())
            &&& collapse_ws(m) == seq!['('] + spaced_list(ns, fgs) + seq![')']
            &&& all_chars(collapse_ws(m), |c: char| not_quote(c))
        }),
{
    let f = |c: char| not_quote(c);
    lemma_space_stops();
    let l = spaced_list(ns, gs);
    let m = seq!['('] + l + seq![')'];
    let fgs = lemma_collapse_spaced(ns, gs, seq![')']);
    assert(m.drop_first() =~= l + seq![')']);
    assert(collapse_ws(m) == seq!['('] + collapse_from(l + seq![')'], false));
    assert(seq![')'].drop_first() =~= Seq::<char>::empty());
    assert(collapse_from(Seq::<char>::empty(), false) =~= Seq::<char>::empty());
    assert(seq![')'][0] == ')');
    assert(collapse_from(seq![')'], false) =~= seq![')']);
    assert(collapse_ws(m) =~= seq!['('] + spaced_list(ns, fgs) + seq![')']);
    lemma_spaced_plain(ns, fgs);
    lemma_all_chars_concat(seq!['('], spaced_list(ns, fgs), f);
    lemma_all_chars_concat(seq!['('] + spaced_list(ns, fgs), seq![')'], f);
    fgs
}

/// A parenthesised list of numbers of any length, with or without
/// whitespace around its items, has the fingerprint of any other such list
/// in the same place: `IN (1, 2, 3)`, `IN ( 1 )`, `IN (7,8)` and `IN (4)`
/// all give `IN (?)`.
pub proof fn law_number_lists_collapse(
    p: Seq<char>,
    s: Seq<char>,
    ns1: Seq<Seq<char>>,
    gs1: Seq<Seq<char>>,
    ns2: Seq<Seq<char>>,
    gs2: Seq<Seq<char>>,
)
    requires
        number_list(ns1),
        list_gaps(gs1, ns1.len()),
        number_list(ns2),
        list_gaps(gs2, ns2.len()),
    ensures
        normalize_spec(p + (seq!['('] + spaced_list(ns1, gs1) + seq![')']) + s) == normalize_spec(
            p + (seq!['('] + spaced_list(ns2, gs2) + seq![')']) + s,
        ),
{
    reveal(normalize_spec);
    let m1 = seq!['('] + spaced_list(ns1, gs1) + seq![')'];
    let m2 = seq!['('] + spaced_list(ns2, gs2) + seq![')'];
    let f1 = lemma_list_text(ns1, gs1);
    let f2 = lemma_list_text(ns2, gs2);
    lemma_flatten_split(p, m1, s);
    lemma_flatten_split(p, m2, s);
    let l = flat_left(p);
    let r = flat_right(s);
    let c1 = collapse_ws(m1);
    let c2 = collapse_ws(m2);
    match lemma_strings_transparent(l, c1, c2, r) {
        None => {},
        Some(x) => {
            let y = strings_pass(r);
            lemma_lists_core(x, ns1, f1, y);
            lemma_lists_core(x, ns2, f2, y);
        },
    }
}

} // verus!
