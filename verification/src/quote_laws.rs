//! A fingerprint holds no string literal: the string-literal pass leaves at
//! most one quote, the last one of its text, which no literal can start at,
//! and the passes after it move no quote.

use vstd::prelude::*;

use crate::fingerprint::{
    collapse_from, flatten_spec, lemma_last_boundary_bounds,
    lemma_list_item_len_bounds, lemma_list_len_bounds, lemma_list_tail_bounds, lemma_lit_len_bounds,
    lemma_number_len_bounds, list_item_len, list_len, list_tail, lists_pass, lit_len,
    normalize_spec, number_len, numbers_from, numbers_pass, strings_pass, trim, trim_end,
    trim_start,
};
use crate::text::{digit_run, is_digit, is_word, is_ws, lemma_digit_run_bounds, lemma_ws_run_bounds, ws_run};

verus! {

/// The number of quotes in `s`.
pub open spec fn quote_count(s: Seq<char>) -> nat
    decreases s.len(),
{
    if s.len() == 0 {
        0
    } else {
        (if s[0] == '\'' {
            1nat
        } else {
            0nat
        }) + quote_count(s.drop_first())
    }
}

proof fn lemma_quote_count_concat(a: Seq<char>, b: Seq<char>)
    ensures
        quote_count(a + b) == quote_count(a) + quote_count(b),
    decreases a.len(),
{
    if a.len() == 0 {
        assert(a + b =~= b);
    } else {
        assert((a + b).drop_first() =~= a.drop_first() + b);
        lemma_quote_count_concat(a.drop_first(), b);
    }
}

/// No character of the first `n` of `s` is a quote.
spec fn quote_free_prefix(s: Seq<char>, n: int) -> bool {
    forall|k: int| 0 <= k < n ==> #[trigger] s[k] != '\''
}

proof fn lemma_quote_free_prefix(s: Seq<char>, n: int)
    requires
        0 <= n <= s.len(),
        quote_free_prefix(s, n),
    ensures
        quote_count(s) == quote_count(s.skip(n)),
{
    assert(s =~= s.take(n) + s.skip(n));
    lemma_quote_count_concat(s.take(n), s.skip(n));
    lemma_no_quote_count(s.take(n));
}

proof fn lemma_no_quote_count(s: Seq<char>)
    requires
        forall|k: int| 0 <= k < s.len() ==> #[trigger] s[k] != '\'',
    ensures
        quote_count(s) == 0,
    decreases s.len(),
{
    if s.len() > 0 {
        assert forall|k: int| 0 <= k < s.drop_first().len() implies #[trigger] s.drop_first()[k]
            != '\'' by {
            assert(s.drop_first()[k] == s[k + 1]);
        }
        assert(s[0] != '\'');
        lemma_no_quote_count(s.drop_first());
    }
}

proof fn lemma_count_zero_no_quote(s: Seq<char>)
    requires
        quote_count(s) == 0,
    ensures
        forall|k: int| 0 <= k < s.len() ==> #[trigger] s[k] != '\'',
    decreases s.len(),
{
    if s.len() > 0 {
        lemma_count_zero_no_quote(s.drop_first());
        assert forall|k: int| 0 <= k < s.len() implies #[trigger] s[k] != '\'' by {
            if k > 0 {
                assert(s[k] == s.drop_first()[k - 1]);
            }
        }
    }
}

// ---------------------------------------------------------------------
// The string-literal pass.
// ---------------------------------------------------------------------

/// A literal starts at a quote exactly when another quote follows it.
proof fn lemma_lit_len_none(t: Seq<char>)
    ensures
        lit_len(t) is None <==> quote_count(t) == 0,
    decreases t.len(),
{
    if t.len() > 0 {
        if t[0] != '\'' {
            lemma_lit_len_none(t.drop_first());
        }
    }
}

/// Text with at most one quote has no literal in it.
proof fn lemma_strings_pass_one_quote(s: Seq<char>)
    requires
        quote_count(s) <= 1,
    ensures
        strings_pass(s) == s,
    decreases s.len(),
{
    if s.len() > 0 {
        let rest = s.drop_first();
        if s[0] == '\'' {
            lemma_lit_len_none(rest);
        }
        lemma_strings_pass_one_quote(rest);
        assert(s =~= seq![s[0]] + rest);
    }
}

/// The string-literal pass leaves at most one quote.
proof fn lemma_strings_pass_quotes(s: Seq<char>)
    ensures
        quote_count(strings_pass(s)) <= 1,
    decreases s.len(),
{
    if s.len() > 0 {
        let rest = s.drop_first();
        let o = strings_pass(s);
        if s[0] == '\'' && lit_len(rest) is Some {
            let n = lit_len(rest)->0;
            lemma_lit_len_bounds(rest);
            lemma_strings_pass_quotes(s.skip(n + 1));
            let t = strings_pass(s.skip(n + 1));
            assert(o == seq!['?'] + t);
            assert((seq!['?'] + t).drop_first() =~= t);
        } else if s[0] == '\'' {
            lemma_lit_len_none(rest);
            lemma_strings_pass_one_quote(rest);
            assert(o == seq![s[0]] + rest);
            assert(o.drop_first() =~= rest);
        } else {
            lemma_strings_pass_quotes(rest);
            assert(o == seq![s[0]] + strings_pass(rest));
            assert(o.drop_first() =~= strings_pass(rest));
        }
    }
}

// ---------------------------------------------------------------------
// The number and list passes move no quote.
// ---------------------------------------------------------------------

proof fn lemma_digit_run_no_quote(s: Seq<char>)
    ensures
        quote_free_prefix(s, digit_run(s)),
    decreases s.len(),
{
    if s.len() > 0 && is_digit(s[0]) {
        lemma_digit_run_no_quote(s.drop_first());
        lemma_digit_run_bounds(s.drop_first());
        assert forall|k: int| 0 <= k < digit_run(s) implies #[trigger] s[k] != '\'' by {
            if k > 0 {
                assert(s[k] == s.drop_first()[k - 1]);
            }
        }
    }
}

/// A number holds no quote.
proof fn lemma_number_no_quote(s: Seq<char>, pw: bool)
    ensures
        number_len(s, pw) matches Some(n) ==> quote_free_prefix(s, n),
{
    if s.len() > 0 && is_digit(s[0]) {
        let a = digit_run(s);
        lemma_digit_run_bounds(s);
        lemma_digit_run_no_quote(s);
        lemma_last_boundary_bounds(s, pw, 1, a);
        if a + 1 < s.len() && s[a] == '.' && is_digit(s[a + 1]) {
            let f = s.skip(a + 1);
            lemma_digit_run_bounds(f);
            lemma_digit_run_no_quote(f);
            let hi = a + 1 + digit_run(f);
            lemma_last_boundary_bounds(s, pw, a + 2, hi);
            assert forall|k: int| 0 <= k < hi implies #[trigger] s[k] != '\'' by {
                if k > a {
                    assert(s[k] == f[k - a - 1]);
                }
            }
        }
    }
}

/// The number pass keeps the count of quotes.
proof fn lemma_numbers_quotes(s: Seq<char>, pw: bool)
    ensures
        quote_count(numbers_from(s, pw)) == quote_count(s),
    decreases s.len(),
{
    if s.len() > 0 {
        let o = numbers_from(s, pw);
        lemma_number_len_bounds(s, pw);
        lemma_number_no_quote(s, pw);
        match number_len(s, pw) {
            Some(n) => {
                lemma_numbers_quotes(s.skip(n), is_word(s[n - 1]));
                lemma_quote_free_prefix(s, n);
                assert(o.drop_first() =~= numbers_from(s.skip(n), is_word(s[n - 1])));
            },
            None => {
                lemma_numbers_quotes(s.drop_first(), is_word(s[0]));
                assert(o.drop_first() =~= numbers_from(s.drop_first(), is_word(s[0])));
            },
        }
    }
}

proof fn lemma_ws_run_no_quote(s: Seq<char>)
    ensures
        quote_free_prefix(s, ws_run(s)),
    decreases s.len(),
{
    if s.len() > 0 && is_ws(s[0]) {
        lemma_ws_run_no_quote(s.drop_first());
        lemma_ws_run_bounds(s.drop_first());
        assert forall|k: int| 0 <= k < ws_run(s) implies #[trigger] s[k] != '\'' by {
            if k > 0 {
                assert(s[k] == s.drop_first()[k - 1]);
            } else {
                assert(is_ws(s[0]));
            }
        }
    }
}

proof fn lemma_list_item_no_quote(s: Seq<char>)
    ensures
        quote_free_prefix(s, list_item_len(s)),
{
    lemma_ws_run_bounds(s);
    lemma_ws_run_no_quote(s);
    let k = ws_run(s);
    if k < s.len() && s[k] == ',' {
        let t = s.skip(k + 1);
        lemma_ws_run_bounds(t);
        lemma_ws_run_no_quote(t);
        let m = ws_run(t);
        if k + 1 + m < s.len() && s[k + 1 + m] == '?' {
            assert forall|i: int| 0 <= i < k + m + 2 implies #[trigger] s[i] != '\'' by {
                if k < i && i < k + 1 + m {
                    assert(s[i] == t[i - k - 1]);
                }
            }
        }
    }
}

proof fn lemma_list_tail_no_quote(s: Seq<char>)
    ensures
        quote_free_prefix(s, list_tail(s)),
    decreases s.len(),
{
    lemma_list_item_len_bounds(s);
    lemma_list_item_no_quote(s);
    let c = list_item_len(s);
    if c > 0 {
        lemma_list_tail_no_quote(s.skip(c));
        lemma_list_tail_bounds(s.skip(c));
        assert forall|i: int| 0 <= i < list_tail(s) implies #[trigger] s[i] != '\'' by {
            if i >= c {
                assert(s[i] == s.skip(c)[i - c]);
            }
        }
    }
}

/// A list holds no quote.
proof fn lemma_list_no_quote(s: Seq<char>)
    ensures
        list_len(s) matches Some(n) ==> quote_free_prefix(s, n),
{
    if s.len() > 0 && s[0] == '(' {
        let d = s.drop_first();
        lemma_ws_run_bounds(d);
        lemma_ws_run_no_quote(d);
        let j = 1 + ws_run(d);
        if j < s.len() && s[j] == '?' {
            let t = s.skip(j + 1);
            lemma_list_tail_bounds(t);
            lemma_list_tail_no_quote(t);
            let e = j + 1 + list_tail(t);
            let u = s.skip(e);
            lemma_ws_run_bounds(u);
            lemma_ws_run_no_quote(u);
            let k = e + ws_run(u);
            if k < s.len() && s[k] == ')' {
                assert forall|i: int| 0 <= i < k + 1 implies #[trigger] s[i] != '\'' by {
                    if 0 < i && i < j {
                        assert(s[i] == d[i - 1]);
                    } else if j < i && i < e {
                        assert(s[i] == t[i - j - 1]);
                    } else if e <= i && i < k {
                        assert(s[i] == u[i - e]);
                    }
                }
            }
        }
    }
}

/// The list pass keeps the count of quotes.
proof fn lemma_lists_quotes(s: Seq<char>)
    ensures
        quote_count(lists_pass(s)) == quote_count(s),
    decreases s.len(),
{
    if s.len() > 0 {
        let o = lists_pass(s);
        lemma_list_len_bounds(s);
        lemma_list_no_quote(s);
        match list_len(s) {
            Some(n) => {
                lemma_lists_quotes(s.skip(n));
                lemma_quote_free_prefix(s, n);
                let r = lists_pass(s.skip(n));
                assert(o == seq!['(', '?', ')'] + r);
                lemma_quote_count_concat(seq!['(', '?', ')'], r);
                lemma_no_quote_count(seq!['(', '?', ')']);
            },
            None => {
                lemma_lists_quotes(s.drop_first());
                assert(o.drop_first() =~= lists_pass(s.drop_first()));
            },
        }
    }
}

// ---------------------------------------------------------------------
// Flattening moves no quote.
// ---------------------------------------------------------------------

proof fn lemma_collapse_quotes(s: Seq<char>, in_run: bool)
    ensures
        quote_count(collapse_from(s, in_run)) == quote_count(s),
    decreases s.len(),
{
    if s.len() > 0 {
        let rest = s.drop_first();
        let o = collapse_from(s, in_run);
        lemma_collapse_quotes(rest, is_ws(s[0]));
        if is_ws(s[0]) {
            assert(s[0] != '\'');
            if !in_run {
                assert(o.drop_first() =~= collapse_from(rest, true));
            }
        } else {
            assert(o.drop_first() =~= collapse_from(rest, false));
        }
    }
}

proof fn lemma_trim_quotes(s: Seq<char>)
    ensures
        quote_count(trim_start(s)) == quote_count(s),
        quote_count(trim_end(s)) == quote_count(s),
    decreases s.len(),
{
    if s.len() > 0 {
        lemma_trim_quotes(s.drop_first());
        lemma_trim_quotes(s.drop_last());
        if is_ws(s[0]) {
            assert(s[0] != '\'');
        }
        assert(s =~= s.drop_last() + seq![s.last()]);
        lemma_quote_count_concat(s.drop_last(), seq![s.last()]);
        assert(seq![s.last()].drop_first() =~= Seq::<char>::empty());
        assert(quote_count(Seq::<char>::empty()) == 0);
        assert(seq![s.last()][0] == s.last());
        if is_ws(s.last()) {
            assert(s.last() != '\'');
            assert(quote_count(seq![s.last()]) == 0);
        }
    }
}

proof fn lemma_flatten_quotes(s: Seq<char>)
    ensures
        quote_count(flatten_spec(s)) == quote_count(s),
{
    lemma_trim_quotes(s);
    lemma_trim_quotes(trim_end(s));
    lemma_collapse_quotes(trim(s), false);
}

/// A fingerprint holds no string literal: it keeps at most one quote, so
/// the string-literal pass leaves it as it is. `SELECT 'it''s'` gives
/// `SELECT ?`, and `WHERE a = 'x' OR b = 'open` gives
/// `WHERE a = ? OR b = 'open`, whose lone quote starts no literal.
pub proof fn law_normalize_leaves_no_literal(q: Seq<char>)
    ensures
        strings_pass(normalize_spec(q)) == normalize_spec(q),
{
    reveal(normalize_spec);
    let a = strings_pass(flatten_spec(q));
    lemma_strings_pass_quotes(flatten_spec(q));
    lemma_numbers_quotes(a, false);
    lemma_lists_quotes(numbers_pass(a));
    lemma_flatten_quotes(lists_pass(numbers_pass(a)));
    lemma_strings_pass_one_quote(normalize_spec(q));
}

} // verus!
