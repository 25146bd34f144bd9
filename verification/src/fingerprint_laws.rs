//! What holds of every fingerprint: `flatten` yields one normalized line
//! and changes nothing but whitespace, flattening twice changes nothing,
//! and `normalize` leaves text without literals as `flatten` does.

use vstd::prelude::*;

use crate::fingerprint::{
    collapse_from, flatten_spec, list_len, lists_pass, normalize_spec, number_len, numbers_from,
    numbers_pass, strings_pass, trim, trim_end, trim_start,
};
use crate::literal_laws::{
    all_chars, lemma_all_chars_collapse, lemma_all_chars_drop_first, lemma_all_chars_trim,
};
use crate::text::{is_digit, is_word, is_ws, lemma_ws_run_bounds, ws_run};

verus! {

/// `s` is one normalized line: it neither starts nor ends with whitespace,
/// and each whitespace character in it is a single `' '` between two other
/// characters (so in particular it holds no line break).
pub open spec fn is_flat(s: Seq<char>) -> bool {
    &&& s.len() > 0 ==> !is_ws(s[0])
    &&& forall|k: int|
        0 <= k < s.len() && is_ws(#[trigger] s[k]) ==> s[k] == ' ' && k + 1 < s.len() && !is_ws(
            s[k + 1],
        )
}

/// The characters of `s` that are not whitespace, in order.
pub open spec fn strip_ws(s: Seq<char>) -> Seq<char>
    decreases s.len(),
{
    if s.len() == 0 {
        seq![]
    } else if is_ws(s[0]) {
        strip_ws(s.drop_first())
    } else {
        seq![s[0]] + strip_ws(s.drop_first())
    }
}

#[verifier::spinoff_prover]
proof fn lemma_collapse_shape(s: Seq<char>, in_run: bool)
    ensures
        ({
            let o = collapse_from(s, in_run);
            &&& forall|k: int| 0 <= k < o.len() && is_ws(#[trigger] o[k]) ==> o[k] == ' '
            &&& forall|k: int|
                0 <= k < o.len() - 1 && is_ws(#[trigger] o[k]) ==> !is_ws(o[k + 1])
            &&& in_run ==> (o.len() == 0 || !is_ws(o[0]))
            &&& (s.len() > 0 && !is_ws(s.last())) ==> (o.len() > 0 && !is_ws(o.last()))
            &&& (s.len() > 0 && !is_ws(s[0])) ==> (o.len() > 0 && o[0] == s[0])
        }),
    decreases s.len(),
{
    if s.len() > 0 {
        let rest = s.drop_first();
        let o = collapse_from(s, in_run);
        if is_ws(s[0]) {
            lemma_collapse_shape(rest, true);
            let o2 = collapse_from(rest, true);
            if rest.len() > 0 {
                assert(rest.last() == s.last());
            }
            if !in_run {
                assert(o == seq![' '] + o2);
                assert forall|k: int| 0 <= k < o.len() && is_ws(#[trigger] o[k]) implies o[k]
                    == ' ' by {
                    if k > 0 {
                        assert(o[k] == o2[k - 1]);
                    }
                }
                assert forall|k: int| 0 <= k < o.len() - 1 && is_ws(#[trigger] o[k]) implies !is_ws(
                    o[k + 1],
                ) by {
                    if k > 0 {
                        assert(o[k] == o2[k - 1]);
                        assert(o[k + 1] == o2[k]);
                    } else {
                        assert(o[1] == o2[0]);
                    }
                }
            }
        } else {
            lemma_collapse_shape(rest, false);
            let o2 = collapse_from(rest, false);
            if rest.len() > 0 {
                assert(rest.last() == s.last());
            }
            assert(o == seq![s[0]] + o2);
            assert forall|k: int| 0 <= k < o.len() && is_ws(#[trigger] o[k]) implies o[k] == ' ' by {
                if k > 0 {
                    assert(o[k] == o2[k - 1]);
                }
            }
            assert forall|k: int| 0 <= k < o.len() - 1 && is_ws(#[trigger] o[k]) implies !is_ws(
                o[k + 1],
            ) by {
                if k > 0 {
                    assert(o[k] == o2[k - 1]);
                    assert(o[k + 1] == o2[k]);
                }
            }
        }
    }
}

pub proof fn lemma_trim_start_shape(s: Seq<char>)
    ensures
        trim_start(s).len() > 0 ==> !is_ws(trim_start(s)[0]),
        trim_start(s).len() > 0 ==> trim_start(s).last() == s.last(),
        trim_start(s).len() <= s.len(),
    decreases s.len(),
{
    if s.len() > 0 && is_ws(s[0]) {
        lemma_trim_start_shape(s.drop_first());
    }
}

proof fn lemma_trim_end_shape(s: Seq<char>)
    ensures
        trim_end(s).len() > 0 ==> !is_ws(trim_end(s).last()),
    decreases s.len(),
{
    if s.len() > 0 && is_ws(s.last()) {
        lemma_trim_end_shape(s.drop_last());
    }
}

/// The result of `flatten` is one normalized line.
pub proof fn lemma_flatten_is_flat(q: Seq<char>)
    ensures
        is_flat(flatten_spec(q)),
{
    let e = trim_end(q);
    let t = trim(q);
    lemma_trim_end_shape(q);
    lemma_trim_start_shape(e);
    lemma_collapse_shape(t, false);
    let o = flatten_spec(q);
    assert forall|k: int| 0 <= k < o.len() && is_ws(#[trigger] o[k]) implies o[k] == ' ' && k + 1
        < o.len() && !is_ws(o[k + 1]) by {
        if k == o.len() - 1 {
            assert(o.last() == o[k]);
        }
    }
}

proof fn lemma_collapse_flat(s: Seq<char>, in_run: bool)
    requires
        forall|k: int| 0 <= k < s.len() && is_ws(#[trigger] s[k]) ==> s[k] == ' ',
        forall|k: int| 0 <= k < s.len() - 1 && is_ws(#[trigger] s[k]) ==> !is_ws(s[k + 1]),
        in_run ==> (s.len() == 0 || !is_ws(s[0])),
    ensures
        collapse_from(s, in_run) == s,
    decreases s.len(),
{
    if s.len() > 0 {
        let rest = s.drop_first();
        assert forall|k: int| 0 <= k < rest.len() && is_ws(#[trigger] rest[k]) implies rest[k]
            == ' ' by {
            assert(rest[k] == s[k + 1]);
        }
        assert forall|k: int| 0 <= k < rest.len() - 1 && is_ws(#[trigger] rest[k]) implies !is_ws(
            rest[k + 1],
        ) by {
            assert(rest[k] == s[k + 1]);
            assert(rest[k + 1] == s[k + 2]);
        }
        if is_ws(s[0]) {
            if s.len() > 1 {
                assert(!is_ws(s[1]));
                assert(rest[0] == s[1]);
            }
            lemma_collapse_flat(rest, true);
        } else {
            lemma_collapse_flat(rest, false);
        }
        assert(s =~= seq![s[0]] + rest);
    }
}

/// Flattening a normalized line changes nothing.
pub proof fn lemma_flat_fixed(s: Seq<char>)
    requires
        is_flat(s),
    ensures
        flatten_spec(s) == s,
{
    if s.len() > 0 {
        assert(!is_ws(s.last())) by {
            if is_ws(s[s.len() - 1]) {
                assert(s[s.len() - 1] == ' ');
            }
        }
        assert(trim_end(s) == s);
        assert(trim_start(s) == s);
    } else {
        assert(trim_end(s) == s);
    }
    lemma_collapse_flat(s, false);
}

/// Flattening twice is flattening once.
pub proof fn law_flatten_idempotent(q: Seq<char>)
    ensures
        flatten_spec(flatten_spec(q)) == flatten_spec(q),
{
    lemma_flatten_is_flat(q);
    lemma_flat_fixed(flatten_spec(q));
}

/// A fingerprint is one normalized line, which flattening leaves as it is.
pub proof fn law_normalize_is_flat(q: Seq<char>)
    ensures
        is_flat(normalize_spec(q)),
        flatten_spec(normalize_spec(q)) == normalize_spec(q),
{
    reveal(normalize_spec);
    lemma_flatten_is_flat(lists_pass(numbers_pass(strings_pass(flatten_spec(q)))));
    lemma_flat_fixed(normalize_spec(q));
}

/// The fingerprint of a query depends only on its flattened form: queries
/// that differ only in the amount and kind of whitespace between their
/// words, or around them, get the same fingerprint.
pub proof fn law_normalize_ignores_whitespace(a: Seq<char>, b: Seq<char>)
    requires
        flatten_spec(a) == flatten_spec(b),
    ensures
        normalize_spec(a) == normalize_spec(b),
        normalize_spec(flatten_spec(a)) == normalize_spec(a),
{
    reveal(normalize_spec);
    law_flatten_idempotent(a);
}


pub proof fn lemma_strip_ws_concat(a: Seq<char>, b: Seq<char>)
    ensures
        strip_ws(a + b) == strip_ws(a) + strip_ws(b),
    decreases a.len(),
{
    if a.len() == 0 {
        assert(a + b =~= b);
    } else {
        lemma_strip_ws_concat(a.drop_first(), b);
        assert((a + b).drop_first() =~= a.drop_first() + b);
    }
}

proof fn lemma_strip_ws_single(c: char)
    ensures
        strip_ws(seq![c]) == (if is_ws(c) {
            seq![]
        } else {
            seq![c]
        }),
{
    assert(seq![c].drop_first() =~= Seq::<char>::empty());
    assert(strip_ws(Seq::<char>::empty()) == Seq::<char>::empty());
    assert(seq![c] + Seq::<char>::empty() =~= seq![c]);
}

proof fn lemma_strip_ws_collapse(s: Seq<char>, in_run: bool)
    ensures
        strip_ws(collapse_from(s, in_run)) == strip_ws(s),
    decreases s.len(),
{
    if s.len() > 0 {
        let rest = s.drop_first();
        if is_ws(s[0]) {
            lemma_strip_ws_collapse(rest, true);
            if !in_run {
                lemma_strip_ws_concat(seq![' '], collapse_from(rest, true));
                lemma_strip_ws_single(' ');
                assert(seq![] + strip_ws(collapse_from(rest, true)) =~= strip_ws(
                    collapse_from(rest, true),
                ));
            }
        } else {
            lemma_strip_ws_collapse(rest, false);
            lemma_strip_ws_concat(seq![s[0]], collapse_from(rest, false));
            lemma_strip_ws_single(s[0]);
        }
    }
}

proof fn lemma_strip_ws_trim(s: Seq<char>)
    ensures
        strip_ws(trim_start(s)) == strip_ws(s),
        strip_ws(trim_end(s)) == strip_ws(s),
    decreases s.len(),
{
    if s.len() > 0 {
        lemma_strip_ws_trim(s.drop_first());
        lemma_strip_ws_trim(s.drop_last());
        if is_ws(s.last()) {
            assert(s =~= s.drop_last() + seq![s.last()]);
            lemma_strip_ws_concat(s.drop_last(), seq![s.last()]);
            lemma_strip_ws_single(s.last());
            assert(strip_ws(s.drop_last()) + seq![] =~= strip_ws(s.drop_last()));
        }
    }
}

/// `flatten` changes nothing but whitespace: the characters that are not
/// whitespace come out unchanged and in order.
pub proof fn law_flatten_keeps_non_whitespace(q: Seq<char>)
    ensures
        strip_ws(flatten_spec(q)) == strip_ws(q),
{
    lemma_strip_ws_trim(q);
    lemma_strip_ws_trim(trim_end(q));
    lemma_strip_ws_collapse(trim(q), false);
}

/// A character that none of the literal passes starts a match at.
pub open spec fn plain_char(c: char) -> bool {
    c != '\'' && c != '?' && !is_digit(c)
}

pub open spec fn all_plain(s: Seq<char>) -> bool {
    all_chars(s, |c: char| plain_char(c))
}

proof fn lemma_plain_passes(s: Seq<char>, prev_word: bool)
    requires
        all_plain(s),
    ensures
        strings_pass(s) == s,
        numbers_from(s, prev_word) == s,
        lists_pass(s) == s,
    decreases s.len(),
{
    if s.len() > 0 {
        let rest = s.drop_first();
        lemma_all_chars_drop_first(s, |c: char| plain_char(c));
        lemma_plain_passes(rest, is_word(s[0]));
        assert(plain_char(s[0]));
        assert(number_len(s, prev_word) is None);
        if list_len(s) is Some {
            lemma_ws_run_bounds(s.drop_first());
            let j = 1 + ws_run(s.drop_first());
            assert(plain_char(s[j]));
        }
        assert(s =~= seq![s[0]] + rest);
    }
}

/// Text without quotes, digits or `?` has nothing for the literal passes to
/// replace: its fingerprint is its flattened form.
pub proof fn law_normalize_keeps_plain_text(q: Seq<char>)
    requires
        all_plain(q),
    ensures
        normalize_spec(q) == flatten_spec(q),
{
    reveal(normalize_spec);
    let f = flatten_spec(q);
    let plain = |c: char| plain_char(c);
    lemma_all_chars_trim(q, plain);
    lemma_all_chars_trim(trim_end(q), plain);
    lemma_all_chars_collapse(trim(q), false, plain);
    lemma_plain_passes(f, false);
    law_flatten_idempotent(q);
}

} // verus!
