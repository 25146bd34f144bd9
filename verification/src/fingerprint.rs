//! Normalizing a raw SQL statement into a fingerprint, so that the same
//! query shape run with different parameters (`WHERE id = 123` and
//! `WHERE id = 456`) lands in one bucket.
//!
//! The fingerprint is built in passes over the characters of the query:
//! whitespace is trimmed and collapsed (`flatten`), then string literals,
//! then standalone numbers become `?`, then parenthesised lists of one or
//! more placeholders become `(?)`, and whitespace is trimmed and collapsed
//! once more. Each pass is specified here as a spec function over the text
//! that remains to be scanned, with the leftmost-first match semantics of a
//! regular-expression search-and-replace.

use vstd::prelude::*;

use crate::text::{
    chars_of, digit, digit_run, digit_run_at, is_digit, is_word, is_ws, lemma_digit_run_bounds,
    lemma_skip_step, lemma_ws_run_bounds, string_of, word, ws, ws_run, ws_run_at,
};

verus! {

// ---------------------------------------------------------------------
// Whitespace: trimming and collapsing runs of `\s` to one space.
// ---------------------------------------------------------------------

/// Collapse every maximal run of whitespace in `s` into a single `' '`;
/// `in_run` says whether the text just before `s` ended inside such a run.
pub open spec fn collapse_from(s: Seq<char>, in_run: bool) -> Seq<char>
    decreases s.len(),
{
    if s.len() == 0 {
        seq![]
    } else if is_ws(s[0]) {
        if in_run {
            collapse_from(s.drop_first(), true)
        } else {
            seq![' '] + collapse_from(s.drop_first(), true)
        }
    } else {
        seq![s[0]] + collapse_from(s.drop_first(), false)
    }
}

/// `\s+` replaced by `" "` everywhere in `s`.
pub open spec fn collapse_ws(s: Seq<char>) -> Seq<char> {
    collapse_from(s, false)
}

pub open spec fn trim_start(s: Seq<char>) -> Seq<char>
    decreases s.len(),
{
    if s.len() > 0 && is_ws(s[0]) {
        trim_start(s.drop_first())
    } else {
        s
    }
}

pub open spec fn trim_end(s: Seq<char>) -> Seq<char>
    decreases s.len(),
{
    if s.len() > 0 && is_ws(s.last()) {
        trim_end(s.drop_last())
    } else {
        s
    }
}

/// `str::trim`: leading and trailing whitespace removed.
pub open spec fn trim(s: Seq<char>) -> Seq<char> {
    trim_start(trim_end(s))
}

/// What `flatten` returns for a query with characters `q`.
pub open spec fn flatten_spec(q: Seq<char>) -> Seq<char> {
    collapse_ws(trim(q))
}

// ---------------------------------------------------------------------
// Executable whitespace handling.
// ---------------------------------------------------------------------

/// The bounds `b..e` of `trim(s)` inside `s`.
fn trim_bounds(s: &Vec<char>) -> (r: (usize, usize))
    ensures
        r.0 <= r.1 <= s.len(),
        s@.subrange(r.0 as int, r.1 as int) == trim(s@),
{
    let mut e = s.len();
    assert(s@.take(e as int) =~= s@);
    while e > 0 && ws(s[e - 1])
        invariant
            e <= s.len(),
            trim_end(s@) == trim_end(s@.take(e as int)),
        decreases e,
    {
        assert(s@.take(e as int).drop_last() =~= s@.take(e - 1));
        e -= 1;
    }
    assert(trim_end(s@.take(e as int)) == s@.take(e as int));
    let mut b: usize = 0;
    assert(s@.subrange(0, e as int) =~= s@.take(e as int));
    while b < e && ws(s[b])
        invariant
            b <= e <= s.len(),
            trim(s@) == trim_start(s@.subrange(b as int, e as int)),
        decreases e - b,
    {
        assert(s@.subrange(b as int, e as int).drop_first() =~= s@.subrange(b + 1, e as int));
        b += 1;
    }
    (b, e)
}

/// `collapse_ws` of `s[b..e]`.
fn collapse_range(s: &Vec<char>, b: usize, e: usize) -> (out: Vec<char>)
    requires
        b <= e <= s.len(),
    ensures
        out@ == collapse_ws(s@.subrange(b as int, e as int)),
{
    let mut out: Vec<char> = Vec::new();
    let mut i = b;
    let mut in_run = false;
    while i < e
        invariant
            b <= i <= e <= s.len(),
            collapse_ws(s@.subrange(b as int, e as int)) == out@ + collapse_from(
                s@.subrange(i as int, e as int),
                in_run,
            ),
        decreases e - i,
    {
        let c = s[i];
        let ghost rest = s@.subrange(i as int, e as int);
        let ghost old_out = out@;
        let ghost old_run = in_run;
        assert(rest.drop_first() =~= s@.subrange(i + 1, e as int));
        assert(rest[0] == c);
        if ws(c) {
            if !in_run {
                out.push(' ');
            }
            in_run = true;
        } else {
            out.push(c);
            in_run = false;
        }
        assert(collapse_from(rest, old_run) =~= (out@.skip(old_out.len() as int)) + collapse_from(
            rest.drop_first(),
            in_run,
        ));
        assert(out@ =~= old_out + out@.skip(old_out.len() as int));
        i += 1;
    }
    assert(collapse_from(s@.subrange(e as int, e as int), in_run) =~= seq![]);
    out
}


/// The characters of `flatten_spec(s@)`.
pub(crate) fn flatten_chars(s: &Vec<char>) -> (out: Vec<char>)
    ensures
        out@ == flatten_spec(s@),
{
    let (b, e) = trim_bounds(s);
    collapse_range(s, b, e)
}

/// Flatten a possibly multi-line raw query into one line: leading and
/// trailing whitespace removed, every inner run of whitespace replaced by a
/// single space, nothing else changed.
pub fn flatten(query: &str) -> (r: String)
    ensures
        r@ == flatten_spec(query@),
{
    let s = chars_of(query);
    string_of(&flatten_chars(&s))
}

// ---------------------------------------------------------------------
// String literals: `'(?:[^']|'')*'` replaced by `?`.
// ---------------------------------------------------------------------

/// Given the text `t` just after an opening quote, the number of characters
/// of `t` that the literal takes, closing quote included, or `None` when no
/// literal starts at that quote. Inside the literal a doubled quote `''` is
/// an escaped quote; when no lone closing quote follows, the match falls
/// back to the first quote of the last `''` pair, as a backtracking search
/// for `(?:[^']|'')*'` does.
pub open spec fn lit_len(t: Seq<char>) -> Option<int>
    decreases t.len(),
{
    if t.len() == 0 {
        None
    } else if t[0] != '\'' {
        match lit_len(t.drop_first()) {
            Some(n) => Some(n + 1),
            None => None,
        }
    } else if t.len() >= 2 && t[1] == '\'' {
        match lit_len(t.skip(2)) {
            Some(n) => Some(n + 2),
            None => Some(1),
        }
    } else {
        Some(1)
    }
}

pub proof fn lemma_lit_len_bounds(t: Seq<char>)
    ensures
        lit_len(t) matches Some(n) ==> 1 <= n <= t.len(),
    decreases t.len(),
{
    if t.len() == 0 {
    } else if t[0] != '\'' {
        lemma_lit_len_bounds(t.drop_first());
    } else if t.len() >= 2 && t[1] == '\'' {
        lemma_lit_len_bounds(t.skip(2));
    }
}

/// Every string literal of `s` (leftmost first, no overlaps) replaced by `?`.
pub open spec fn strings_pass(s: Seq<char>) -> Seq<char>
    decreases s.len(),
{
    if s.len() == 0 {
        seq![]
    } else if s[0] == '\'' && lit_len(s.drop_first()) is Some {
        let n = lit_len(s.drop_first())->0;
        proof {
            lemma_lit_len_bounds(s.drop_first());
        }
        seq!['?'] + strings_pass(s.skip(n + 1))
    } else {
        seq![s[0]] + strings_pass(s.drop_first())
    }
}

fn lit_len_at(s: &Vec<char>, i: usize) -> (r: Option<usize>)
    requires
        i <= s.len(),
    ensures
        r matches Some(n) ==> lit_len(s@.skip(i as int)) == Some(n as int),
        r is None ==> lit_len(s@.skip(i as int)) is None,
{
    let mut j = i;
    let mut last: Option<usize> = None;
    while j < s.len()
        invariant
            i <= j <= s.len(),
            last matches Some(m) ==> m <= j - i,
            lit_len(s@.skip(i as int)) == (match lit_len(s@.skip(j as int)) {
                Some(n) => Some(n + (j - i)),
                None => match last {
                    Some(m) => Some(m as int),
                    None => None,
                },
            }),
        decreases s.len() - j,
    {
        proof {
            lemma_skip_step(s@, j as int);
        }
        if s[j] != '\'' {
            j += 1;
        } else if j + 1 < s.len() && s[j + 1] == '\'' {
            assert(s@.skip(j as int).skip(2) =~= s@.skip(j + 2));
            last = Some(j + 1 - i);
            j += 2;
        } else {
            return Some(j + 1 - i);
        }
    }
    assert(s@.skip(j as int).len() == 0);
    last
}

fn strings_pass_exec(s: &Vec<char>) -> (out: Vec<char>)
    ensures
        out@ == strings_pass(s@),
{
    let mut out: Vec<char> = Vec::new();
    let mut i: usize = 0;
    assert(s@.skip(0) =~= s@);
    while i < s.len()
        invariant
            i <= s.len(),
            strings_pass(s@) == out@ + strings_pass(s@.skip(i as int)),
        decreases s.len() - i,
    {
        proof {
            lemma_skip_step(s@, i as int);
        }
        let ghost rest = s@.skip(i as int);
        let c = s[i];
        if c == '\'' {
            match lit_len_at(s, i + 1) {
                Some(n) => {
                    proof {
                        lemma_lit_len_bounds(rest.drop_first());
                        assert(rest.skip(n + 1) =~= s@.skip(i + n + 1));
                    }
                    out.push('?');
                    i = i + n + 1;
                    assert(strings_pass(s@) == out@ + strings_pass(s@.skip(i as int)));
                }
                None => {
                    out.push(c);
                    i += 1;
                    assert(strings_pass(s@) == out@ + strings_pass(s@.skip(i as int)));
                }
            }
        } else {
            out.push(c);
            i += 1;
            assert(strings_pass(s@) == out@ + strings_pass(s@.skip(i as int)));
        }
    }
    assert(s@.skip(i as int) =~= seq![]);
    assert(out@ + seq![] =~= out@);
    out
}


// ---------------------------------------------------------------------
// Numbers: `\b\d+(?:\.\d+)?\b` replaced by `?`.
// ---------------------------------------------------------------------

/// Whether the character before position `k` of `s` is a word character;
/// before position 0 that is `prev_word`, which describes the text already
/// scanned (false at the start of the haystack).
pub open spec fn word_before(s: Seq<char>, prev_word: bool, k: int) -> bool {
    if k == 0 {
        prev_word
    } else {
        is_word(s[k - 1])
    }
}

pub open spec fn word_at(s: Seq<char>, k: int) -> bool {
    k < s.len() && is_word(s[k])
}

/// `\b` at position `k`: a word character on exactly one side.
pub open spec fn boundary(s: Seq<char>, prev_word: bool, k: int) -> bool {
    word_before(s, prev_word, k) != word_at(s, k)
}

/// The largest `k` in `lo..=hi` at which `\b` holds: the end a greedy
/// repetition backs off to when it must be followed by `\b`.
pub open spec fn last_boundary(s: Seq<char>, prev_word: bool, lo: int, hi: int) -> Option<int>
    decreases hi - lo + 1,
{
    if hi < lo {
        None
    } else if boundary(s, prev_word, hi) {
        Some(hi)
    } else {
        last_boundary(s, prev_word, lo, hi - 1)
    }
}

pub proof fn lemma_last_boundary_bounds(s: Seq<char>, prev_word: bool, lo: int, hi: int)
    ensures
        last_boundary(s, prev_word, lo, hi) matches Some(b) ==> lo <= b <= hi,
    decreases hi - lo + 1,
{
    if hi >= lo && !boundary(s, prev_word, hi) {
        lemma_last_boundary_bounds(s, prev_word, lo, hi - 1);
    }
}

/// The length of the number that `\b\d+(?:\.\d+)?\b` matches at the
/// start of `s`, if any: the longest digit run, with a fractional part when
/// one follows and ends at a word boundary, backing off as a backtracking
/// search does.
pub open spec fn number_len(s: Seq<char>, prev_word: bool) -> Option<int> {
    if !(s.len() > 0 && is_digit(s[0]) && boundary(s, prev_word, 0)) {
        None
    } else {
        let a = digit_run(s);
        let frac = if a + 1 < s.len() && s[a] == '.' && is_digit(s[a + 1]) {
            last_boundary(s, prev_word, a + 2, a + 1 + digit_run(s.skip(a + 1)))
        } else {
            None
        };
        if frac is Some {
            frac
        } else {
            last_boundary(s, prev_word, 1, a)
        }
    }
}

pub proof fn lemma_number_len_bounds(s: Seq<char>, prev_word: bool)
    ensures
        number_len(s, prev_word) matches Some(n) ==> 1 <= n <= s.len(),
{
    if s.len() > 0 && is_digit(s[0]) && boundary(s, prev_word, 0) {
        let a = digit_run(s);
        lemma_digit_run_bounds(s);
        lemma_last_boundary_bounds(s, prev_word, 1, a);
        if a + 1 < s.len() && s[a] == '.' && is_digit(s[a + 1]) {
            lemma_digit_run_bounds(s.skip(a + 1));
            lemma_last_boundary_bounds(s, prev_word, a + 2, a + 1 + digit_run(s.skip(a + 1)));
        }
    }
}

/// Every standalone number of `s` replaced by `?`; `prev_word` describes
/// the character before `s` as in `word_before`.
pub open spec fn numbers_from(s: Seq<char>, prev_word: bool) -> Seq<char>
    decreases s.len(),
{
    if s.len() == 0 {
        seq![]
    } else if number_len(s, prev_word) is Some {
        let n = number_len(s, prev_word)->0;
        proof {
            lemma_number_len_bounds(s, prev_word);
        }
        seq!['?'] + numbers_from(s.skip(n), is_word(s[n - 1]))
    } else {
        seq![s[0]] + numbers_from(s.drop_first(), is_word(s[0]))
    }
}

pub open spec fn numbers_pass(s: Seq<char>) -> Seq<char> {
    numbers_from(s, false)
}

/// `boundary(s@.skip(i), prev_word, k)`.
fn boundary_at(s: &Vec<char>, i: usize, prev_word: bool, k: usize) -> (r: bool)
    requires
        i + k <= s.len(),
    ensures
        r == boundary(s@.skip(i as int), prev_word, k as int),
{
    let before = if k == 0 {
        prev_word
    } else {
        word(s[i + k - 1])
    };
    let at = i + k < s.len() && word(s[i + k]);
    before != at
}

fn last_boundary_at(s: &Vec<char>, i: usize, prev_word: bool, lo: usize, hi: usize) -> (r: Option<
    usize,
>)
    requires
        1 <= lo,
        i + hi <= s.len(),
    ensures
        r matches Some(b) ==> last_boundary(s@.skip(i as int), prev_word, lo as int, hi as int)
            == Some(b as int),
        r is None ==> last_boundary(s@.skip(i as int), prev_word, lo as int, hi as int) is None,
{
    let mut h = hi;
    while h >= lo
        invariant
            1 <= lo,
            h <= hi,
            i + hi <= s.len(),
            last_boundary(s@.skip(i as int), prev_word, lo as int, hi as int) == last_boundary(
                s@.skip(i as int),
                prev_word,
                lo as int,
                h as int,
            ),
        decreases h,
    {
        if boundary_at(s, i, prev_word, h) {
            return Some(h);
        }
        h -= 1;
    }
    None
}

fn number_len_at(s: &Vec<char>, i: usize, prev_word: bool) -> (r: Option<usize>)
    requires
        i <= s.len(),
    ensures
        r matches Some(n) ==> number_len(s@.skip(i as int), prev_word) == Some(n as int),
        r is None ==> number_len(s@.skip(i as int), prev_word) is None,
{
    let ghost t = s@.skip(i as int);
    if !(i < s.len() && digit(s[i]) && boundary_at(s, i, prev_word, 0)) {
        return None;
    }
    proof {
        lemma_skip_step(s@, i as int);
    }
    let a = digit_run_at(s, i);
    if i + a < s.len() - 1 && s[i + a] == '.' && digit(s[i + a + 1]) {
        let r2 = digit_run_at(s, i + a + 1);
        assert(t.skip(a + 1) =~= s@.skip(i + a + 1));
        match last_boundary_at(s, i, prev_word, a + 2, a + 1 + r2) {
            Some(b) => {
                return Some(b);
            },
            None => {},
        }
    }
    last_boundary_at(s, i, prev_word, 1, a)
}

fn numbers_pass_exec(s: &Vec<char>) -> (out: Vec<char>)
    ensures
        out@ == numbers_pass(s@),
{
    let mut out: Vec<char> = Vec::new();
    let mut i: usize = 0;
    let mut prev_word = false;
    assert(s@.skip(0) =~= s@);
    while i < s.len()
        invariant
            i <= s.len(),
            numbers_pass(s@) == out@ + numbers_from(s@.skip(i as int), prev_word),
        decreases s.len() - i,
    {
        proof {
            lemma_skip_step(s@, i as int);
        }
        let ghost rest = s@.skip(i as int);
        match number_len_at(s, i, prev_word) {
            Some(n) => {
                proof {
                    lemma_number_len_bounds(rest, prev_word);
                    assert(rest.skip(n as int) =~= s@.skip(i + n));
                    assert(rest[n - 1] == s@[i + n - 1]);
                }
                out.push('?');
                prev_word = word(s[i + n - 1]);
                i = i + n;
                assert(numbers_pass(s@) == out@ + numbers_from(s@.skip(i as int), prev_word));
            },
            None => {
                let c = s[i];
                out.push(c);
                prev_word = word(c);
                i += 1;
                assert(numbers_pass(s@) == out@ + numbers_from(s@.skip(i as int), prev_word));
            },
        }
    }
    assert(s@.skip(i as int) =~= seq![]);
    assert(out@ + seq![] =~= out@);
    out
}


// ---------------------------------------------------------------------
// Placeholder lists: `\(\s*\?(?:\s*,\s*\?)*\s*\)` replaced by `(?)`.
// The items after the first are taken zero or more times, so that a
// parenthesised list of any length, one placeholder included, becomes
// `(?)`, as the fingerprint promises.
// ---------------------------------------------------------------------

/// Length of one `\s*,\s*\?` at the start of `s`, or 0 when there is none.
pub open spec fn list_item_len(s: Seq<char>) -> int {
    let k = ws_run(s);
    if k < s.len() && s[k] == ',' {
        let m = ws_run(s.skip(k + 1));
        if k + 1 + m < s.len() && s[k + 1 + m] == '?' {
            k + m + 2
        } else {
            0
        }
    } else {
        0
    }
}

pub proof fn lemma_list_item_len_bounds(s: Seq<char>)
    ensures
        0 <= list_item_len(s) <= s.len(),
        list_item_len(s) == 0 || list_item_len(s) >= 2,
{
    lemma_ws_run_bounds(s);
    let k = ws_run(s);
    if k < s.len() && s[k] == ',' {
        lemma_ws_run_bounds(s.skip(k + 1));
    }
}

/// Length of the greedy repetition `(?:\s*,\s*\?)*` at the start of `s`.
pub open spec fn list_tail(s: Seq<char>) -> int
    decreases s.len(),
{
    let c = list_item_len(s);
    if c > 0 {
        proof {
            lemma_list_item_len_bounds(s);
        }
        c + list_tail(s.skip(c))
    } else {
        0
    }
}

pub proof fn lemma_list_tail_bounds(s: Seq<char>)
    ensures
        0 <= list_tail(s) <= s.len(),
    decreases s.len(),
{
    lemma_list_item_len_bounds(s);
    let c = list_item_len(s);
    if c > 0 {
        lemma_list_tail_bounds(s.skip(c));
    }
}

/// The length of the list `( ?, ?, ... )` of one or more placeholders that
/// `s` starts with, if any.
pub open spec fn list_len(s: Seq<char>) -> Option<int> {
    if s.len() > 0 && s[0] == '(' {
        let j = 1 + ws_run(s.drop_first());
        if j < s.len() && s[j] == '?' {
            let e = j + 1 + list_tail(s.skip(j + 1));
            let k = e + ws_run(s.skip(e));
            if k < s.len() && s[k] == ')' {
                Some(k + 1)
            } else {
                None
            }
        } else {
            None
        }
    } else {
        None
    }
}

pub proof fn lemma_list_len_bounds(s: Seq<char>)
    ensures
        list_len(s) matches Some(n) ==> 1 <= n <= s.len(),
{
    if s.len() > 0 && s[0] == '(' {
        lemma_ws_run_bounds(s.drop_first());
        let j = 1 + ws_run(s.drop_first());
        if j < s.len() && s[j] == '?' {
            lemma_list_tail_bounds(s.skip(j + 1));
            let e = j + 1 + list_tail(s.skip(j + 1));
            lemma_ws_run_bounds(s.skip(e));
        }
    }
}

/// Every list of one or more placeholders in parentheses replaced by `(?)`.
pub open spec fn lists_pass(s: Seq<char>) -> Seq<char>
    decreases s.len(),
{
    if s.len() == 0 {
        seq![]
    } else if list_len(s) is Some {
        let n = list_len(s)->0;
        proof {
            lemma_list_len_bounds(s);
        }
        seq!['(', '?', ')'] + lists_pass(s.skip(n))
    } else {
        seq![s[0]] + lists_pass(s.drop_first())
    }
}

fn list_item_len_at(s: &Vec<char>, i: usize) -> (n: usize)
    requires
        i <= s.len(),
    ensures
        n == list_item_len(s@.skip(i as int)),
        i + n <= s.len(),
{
    let ghost t = s@.skip(i as int);
    proof {
        lemma_list_item_len_bounds(t);
    }
    let k = ws_run_at(s, i);
    if i + k < s.len() && s[i + k] == ',' {
        assert(t.skip(k + 1) =~= s@.skip(i + k + 1));
        let m = ws_run_at(s, i + k + 1);
        if i + k + 1 + m < s.len() && s[i + k + 1 + m] == '?' {
            return k + m + 2;
        }
    }
    0
}

fn list_len_at(s: &Vec<char>, i: usize) -> (r: Option<usize>)
    requires
        i <= s.len(),
    ensures
        r matches Some(n) ==> list_len(s@.skip(i as int)) == Some(n as int),
        r is None ==> list_len(s@.skip(i as int)) is None,
{
    let ghost t = s@.skip(i as int);
    if !(i < s.len() && s[i] == '(') {
        return None;
    }
    proof {
        lemma_skip_step(s@, i as int);
    }
    let w = ws_run_at(s, i + 1);
    let j = 1 + w;
    if !(i + j < s.len() && s[i + j] == '?') {
        return None;
    }
    let mut e = j + 1;
    assert(t.skip(j + 1) =~= s@.skip(i + j + 1));
    proof {
        lemma_list_tail_bounds(t.skip(j + 1));
    }
    loop
        invariant
            i + e <= s.len(),
            j + 1 <= e,
            j + 1 + list_tail(t.skip(j + 1)) == e + list_tail(s@.skip(i + e)),
        ensures
            j + 1 <= e,
            i + e <= s.len(),
            j + 1 + list_tail(t.skip(j + 1)) == e,
        decreases s.len() - e,
    {
        let c = list_item_len_at(s, i + e);
        proof {
            lemma_list_item_len_bounds(s@.skip(i + e));
        }
        if c == 0 {
            break;
        }
        assert(s@.skip(i + e).skip(c as int) =~= s@.skip(i + e + c));
        e = e + c;
    }
    assert(t.skip(e as int) =~= s@.skip(i + e));
    let k = e + ws_run_at(s, i + e);
    if i + k < s.len() && s[i + k] == ')' {
        Some(k + 1)
    } else {
        None
    }
}

fn lists_pass_exec(s: &Vec<char>) -> (out: Vec<char>)
    ensures
        out@ == lists_pass(s@),
{
    let mut out: Vec<char> = Vec::new();
    let mut i: usize = 0;
    assert(s@.skip(0) =~= s@);
    while i < s.len()
        invariant
            i <= s.len(),
            lists_pass(s@) == out@ + lists_pass(s@.skip(i as int)),
        decreases s.len() - i,
    {
        proof {
            lemma_skip_step(s@, i as int);
        }
        let ghost rest = s@.skip(i as int);
        match list_len_at(s, i) {
            Some(n) => {
                proof {
                    lemma_list_len_bounds(rest);
                    assert(rest.skip(n as int) =~= s@.skip(i + n));
                }
                out.push('(');
                out.push('?');
                out.push(')');
                i = i + n;
                assert(lists_pass(s@) == out@ + lists_pass(s@.skip(i as int)));
            },
            None => {
                out.push(s[i]);
                i += 1;
                assert(lists_pass(s@) == out@ + lists_pass(s@.skip(i as int)));
            },
        }
    }
    assert(s@.skip(i as int) =~= seq![]);
    assert(out@ + seq![] =~= out@);
    out
}

// ---------------------------------------------------------------------
// The fingerprint.
// ---------------------------------------------------------------------

/// What `normalize` returns for a query with characters `q`.
#[verifier::opaque]
pub open spec fn normalize_spec(q: Seq<char>) -> Seq<char> {
    flatten_spec(lists_pass(numbers_pass(strings_pass(flatten_spec(q)))))
}

/// The characters of `normalize_spec(s@)`.
pub(crate) fn normalize_chars(s: &Vec<char>) -> (out: Vec<char>)
    ensures
        out@ == normalize_spec(s@),
{
    proof {
        reveal(normalize_spec);
    }
    let flat = flatten_chars(s);
    let no_strings = strings_pass_exec(&flat);
    let no_numbers = numbers_pass_exec(&no_strings);
    let no_lists = lists_pass_exec(&no_numbers);
    flatten_chars(&no_lists)
}

/// Collapse a query down to its shape: string literals and standalone
/// numbers become `?`, a parenthesised list of them, of any length, becomes
/// `(?)`, and whitespace is trimmed and collapsed, so that two calls with
/// different parameters get the same fingerprint.
pub fn normalize(query: &str) -> (r: String)
    ensures
        r@ == normalize_spec(query@),
{
    let s = chars_of(query);
    string_of(&normalize_chars(&s))
}

} // verus!
