//! Character classes and conversions between `str`/`String` and `Vec<char>`.

use vstd::prelude::*;

verus! {

/// Unicode `White_Space`: the class of `\s` in `regex` and of
/// `char::is_whitespace` (and so of `str::trim`).
pub open spec fn is_ws(c: char) -> bool {
    let u = c as u32;
    ||| (0x09 <= u && u <= 0x0d)
    ||| u == 0x20
    ||| u == 0x85
    ||| u == 0xa0
    ||| u == 0x1680
    ||| (0x2000 <= u && u <= 0x200a)
    ||| u == 0x2028
    ||| u == 0x2029
    ||| u == 0x202f
    ||| u == 0x205f
    ||| u == 0x3000
}

pub(crate) fn ws(c: char) -> (r: bool)
    ensures
        r == is_ws(c),
{
    let u = c as u32;
    (0x09 <= u && u <= 0x0d) || u == 0x20 || u == 0x85 || u == 0xa0 || u == 0x1680 || (0x2000
        <= u && u <= 0x200a) || u == 0x2028 || u == 0x2029 || u == 0x202f || u == 0x205f || u
        == 0x3000
}

/// The characters of `s`, in order.
pub(crate) fn chars_of(s: &str) -> (v: Vec<char>)
    ensures
        v@ == s@,
{
    let mut v: Vec<char> = Vec::new();
    for c in it: s.chars()
        invariant
            v@ == it.seq().take(it.index() as int),
    {
        v.push(c);
    }
    v
}

/// Whether the `regex` crate finds a match of `pattern` in `haystack`.
pub uninterp spec fn regex_matches(pattern: Seq<char>, haystack: Seq<char>) -> bool;

/// Compiles `pattern` with `regex::Regex::new` and asks `Regex::is_match`
/// whether it matches the one-character haystack `c`; a pattern that does
/// not compile matches nothing. The contract claims only that the answer
/// is a function of the pattern and the haystack.
#[verifier::external_body]
fn regex_matches_char(pattern: &str, c: char) -> (r: bool)
    ensures
        r == regex_matches(pattern@, seq![c]),
{
    let mut buf = [0u8; 4];
    match regex::Regex::new(pattern) {
        Ok(re) => re.is_match(c.encode_utf8(&mut buf)),
        Err(_) => false,
    }
}

/// `\A\d\z`: the haystack is one Unicode decimal digit.
pub open spec fn digit_pattern() -> Seq<char> {
    seq!['\\', 'A', '\\', 'd', '\\', 'z']
}

/// `\A\w\z`: the haystack is one Unicode word character.
pub open spec fn word_pattern() -> Seq<char> {
    seq!['\\', 'A', '\\', 'w', '\\', 'z']
}

pub open spec fn is_ascii_char(c: char) -> bool {
    (c as u32) < 0x80
}

pub open spec fn is_ascii_digit(c: char) -> bool {
    '0' <= c && c <= '9'
}

pub open spec fn is_ascii_word(c: char) -> bool {
    ||| is_ascii_digit(c)
    ||| ('a' <= c && c <= 'z')
    ||| ('A' <= c && c <= 'Z')
    ||| c == '_'
}

/// The class `\d` of `regex` (Unicode `Decimal_Number`): among ASCII
/// characters exactly `0`-`9`; beyond ASCII, whatever `regex` says.
pub open spec fn is_digit(c: char) -> bool {
    if is_ascii_char(c) {
        is_ascii_digit(c)
    } else {
        regex_matches(digit_pattern(), seq![c])
    }
}

/// The class `\w` of `regex`: among ASCII characters `[0-9A-Za-z_]`;
/// beyond ASCII, whatever `regex` says.
pub open spec fn is_word(c: char) -> bool {
    if is_ascii_char(c) {
        is_ascii_word(c)
    } else {
        regex_matches(word_pattern(), seq![c])
    }
}

/// `is_digit(c)`. ASCII characters are classified here; any other one is
/// handed to `regex`, at the cost of compiling a small pattern.
pub(crate) fn digit(c: char) -> (r: bool)
    ensures
        r == is_digit(c),
{
    if (c as u32) < 0x80 {
        '0' <= c && c <= '9'
    } else {
        let p = "\\A\\d\\z";
        proof {
            reveal_strlit("\\A\\d\\z");
        }
        assert(p@ =~= digit_pattern());
        regex_matches_char(p, c)
    }
}

/// `is_word(c)`, classified as `digit` classifies.
pub(crate) fn word(c: char) -> (r: bool)
    ensures
        r == is_word(c),
{
    if (c as u32) < 0x80 {
        ('0' <= c && c <= '9') || ('a' <= c && c <= 'z') || ('A' <= c && c <= 'Z') || c == '_'
    } else {
        let p = "\\A\\w\\z";
        proof {
            reveal_strlit("\\A\\w\\z");
        }
        assert(p@ =~= word_pattern());
        regex_matches_char(p, c)
    }
}

/// Appends `c` to `s` (`String::push`).
#[verifier::external_body]
fn push_char(s: &mut String, c: char)
    ensures
        final(s)@ == old(s)@.push(c),
{
    s.push(c);
}

/// A `String` holding exactly the characters `v[lo..hi]`.
pub(crate) fn string_of_range(v: &Vec<char>, lo: usize, hi: usize) -> (s: String)
    requires
        lo <= hi <= v.len(),
    ensures
        s@ == v@.subrange(lo as int, hi as int),
{
    let mut s = String::new();
    let mut i: usize = lo;
    while i < hi
        invariant
            lo <= i <= hi <= v.len(),
            s@ == v@.subrange(lo as int, i as int),
        decreases hi - i,
    {
        push_char(&mut s, v[i]);
        i += 1;
        assert(s@ =~= v@.subrange(lo as int, i as int));
    }
    s
}

/// A `String` holding exactly the characters of `v`.
pub(crate) fn string_of(v: &Vec<char>) -> (s: String)
    ensures
        s@ == v@,
{
    let s = string_of_range(v, 0, v.len());
    assert(v@.subrange(0, v.len() as int) =~= v@);
    s
}

/// The characters `v[lo..hi]`.
pub(crate) fn copy_range(v: &Vec<char>, lo: usize, hi: usize) -> (out: Vec<char>)
    requires
        lo <= hi <= v.len(),
    ensures
        out@ == v@.subrange(lo as int, hi as int),
{
    let mut out: Vec<char> = Vec::new();
    let mut i: usize = lo;
    while i < hi
        invariant
            lo <= i <= hi <= v.len(),
            out@ == v@.subrange(lo as int, i as int),
        decreases hi - i,
    {
        out.push(v[i]);
        i += 1;
        assert(out@ =~= v@.subrange(lo as int, i as int));
    }
    out
}

pub proof fn lemma_skip_step<A>(s: Seq<A>, i: int)
    requires
        0 <= i < s.len(),
    ensures
        s.skip(i).len() > 0,
        s.skip(i)[0] == s[i],
        s.skip(i).drop_first() =~= s.skip(i + 1),
{
}

/// Length of the run of `\d` characters that `s` starts with.
pub open spec fn digit_run(s: Seq<char>) -> int
    decreases s.len(),
{
    if s.len() > 0 && is_digit(s[0]) {
        1 + digit_run(s.drop_first())
    } else {
        0
    }
}

pub proof fn lemma_digit_run_bounds(s: Seq<char>)
    ensures
        0 <= digit_run(s) <= s.len(),
        digit_run(s) < s.len() ==> !is_digit(s[digit_run(s)]),
        forall|k: int| 0 <= k < digit_run(s) ==> is_digit(#[trigger] s[k]),
    decreases s.len(),
{
    if s.len() > 0 && is_digit(s[0]) {
        lemma_digit_run_bounds(s.drop_first());
        assert forall|k: int| 0 <= k < digit_run(s) implies is_digit(#[trigger] s[k]) by {
            if k > 0 {
                assert(s[k] == s.drop_first()[k - 1]);
            }
        }
    }
}

/// Length of the run of whitespace that `s` starts with.
pub open spec fn ws_run(s: Seq<char>) -> int
    decreases s.len(),
{
    if s.len() > 0 && is_ws(s[0]) {
        1 + ws_run(s.drop_first())
    } else {
        0
    }
}

pub proof fn lemma_ws_run_bounds(s: Seq<char>)
    ensures
        0 <= ws_run(s) <= s.len(),
        ws_run(s) < s.len() ==> !is_ws(s[ws_run(s)]),
        forall|k: int| 0 <= k < ws_run(s) ==> is_ws(#[trigger] s[k]),
    decreases s.len(),
{
    if s.len() > 0 && is_ws(s[0]) {
        lemma_ws_run_bounds(s.drop_first());
        assert forall|k: int| 0 <= k < ws_run(s) implies is_ws(#[trigger] s[k]) by {
            if k > 0 {
                assert(s[k] == s.drop_first()[k - 1]);
            }
        }
    }
}

pub(crate) fn digit_run_at(s: &Vec<char>, i: usize) -> (n: usize)
    requires
        i <= s.len(),
    ensures
        n == digit_run(s@.skip(i as int)),
        i + n <= s.len(),
{
    let mut j = i;
    while j < s.len() && digit(s[j])
        invariant
            i <= j <= s.len(),
            digit_run(s@.skip(i as int)) == (j - i) + digit_run(s@.skip(j as int)),
        decreases s.len() - j,
    {
        proof {
            lemma_skip_step(s@, j as int);
        }
        j += 1;
    }
    if j < s.len() {
        proof {
            lemma_skip_step(s@, j as int);
        }
    }
    j - i
}

pub(crate) fn ws_run_at(s: &Vec<char>, i: usize) -> (n: usize)
    requires
        i <= s.len(),
    ensures
        n == ws_run(s@.skip(i as int)),
        i + n <= s.len(),
{
    let mut j = i;
    while j < s.len() && ws(s[j])
        invariant
            i <= j <= s.len(),
            ws_run(s@.skip(i as int)) == (j - i) + ws_run(s@.skip(j as int)),
        decreases s.len() - j,
    {
        proof {
            lemma_skip_step(s@, j as int);
        }
        j += 1;
    }
    if j < s.len() {
        proof {
            lemma_skip_step(s@, j as int);
        }
    }
    j - i
}

} // verus!
