//! What a well-formed `duration:` line of the log gives: one record, with
//! the pid written in its brackets, and one entry, with the duration text
//! and the query as written, whatever the time zone token, the pid and the
//! duration are.

use vstd::prelude::*;

use crate::parser::{
    all_ascii_digits, count_dots, decimal_value, duration_match, has_at, has_newline,
    is_decimal_text, is_num_char, lines_of, line_len, strip_cr, entry_of, entries_of, nonws_run, num_run, parse_spec,
    pid_value, prefix_match, records_spec, seconds_end, timestamp_ok, word_duration, word_log,
    word_ms, word_statement,
};
use crate::text::{digit_run, is_digit, is_ws, ws_run};

verus! {

/// Every character of `s` is one of `0`-`9`.
pub open spec fn digit_text(s: Seq<char>) -> bool {
    forall|k: int| 0 <= k < s.len() ==> '0' <= #[trigger] s[k] && s[k] <= '9'
}

/// The value of the decimal numeral `s`.
pub open spec fn numeral_value(s: Seq<char>) -> int
    decreases s.len(),
{
    if s.len() == 0 {
        0
    } else {
        10 * numeral_value(s.drop_last()) + (s.last() as int - '0' as int)
    }
}

/// `YYYY-MM-DD HH:MM:SS`, optionally followed by `.` and digits.
pub open spec fn log_timestamp(ts: Seq<char>) -> bool {
    let dig = |k: int| '0' <= ts[k] && ts[k] <= '9';
    &&& ts.len() >= 19
    &&& dig(0) && dig(1) && dig(2) && dig(3) && ts[4] == '-' && dig(5) && dig(6) && ts[7] == '-'
    &&& dig(8) && dig(9) && ts[10] == ' ' && dig(11) && dig(12) && ts[13] == ':' && dig(14)
    &&& dig(15) && ts[16] == ':' && dig(17) && dig(18)
    &&& ts.len() > 19 ==> ts[19] == '.' && ts.len() > 20 && digit_text(ts.skip(20))
}

/// The time zone token of the prefix: any nonempty run of characters
/// other than whitespace (`CET`, `IST`, `CEST`, `America/New_York`, ...).
pub open spec fn zone_token(t: Seq<char>) -> bool {
    t.len() > 0 && forall|k: int| 0 <= k < t.len() ==> !is_ws(#[trigger] t[k])
}

/// A duration as the log writes it: digits, or digits, `.` and digits,
/// with at least one digit.
pub open spec fn duration_text(i: Seq<char>, f: Seq<char>, frac: bool) -> Seq<char> {
    if frac {
        i + seq!['.'] + f
    } else {
        i
    }
}

/// `LOG:  duration: <d> ms  statement: <q>`.
pub open spec fn duration_message(d: Seq<char>, q: Seq<char>) -> Seq<char> {
    seq!['L', 'O', 'G', ':', ' ', ' ', 'd', 'u', 'r', 'a', 't', 'i', 'o', 'n', ':', ' '] + d + seq![
        ' ',
        'm',
        's',
        ' ',
        ' ',
        's',
        't',
        'a',
        't',
        'e',
        'm',
        'e',
        'n',
        't',
        ':',
        ' ',
    ] + q
}

/// `<ts> <tz> [<pid>] <m>`.
pub open spec fn log_line(ts: Seq<char>, tz: Seq<char>, pid: Seq<char>, m: Seq<char>) -> Seq<char> {
    ts + seq![' '] + tz + seq![' ', '['] + pid + seq![']', ' '] + m
}

// ---------------------------------------------------------------------
// Runs over text of known shape.
// ---------------------------------------------------------------------

proof fn lemma_ws_run_exact(x: Seq<char>, r: Seq<char>)
    requires
        forall|k: int| 0 <= k < x.len() ==> is_ws(#[trigger] x[k]),
        r.len() == 0 || !is_ws(r[0]),
    ensures
        ws_run(x + r) == x.len(),
    decreases x.len(),
{
    if x.len() == 0 {
        assert(x + r =~= r);
    } else {
        assert((x + r)[0] == x[0]);
        assert((x + r).drop_first() =~= x.drop_first() + r);
        assert forall|k: int| 0 <= k < x.drop_first().len() implies is_ws(
            #[trigger] x.drop_first()[k],
        ) by {
            assert(x.drop_first()[k] == x[k + 1]);
        }
        lemma_ws_run_exact(x.drop_first(), r);
    }
}

proof fn lemma_nonws_run_exact(x: Seq<char>, r: Seq<char>)
    requires
        forall|k: int| 0 <= k < x.len() ==> !is_ws(#[trigger] x[k]),
        r.len() == 0 || is_ws(r[0]),
    ensures
        nonws_run(x + r) == x.len(),
    decreases x.len(),
{
    if x.len() == 0 {
        assert(x + r =~= r);
    } else {
        assert((x + r)[0] == x[0]);
        assert((x + r).drop_first() =~= x.drop_first() + r);
        assert forall|k: int| 0 <= k < x.drop_first().len() implies !is_ws(
            #[trigger] x.drop_first()[k],
        ) by {
            assert(x.drop_first()[k] == x[k + 1]);
        }
        lemma_nonws_run_exact(x.drop_first(), r);
    }
}

proof fn lemma_digit_run_exact(x: Seq<char>, r: Seq<char>)
    requires
        digit_text(x),
        r.len() == 0 || !is_digit(r[0]),
    ensures
        digit_run(x + r) == x.len(),
    decreases x.len(),
{
    if x.len() == 0 {
        assert(x + r =~= r);
    } else {
        assert((x + r)[0] == x[0]);
        assert('0' <= x[0] && x[0] <= '9');
        assert(is_digit(x[0]));
        assert((x + r).drop_first() =~= x.drop_first() + r);
        assert forall|k: int| 0 <= k < x.drop_first().len() implies '0' <= #[trigger] x.drop_first()[k]
            && x.drop_first()[k] <= '9' by {
            assert(x.drop_first()[k] == x[k + 1]);
        }
        lemma_digit_run_exact(x.drop_first(), r);
    }
}

proof fn lemma_num_run_exact(x: Seq<char>, r: Seq<char>)
    requires
        forall|k: int| 0 <= k < x.len() ==> is_num_char(#[trigger] x[k]),
        r.len() == 0 || !is_num_char(r[0]),
    ensures
        num_run(x + r) == x.len(),
    decreases x.len(),
{
    if x.len() == 0 {
        assert(x + r =~= r);
    } else {
        assert((x + r)[0] == x[0]);
        assert((x + r).drop_first() =~= x.drop_first() + r);
        assert forall|k: int| 0 <= k < x.drop_first().len() implies is_num_char(
            #[trigger] x.drop_first()[k],
        ) by {
            assert(x.drop_first()[k] == x[k + 1]);
        }
        lemma_num_run_exact(x.drop_first(), r);
    }
}

proof fn lemma_count_dots_concat(a: Seq<char>, b: Seq<char>)
    ensures
        count_dots(a + b) == count_dots(a) + count_dots(b),
    decreases a.len(),
{
    if a.len() == 0 {
        assert(a + b =~= b);
    } else {
        assert((a + b).drop_first() =~= a.drop_first() + b);
        lemma_count_dots_concat(a.drop_first(), b);
    }
}

proof fn lemma_count_dots_digits(s: Seq<char>)
    requires
        digit_text(s),
    ensures
        count_dots(s) == 0,
    decreases s.len(),
{
    if s.len() > 0 {
        assert(s[0] != '.');
        assert forall|k: int| 0 <= k < s.drop_first().len() implies '0' <= #[trigger] s.drop_first()[k]
            && s.drop_first()[k] <= '9' by {
            assert(s.drop_first()[k] == s[k + 1]);
        }
        lemma_count_dots_digits(s.drop_first());
    }
}

proof fn lemma_numeral_value(s: Seq<char>)
    requires
        digit_text(s),
    ensures
        all_ascii_digits(s),
        decimal_value(s) == numeral_value(s),
    decreases s.len(),
{
    if s.len() > 0 {
        assert forall|k: int| 0 <= k < s.drop_last().len() implies '0' <= #[trigger] s.drop_last()[k]
            && s.drop_last()[k] <= '9' by {
            assert(s.drop_last()[k] == s[k]);
        }
        lemma_numeral_value(s.drop_last());
    }
}

// ---------------------------------------------------------------------
// The message.
// ---------------------------------------------------------------------

/// A duration in the form the log writes is a run of `[0-9.]` that
/// `f64::from_str` accepts.
proof fn lemma_duration_text(i: Seq<char>, f: Seq<char>, frac: bool)
    requires
        digit_text(i),
        digit_text(f),
        if frac {
            i.len() + f.len() > 0
        } else {
            i.len() > 0
        },
    ensures
        ({
            let d = duration_text(i, f, frac);
            &&& d.len() > 0
            &&& forall|k: int| 0 <= k < d.len() ==> is_num_char(#[trigger] d[k]) && d[k] != '\n'
            &&& is_decimal_text(d)
        }),
{
    let d = duration_text(i, f, frac);
    lemma_count_dots_digits(i);
    lemma_count_dots_digits(f);
    if frac {
        lemma_count_dots_concat(i, seq!['.']);
        lemma_count_dots_concat(i + seq!['.'], f);
        assert(seq!['.'].drop_first() =~= Seq::<char>::empty());
        assert(count_dots(Seq::<char>::empty()) == 0);
        assert(seq!['.'][0] == '.');
        assert(count_dots(seq!['.']) == 1);
        assert forall|k: int| 0 <= k < d.len() implies is_num_char(#[trigger] d[k]) && d[k]
            != '\n' by {
            if k < i.len() {
                assert(d[k] == i[k]);
            } else if k > i.len() {
                assert(d[k] == f[k - i.len() - 1]);
            }
        }
        if i.len() > 0 {
            assert(d[0] == i[0]);
        } else {
            assert(d[1] == f[0]);
        }
    } else {
        assert(d[0] == i[0]);
    }
}

/// `LOG:  duration: <d> ms  statement: <q>` is a `duration:` entry with
/// the duration text `d` and the query `q`.
#[verifier::spinoff_prover]
proof fn lemma_duration_message(d: Seq<char>, q: Seq<char>)
    requires
        d.len() > 0,
        forall|k: int| 0 <= k < d.len() ==> is_num_char(#[trigger] d[k]) && d[k] != '\n',
        forall|k: int| 0 <= k < q.len() ==> #[trigger] q[k] != '\n',
    ensures
        ({
            let m = duration_message(d, q);
            let n = d.len() as int;
            &&& duration_match(m) == Some((16int, 16 + n, 32 + n))
            &&& m.subrange(16, 16 + n) == d
            &&& m.skip(32 + n) == q
            &&& !has_newline(m)
        }),
{
    let m = duration_message(d, q);
    let n = d.len() as int;
    let t = seq![' ', 'm', 's', ' ', ' ', 's', 't', 'a', 't', 'e', 'm', 'e', 'n', 't', ':', ' '];
    assert(m.subrange(0, 4) =~= word_log());
    assert(m.skip(4) =~= seq![' ', ' '] + m.skip(6));
    assert(m.skip(6)[0] == 'd');
    lemma_ws_run_exact(seq![' ', ' '], m.skip(6));
    assert(m.subrange(6, 15) =~= word_duration());
    assert(m.skip(15) =~= seq![' '] + m.skip(16));
    assert(m.skip(16) =~= d + (t + q));
    assert(m.skip(16)[0] == d[0]);
    lemma_ws_run_exact(seq![' '], m.skip(16));
    assert((t + q)[0] == ' ');
    lemma_num_run_exact(d, t + q);
    assert(m.skip(16 + n) =~= seq![' '] + m.skip(17 + n));
    assert(m.skip(17 + n)[0] == 'm');
    lemma_ws_run_exact(seq![' '], m.skip(17 + n));
    assert(m.subrange(17 + n, 19 + n) =~= word_ms());
    assert(m.skip(19 + n) =~= seq![' ', ' '] + m.skip(21 + n));
    assert(m.skip(21 + n)[0] == 's');
    lemma_ws_run_exact(seq![' ', ' '], m.skip(21 + n));
    assert(m.subrange(21 + n, 30 + n) =~= word_statement());
    assert(m[30 + n] == ':');
    assert(m[31 + n] == ' ');
    assert(m.subrange(16, 16 + n) =~= d);
    assert(m.skip(32 + n) =~= q);
    assert forall|k: int| 0 <= k < m.len() implies m[k] != '\n' by {
        if 16 <= k < 16 + n {
            assert(m[k] == d[k - 16]);
        } else if k >= 32 + n {
            assert(m[k] == q[k - 32 - n]);
        }
    }
}

// ---------------------------------------------------------------------
// The prefix.
// ---------------------------------------------------------------------

/// A line with the log-line prefix names the pid written in its brackets
/// and starts its message after them.
#[verifier::spinoff_prover]
proof fn lemma_log_line_prefix(ts: Seq<char>, tz: Seq<char>, pid: Seq<char>, m: Seq<char>)
    requires
        log_timestamp(ts),
        zone_token(tz),
        pid.len() > 0,
        digit_text(pid),
        numeral_value(pid) <= i32::MAX,
        !has_newline(m),
    ensures
        ({
            let l = log_line(ts, tz, pid, m);
            let start: int = ts.len() as int + tz.len() as int + pid.len() as int + 5;
            &&& prefix_match(l) == Some((numeral_value(pid) as i32, start))
            &&& l.skip(start) == m
        }),
{
    let l = log_line(ts, tz, pid, m);
    let p = ts.len() as int;
    let zq = p + 1 + tz.len();
    let d = zq + 2 + pid.len();
    assert forall|k: int| 0 <= k < 19 implies l[k] == ts[k] by {}
    assert(timestamp_ok(l));
    assert(l[p] == ' ');
    if p > 19 {
        let frac = ts.skip(20);
        assert(l.skip(20) =~= frac + (seq![' '] + tz + seq![' ', '['] + pid + seq![']', ' '] + m));
        lemma_digit_run_exact(frac, seq![' '] + tz + seq![' ', '['] + pid + seq![']', ' '] + m);
        assert(l[19] == '.');
    }
    assert(seconds_end(l) == p);
    let after_ts = tz + (seq![' ', '['] + pid + seq![']', ' '] + m);
    assert(l.skip(p + 1) =~= after_ts);
    lemma_nonws_run_exact(tz, seq![' ', '['] + pid + seq![']', ' '] + m);
    assert(l[zq] == ' ' && l[zq + 1] == '[');
    assert(l.skip(zq + 2) =~= pid + (seq![']', ' '] + m));
    lemma_digit_run_exact(pid, seq![']', ' '] + m);
    assert(l[d] == ']' && l[d + 1] == ' ');
    assert(l.skip(d + 2) =~= m);
    assert(l.subrange(zq + 2, d) =~= pid);
    lemma_numeral_value(pid);
    assert(pid_value(pid) == numeral_value(pid) as i32);
}

// ---------------------------------------------------------------------
// Lines.
// ---------------------------------------------------------------------

proof fn lemma_line_len_whole(t: Seq<char>)
    requires
        !has_newline(t),
    ensures
        line_len(t) == t.len(),
    decreases t.len(),
{
    if t.len() > 0 {
        assert(t[0] != '\n');
        assert forall|k: int| 0 <= k < t.drop_first().len() implies t.drop_first()[k] != '\n' by {
            assert(t.drop_first()[k] == t[k + 1]);
        }
        lemma_line_len_whole(t.drop_first());
    }
}

proof fn lemma_lines_one(t: Seq<char>)
    requires
        t.len() > 0,
        !has_newline(t),
    ensures
        lines_of(t) == seq![t],
        t.last() != '\r' ==> lines_of(t + seq!['\n']) == seq![t],
{
    lemma_line_len_whole(t);
    let u = t + seq!['\n'];
    assert(u.drop_first() =~= t.drop_first() + seq!['\n']);
    lemma_line_len_with_end(t);
    assert(u.take(t.len() as int) =~= t);
    assert(u.skip(t.len() as int + 1) =~= Seq::<char>::empty());
    if t.last() != '\r' {
        assert(strip_cr(t) == t);
        assert(lines_of(Seq::<char>::empty()) == Seq::<Seq<char>>::empty());
        assert(seq![t] + Seq::<Seq<char>>::empty() =~= seq![t]);
    }
}

proof fn lemma_line_len_with_end(t: Seq<char>)
    requires
        !has_newline(t),
    ensures
        line_len(t + seq!['\n']) == t.len(),
    decreases t.len(),
{
    if t.len() == 0 {
        assert(t + seq!['\n'] =~= seq!['\n']);
    } else {
        assert(t[0] != '\n');
        assert((t + seq!['\n'])[0] == t[0]);
        assert((t + seq!['\n']).drop_first() =~= t.drop_first() + seq!['\n']);
        assert forall|k: int| 0 <= k < t.drop_first().len() implies t.drop_first()[k] != '\n' by {
            assert(t.drop_first()[k] == t[k + 1]);
        }
        lemma_line_len_with_end(t.drop_first());
    }
}

// ---------------------------------------------------------------------
// The law.
// ---------------------------------------------------------------------

/// A `duration:` line in the default log format, `<timestamp> <zone>
/// [<pid>] LOG:  duration: <d> ms  statement: <q>`, with or without its
/// final line break, is one log message naming the pid written in its
/// brackets, and parses to one entry with that pid, the duration text `d`
/// exactly as written and the query `q`. This holds for every time zone
/// token (any run of characters other than whitespace), every pid that
/// fits in an `i32`, every duration of digits with or without one `.`,
/// whatever its length, and every one-line query.
pub proof fn law_duration_line_parses(
    ts: Seq<char>,
    tz: Seq<char>,
    pid: Seq<char>,
    i: Seq<char>,
    f: Seq<char>,
    frac: bool,
    q: Seq<char>,
)
    requires
        log_timestamp(ts),
        zone_token(tz),
        pid.len() > 0,
        digit_text(pid),
        numeral_value(pid) <= i32::MAX,
        digit_text(i),
        digit_text(f),
        if frac {
            i.len() + f.len() > 0
        } else {
            i.len() > 0
        },
        forall|k: int| 0 <= k < q.len() ==> #[trigger] q[k] != '\n',
    ensures
        ({
            let d = duration_text(i, f, frac);
            let m = duration_message(d, q);
            let l = log_line(ts, tz, pid, m);
            let v = numeral_value(pid) as i32;
            &&& records_spec(l) == seq![(v, m)]
            &&& parse_spec(l) == seq![(v, d, q)]
            &&& (q.len() == 0 || q.last() != '\r') ==> records_spec(l + seq!['\n']) == seq![(v, m)]
            &&& (q.len() == 0 || q.last() != '\r') ==> parse_spec(l + seq!['\n']) == seq![(v, d, q)]
        }),
{
    let d = duration_text(i, f, frac);
    let m = duration_message(d, q);
    let l = log_line(ts, tz, pid, m);
    let v = numeral_value(pid) as i32;
    lemma_duration_text(i, f, frac);
    lemma_duration_message(d, q);
    lemma_log_line_prefix(ts, tz, pid, m);
    lemma_log_line_one_line(ts, tz, pid, m);
    lemma_lines_one(l);
    lemma_one_message(l, l, v, m);
    lemma_one_entry(l, v, m, d, q);
    if q.len() == 0 || q.last() != '\r' {
        if q.len() == 0 {
            assert(l.last() == ' ');
        } else {
            assert(l.last() == q.last());
        }
        lemma_one_message(l + seq!['\n'], l, v, m);
        lemma_one_entry(l + seq!['\n'], v, m, d, q);
    }
}

proof fn lemma_log_line_one_line(ts: Seq<char>, tz: Seq<char>, pid: Seq<char>, m: Seq<char>)
    requires
        log_timestamp(ts),
        zone_token(tz),
        digit_text(pid),
        !has_newline(m),
    ensures
        !has_newline(log_line(ts, tz, pid, m)),
        log_line(ts, tz, pid, m).len() > 0,
{
    let l = log_line(ts, tz, pid, m);
    let start: int = ts.len() as int + tz.len() as int + pid.len() as int + 5;
    assert(l.skip(start) =~= m);
    assert forall|k: int| 0 <= k < l.len() implies l[k] != '\n' by {
        if k >= start {
            assert(l[k] == m[k - start]);
        } else if k < ts.len() {
            assert(l[k] == ts[k]);
            if k > 19 {
                assert(ts[k] == ts.skip(20)[k - 20]);
            }
        } else if ts.len() < k < ts.len() + 1 + tz.len() {
            assert(l[k] == tz[k - ts.len() - 1]);
            assert(!is_ws(tz[k - ts.len() - 1]));
        } else if ts.len() + tz.len() + 3 <= k < ts.len() + tz.len() + 3 + pid.len() {
            assert(l[k] == pid[k - ts.len() - tz.len() - 3]);
        }
    }
}

proof fn lemma_one_message(x: Seq<char>, l: Seq<char>, v: i32, m: Seq<char>)
    requires
        lines_of(x) == seq![l],
        prefix_match(l) matches Some((pv, start)) && pv == v && l.skip(start) == m,
    ensures
        records_spec(x) == seq![(v, m)],
{
    let e = Seq::<(i32, Seq<char>)>::empty();
    assert(seq![l].drop_first() =~= Seq::<Seq<char>>::empty());
    assert(crate::parser::add_line(e, l) =~= seq![(v, m)]);
    let r1 = crate::parser::add_line(e, l);
    assert(crate::parser::records_from(r1, Seq::<Seq<char>>::empty()) == r1);
    assert(seq![l][0] == l);
    assert(crate::parser::records_from(e, seq![l]) == crate::parser::records_from(r1, seq![l].drop_first()));
}

proof fn lemma_one_entry(x: Seq<char>, v: i32, m: Seq<char>, d: Seq<char>, q: Seq<char>)
    requires
        records_spec(x) == seq![(v, m)],
        duration_match(m) matches Some((b, c, qs)) && m.subrange(b, c) == d && m.skip(qs) == q,
        is_decimal_text(d),
    ensures
        parse_spec(x) == seq![(v, d, q)],
{
    let rec = (v, m);
    assert(entry_of(rec) == Some((v, d, q)));
    assert(seq![rec].drop_last() =~= Seq::<(i32, Seq<char>)>::empty());
    assert(entries_of(Seq::<(i32, Seq<char>)>::empty()) == Seq::<(i32, Seq<char>, Seq<char>)>::empty());
    assert(parse_spec(x) =~= seq![(v, d, q)]);
}

} // verus!
