//! Parsing a Postgres log written with the default `log_line_prefix`
//! (`'%m [%p] '`) and `log_min_duration_statement` enabled into the
//! `duration: ... statement: ...` entries it contains.
//!
//! Every log message starts with a prefixed line (`%m` timestamp, then
//! `[pid]`), but its body can span several physical lines: a multi-line SQL
//! statement is logged with its line breaks intact, and those continuation
//! lines carry no prefix. Physical lines are first re-assembled into
//! messages, and only then is a message matched as a `duration:` entry.

use vstd::prelude::*;

use crate::text::{
    chars_of, copy_range, digit, digit_run, digit_run_at, is_digit, is_ws,
    lemma_skip_step, string_of, string_of_range, ws, ws_run, ws_run_at,
};

verus! {

// ---------------------------------------------------------------------
// Physical lines (`str::lines`).
// ---------------------------------------------------------------------

/// The number of characters before the first `\n` of `t` (all of `t` when
/// it has none).
pub open spec fn line_len(t: Seq<char>) -> int
    decreases t.len(),
{
    if t.len() == 0 || t[0] == '\n' {
        0
    } else {
        1 + line_len(t.drop_first())
    }
}

pub proof fn lemma_line_len_bounds(t: Seq<char>)
    ensures
        0 <= line_len(t) <= t.len(),
        line_len(t) < t.len() ==> t[line_len(t)] == '\n',
        forall|k: int| 0 <= k < line_len(t) ==> #[trigger] t[k] != '\n',
    decreases t.len(),
{
    if !(t.len() == 0 || t[0] == '\n') {
        lemma_line_len_bounds(t.drop_first());
        assert forall|k: int| 0 <= k < line_len(t) implies #[trigger] t[k] != '\n' by {
            if k > 0 {
                assert(t[k] == t.drop_first()[k - 1]);
            }
        }
    }
}

/// A line that ended in `\r\n` loses its `\r`.
pub open spec fn strip_cr(l: Seq<char>) -> Seq<char> {
    if l.len() > 0 && l.last() == '\r' {
        l.drop_last()
    } else {
        l
    }
}

/// The lines of `t` as `str::lines` yields them: split at `\n`, a `\r`
/// just before a `\n` dropped, and no empty last line after a final `\n`.
pub open spec fn lines_of(t: Seq<char>) -> Seq<Seq<char>>
    decreases t.len(),
{
    if t.len() == 0 {
        seq![]
    } else {
        let n = line_len(t);
        proof {
            lemma_line_len_bounds(t);
        }
        if n < t.len() {
            seq![strip_cr(t.take(n))] + lines_of(t.skip(n + 1))
        } else {
            seq![t]
        }
    }
}

// ---------------------------------------------------------------------
// The line prefix:
// `^\d{4}-\d{2}-\d{2} \d{2}:\d{2}:\d{2}(?:\.\d+)? \S+ \[(\d+)\] (.*)$`
// ---------------------------------------------------------------------

/// `\d{4}-\d{2}-\d{2} \d{2}:\d{2}:\d{2}` at the start of `l`.
pub open spec fn timestamp_ok(l: Seq<char>) -> bool {
    &&& l.len() >= 20
    &&& is_digit(l[0]) && is_digit(l[1]) && is_digit(l[2]) && is_digit(l[3])
    &&& l[4] == '-' && is_digit(l[5]) && is_digit(l[6])
    &&& l[7] == '-' && is_digit(l[8]) && is_digit(l[9])
    &&& l[10] == ' ' && is_digit(l[11]) && is_digit(l[12])
    &&& l[13] == ':' && is_digit(l[14]) && is_digit(l[15])
    &&& l[16] == ':' && is_digit(l[17]) && is_digit(l[18])
}

/// Where the optional fractional seconds `(?:\.\d+)?` end, or -1 when a
/// `.` is not followed by a digit.
pub open spec fn seconds_end(l: Seq<char>) -> int {
    if l[19] == '.' {
        let r = digit_run(l.skip(20));
        if r > 0 {
            20 + r
        } else {
            -1
        }
    } else {
        19
    }
}

/// Length of the run of non-whitespace (`\S`) characters `s` starts with.
pub open spec fn nonws_run(s: Seq<char>) -> int
    decreases s.len(),
{
    if s.len() > 0 && !is_ws(s[0]) {
        1 + nonws_run(s.drop_first())
    } else {
        0
    }
}

pub proof fn lemma_nonws_run_bounds(s: Seq<char>)
    ensures
        0 <= nonws_run(s) <= s.len(),
        nonws_run(s) < s.len() ==> is_ws(s[nonws_run(s)]),
    decreases s.len(),
{
    if s.len() > 0 && !is_ws(s[0]) {
        lemma_nonws_run_bounds(s.drop_first());
    }
}

pub open spec fn has_newline(s: Seq<char>) -> bool {
    exists|k: int| 0 <= k < s.len() && s[k] == '\n'
}

/// The value of a string of ASCII digits.
pub open spec fn decimal_value(ds: Seq<char>) -> int
    decreases ds.len(),
{
    if ds.len() == 0 {
        0
    } else {
        decimal_value(ds.drop_last()) * 10 + (ds.last() as int - '0' as int)
    }
}

pub open spec fn all_ascii_digits(ds: Seq<char>) -> bool {
    forall|k: int| 0 <= k < ds.len() ==> '0' <= #[trigger] ds[k] && ds[k] <= '9'
}

/// `ds.parse::<i32>().unwrap_or(0)` for a nonempty run of `\d` characters:
/// its value when it is all ASCII digits and fits in an `i32`, else 0.
pub open spec fn pid_value(ds: Seq<char>) -> i32 {
    if all_ascii_digits(ds) && decimal_value(ds) <= i32::MAX {
        decimal_value(ds) as i32
    } else {
        0
    }
}

/// When `l` starts with a log-line prefix: the pid it names and the
/// position where the message after the prefix starts.
pub open spec fn prefix_match(l: Seq<char>) -> Option<(i32, int)> {
    if !timestamp_ok(l) {
        None
    } else {
        let p = seconds_end(l);
        if !(0 <= p < l.len() && l[p] == ' ') {
            None
        } else {
            let q = p + 1 + nonws_run(l.skip(p + 1));
            if !(q > p + 1 && q < l.len() - 1 && l[q] == ' ' && l[q + 1] == '[') {
                None
            } else {
                let d = q + 2 + digit_run(l.skip(q + 2));
                if !(d > q + 2 && d < l.len() - 1 && l[d] == ']' && l[d + 1] == ' ') {
                    None
                } else if has_newline(l.skip(d + 2)) {
                    None
                } else {
                    Some((pid_value(l.subrange(q + 2, d)), d + 2))
                }
            }
        }
    }
}

fn nonws_run_at(s: &Vec<char>, i: usize) -> (n: usize)
    requires
        i <= s.len(),
    ensures
        n == nonws_run(s@.skip(i as int)),
        i + n <= s.len(),
{
    let mut j = i;
    while j < s.len() && !ws(s[j])
        invariant
            i <= j <= s.len(),
            nonws_run(s@.skip(i as int)) == (j - i) + nonws_run(s@.skip(j as int)),
        decreases s.len() - j,
    {
        proof {
            lemma_skip_step(s@, j as int);
        }
        j += 1;
    }
    if j < s.len() {
        proof {
            lemma_skip_step(s@, j as int);
        }
    }
    j - i
}

fn has_newline_from(s: &Vec<char>, i: usize) -> (r: bool)
    requires
        i <= s.len(),
    ensures
        r == has_newline(s@.skip(i as int)),
{
    let mut j = i;
    while j < s.len()
        invariant
            i <= j <= s.len(),
            forall|k: int| i <= k < j ==> s@[k] != '\n',
        decreases s.len() - j,
    {
        if s[j] == '\n' {
            assert(s@.skip(i as int)[j - i] == '\n');
            return true;
        }
        j += 1;
    }
    assert forall|k: int| 0 <= k < s@.skip(i as int).len() implies s@.skip(i as int)[k] != '\n' by {
        assert(s@.skip(i as int)[k] == s@[i + k]);
    }
    false
}

proof fn lemma_decimal_value_step(ds: Seq<char>, k: int)
    requires
        0 <= k < ds.len(),
    ensures
        decimal_value(ds.take(k + 1)) == decimal_value(ds.take(k)) * 10 + (ds[k] as int - '0' as int),
{
    assert(ds.take(k + 1).drop_last() =~= ds.take(k));
}

proof fn lemma_decimal_value_grows(ds: Seq<char>, k: int)
    requires
        0 <= k <= ds.len(),
        all_ascii_digits(ds),
    ensures
        decimal_value(ds) >= decimal_value(ds.take(k)),
    decreases ds.len() - k,
{
    if k < ds.len() {
        lemma_decimal_value_step(ds, k);
        assert(decimal_value(ds.take(k)) >= 0) by {
            lemma_decimal_value_nonneg(ds.take(k));
        }
        lemma_decimal_value_grows(ds, k + 1);
    } else {
        assert(ds.take(k) =~= ds);
    }
}

proof fn lemma_decimal_value_nonneg(ds: Seq<char>)
    requires
        all_ascii_digits(ds),
    ensures
        decimal_value(ds) >= 0,
    decreases ds.len(),
{
    if ds.len() > 0 {
        assert(all_ascii_digits(ds.drop_last())) by {
            assert forall|k: int| 0 <= k < ds.drop_last().len() implies '0' <= #[trigger] ds.drop_last()[k]
                && ds.drop_last()[k] <= '9' by {
                assert(ds.drop_last()[k] == ds[k]);
            }
        }
        lemma_decimal_value_nonneg(ds.drop_last());
        assert('0' <= ds[ds.len() - 1]);
    }
}

/// `pid_value(s[lo..hi])`.
fn pid_at(s: &Vec<char>, lo: usize, hi: usize) -> (r: i32)
    requires
        lo <= hi <= s.len(),
    ensures
        r == pid_value(s@.subrange(lo as int, hi as int)),
{
    let ghost ds = s@.subrange(lo as int, hi as int);
    let mut acc: u64 = 0;
    let mut k = lo;
    assert(ds.take(0) =~= seq![]);
    while k < hi
        invariant
            lo <= k <= hi <= s.len(),
            ds == s@.subrange(lo as int, hi as int),
            all_ascii_digits(ds.take(k - lo)),
            acc == decimal_value(ds.take(k - lo)),
            acc <= i32::MAX,
        decreases hi - k,
    {
        let c = s[k];
        if !('0' <= c && c <= '9') {
            assert(!all_ascii_digits(ds)) by {
                assert(ds[k - lo] == c);
            }
            return 0;
        }
        proof {
            lemma_decimal_value_step(ds, k - lo);
            assert(all_ascii_digits(ds.take(k - lo + 1))) by {
                assert forall|j: int| 0 <= j < ds.take(k - lo + 1).len() implies '0'
                    <= #[trigger] ds.take(k - lo + 1)[j] && ds.take(k - lo + 1)[j] <= '9' by {
                    if j < k - lo {
                        assert(ds.take(k - lo + 1)[j] == ds.take(k - lo)[j]);
                    } else {
                        assert(ds[k - lo] == c);
                    }
                }
            }
        }
        let d = ((c as u32) - ('0' as u32)) as u64;
        acc = acc * 10 + d;
        k += 1;
        if acc > 0x7fff_ffff {
            proof {
                if all_ascii_digits(ds) {
                    lemma_decimal_value_grows(ds, k - lo);
                }
            }
            return 0;
        }
    }
    assert(ds.take(k - lo) =~= ds);
    acc as i32
}

/// `prefix_match(l@)`, with the message start as a `usize`.
fn prefix_match_exec(l: &Vec<char>) -> (r: Option<(i32, usize)>)
    ensures
        r matches Some((pid, start)) ==> prefix_match(l@) == Some((pid, start as int)),
        r is None ==> prefix_match(l@) is None,
{
    if !(l.len() >= 20 && digit(l[0]) && digit(l[1]) && digit(l[2]) && digit(l[3]) && l[4] == '-'
        && digit(l[5]) && digit(l[6]) && l[7] == '-' && digit(l[8]) && digit(l[9]) && l[10] == ' '
        && digit(l[11]) && digit(l[12]) && l[13] == ':' && digit(l[14]) && digit(l[15]) && l[16]
        == ':' && digit(l[17]) && digit(l[18])) {
        return None;
    }
    let p: usize;
    if l[19] == '.' {
        let r = digit_run_at(l, 20);
        if r == 0 {
            return None;
        }
        p = 20 + r;
    } else {
        p = 19;
    }
    assert(p == seconds_end(l@));
    if !(p < l.len() && l[p] == ' ') {
        return None;
    }
    let q = p + 1 + nonws_run_at(l, p + 1);
    if !(q > p + 1 && q < l.len() - 1 && l[q] == ' ' && l[q + 1] == '[') {
        return None;
    }
    let d = q + 2 + digit_run_at(l, q + 2);
    if !(d > q + 2 && d < l.len() - 1 && l[d] == ']' && l[d + 1] == ' ') {
        return None;
    }
    if has_newline_from(l, d + 2) {
        return None;
    }
    let pid = pid_at(l, q + 2, d);
    Some((pid, d + 2))
}


// ---------------------------------------------------------------------
// Log messages: a prefixed line and the continuation lines after it.
// ---------------------------------------------------------------------

/// One assembled log message: everything from one prefixed line up to (not
/// including) the next one.
pub struct RawRecord {
    pub pid: i32,
    /// The message body, with a `\n` before each continuation line.
    pub message: String,
}

impl View for RawRecord {
    type V = (i32, Seq<char>);

    open spec fn view(&self) -> (i32, Seq<char>) {
        (self.pid, self.message@)
    }
}

/// The records after one more line: a prefixed line starts a record; any
/// other line is appended, after a `\n`, to the record being assembled, or
/// dropped when no record has started yet.
pub open spec fn add_line(recs: Seq<(i32, Seq<char>)>, line: Seq<char>) -> Seq<(i32, Seq<char>)> {
    match prefix_match(line) {
        Some((pid, start)) => recs.push((pid, line.skip(start))),
        None => if recs.len() > 0 {
            recs.update(recs.len() - 1, (recs.last().0, recs.last().1 + seq!['\n'] + line))
        } else {
            recs
        },
    }
}

pub open spec fn records_from(recs: Seq<(i32, Seq<char>)>, lines: Seq<Seq<char>>) -> Seq<
    (i32, Seq<char>),
>
    decreases lines.len(),
{
    if lines.len() == 0 {
        recs
    } else {
        records_from(add_line(recs, lines[0]), lines.drop_first())
    }
}

/// The log messages of a log text, in order.
pub open spec fn records_spec(t: Seq<char>) -> Seq<(i32, Seq<char>)> {
    records_from(seq![], lines_of(t))
}

fn line_len_at(t: &Vec<char>, i: usize) -> (n: usize)
    requires
        i <= t.len(),
    ensures
        n == line_len(t@.skip(i as int)),
        i + n <= t.len(),
{
    let mut j = i;
    while j < t.len() && t[j] != '\n'
        invariant
            i <= j <= t.len(),
            line_len(t@.skip(i as int)) == (j - i) + line_len(t@.skip(j as int)),
        decreases t.len() - j,
    {
        proof {
            lemma_skip_step(t@, j as int);
        }
        j += 1;
    }
    if j < t.len() {
        proof {
            lemma_skip_step(t@, j as int);
        }
    }
    j - i
}

/// The record still being assembled, as a spec value.
pub open spec fn open_view(open: Option<(i32, Vec<char>)>) -> Option<(i32, Seq<char>)> {
    match open {
        Some((pid, msg)) => Some((pid, msg@)),
        None => None,
    }
}

/// The records assembled so far: the finished ones, then the open one.
pub open spec fn pending(done: Seq<RawRecord>, open: Option<(i32, Seq<char>)>) -> Seq<
    (i32, Seq<char>),
> {
    let d = done.map_values(|r: RawRecord| r@);
    match open {
        Some(r) => d.push(r),
        None => d,
    }
}

/// The next line of `t` from `pos`, and where the line after it starts.
fn next_line(t: &Vec<char>, pos: usize) -> (r: (Vec<char>, usize))
    requires
        pos < t.len(),
    ensures
        pos < r.1 <= t.len(),
        lines_of(t@.skip(pos as int)) == seq![r.0@] + lines_of(t@.skip(r.1 as int)),
{
    let ghost rest = t@.skip(pos as int);
    let n = line_len_at(t, pos);
    proof {
        lemma_line_len_bounds(rest);
    }
    let end = pos + n;
    let line_end = if end < t.len() && end > pos && t[end - 1] == '\r' {
        end - 1
    } else {
        end
    };
    let line = copy_range(t, pos, line_end);
    if end < t.len() {
        proof {
            assert(rest.take(n as int) =~= t@.subrange(pos as int, end as int));
            assert(rest.skip(n + 1) =~= t@.skip(end + 1));
            assert(strip_cr(rest.take(n as int)) =~= line@);
        }
        (line, end + 1)
    } else {
        proof {
            assert(rest =~= line@);
            assert(lines_of(t@.skip(t.len() as int)) =~= seq![]);
        }
        (line, t.len())
    }
}

/// `add_line` on the records assembled so far.
#[verifier::spinoff_prover]
fn add_line_exec(records: Vec<RawRecord>, open: Option<(i32, Vec<char>)>, line: &Vec<char>) -> (r: (
    Vec<RawRecord>,
    Option<(i32, Vec<char>)>,
))
    requires
        open is None ==> records@.len() == 0,
    ensures
        r.1 is None ==> r.0@.len() == 0,
        pending(r.0@, open_view(r.1)) == add_line(pending(records@, open_view(open)), line@),
{
    let mut records = records;
    let ghost old_records = records@;
    match prefix_match_exec(line) {
        Some((pid, start)) => {
            match open {
                Some((open_pid, open_msg)) => {
                    let msg = string_of(&open_msg);
                    records.push(RawRecord { pid: open_pid, message: msg });
                    assert(records@.map_values(|r: RawRecord| r@) =~= old_records.map_values(
                        |r: RawRecord| r@,
                    ).push((open_pid, open_msg@)));
                },
                None => {
                    assert(old_records.map_values(|r: RawRecord| r@) =~= seq![]);
                },
            }
            let msg = copy_range(line, start, line.len());
            assert(line@.skip(start as int) =~= msg@);
            (records, Some((pid, msg)))
        },
        None => {
            match open {
                Some((open_pid, open_msg)) => {
                    let mut msg = open_msg;
                    let ghost base = msg@;
                    msg.push('\n');
                    let mut k: usize = 0;
                    while k < line.len()
                        invariant
                            k <= line.len(),
                            msg@ == base + seq!['\n'] + line@.take(k as int),
                        decreases line.len() - k,
                    {
                        msg.push(line[k]);
                        k += 1;
                        assert(msg@ =~= base + seq!['\n'] + line@.take(k as int));
                    }
                    assert(line@.take(line.len() as int) =~= line@);
                    let ghost d = records@.map_values(|r: RawRecord| r@);
                    assert(d.push((open_pid, base)).update(d.len() as int, (open_pid, msg@))
                        =~= d.push((open_pid, msg@)));
                    (records, Some((open_pid, msg)))
                },
                None => {
                    assert(records@.map_values(|r: RawRecord| r@) =~= seq![]);
                    (records, None)
                },
            }
        },
    }
}

/// Split a log text into its messages.
#[verifier::spinoff_prover]
pub fn split_records(text: &str) -> (r: Vec<RawRecord>)
    ensures
        r@.map_values(|x: RawRecord| x@) == records_spec(text@),
{
    let t = chars_of(text);
    let mut records: Vec<RawRecord> = Vec::new();
    let mut open: Option<(i32, Vec<char>)> = None;
    let mut pos: usize = 0;
    assert(t@.skip(0) =~= t@);
    assert(pending(records@, None) =~= seq![]);
    while pos < t.len()
        invariant
            pos <= t.len(),
            open is None ==> records@.len() == 0,
            records_from(pending(records@, open_view(open)), lines_of(t@.skip(pos as int)))
                == records_spec(text@),
            t@ == text@,
        decreases t.len() - pos,
    {
        let (line, next) = next_line(&t, pos);
        let ghost lines = lines_of(t@.skip(pos as int));
        assert(lines[0] == line@);
        assert(lines.drop_first() =~= lines_of(t@.skip(next as int)));
        let (r, o) = add_line_exec(records, open, &line);
        records = r;
        open = o;
        pos = next;
    }
    let ghost before = pending(records@, open_view(open));
    match open {
        Some((pid, msg)) => {
            let m = string_of(&msg);
            records.push(RawRecord { pid, message: m });
        },
        None => {},
    }
    assert(lines_of(t@.skip(pos as int)) =~= seq![]);
    assert(records@.map_values(|x: RawRecord| x@) =~= before);
    records
}


// ---------------------------------------------------------------------
// Duration entries:
// `(?s)^LOG:\s+duration:\s+([0-9.]+)\s+ms\s+(?:statement|execute [^:]*):\s?(.*)$`
// ---------------------------------------------------------------------

/// `w` occurs in `m` at position `i`.
pub open spec fn has_at(m: Seq<char>, i: int, w: Seq<char>) -> bool {
    0 <= i && i + w.len() <= m.len() && m.subrange(i, i + w.len()) == w
}

pub open spec fn is_num_char(c: char) -> bool {
    ('0' <= c && c <= '9') || c == '.'
}

/// Length of the run of `[0-9.]` characters `s` starts with.
pub open spec fn num_run(s: Seq<char>) -> int
    decreases s.len(),
{
    if s.len() > 0 && is_num_char(s[0]) {
        1 + num_run(s.drop_first())
    } else {
        0
    }
}

/// Length of the run of `[^:]` characters `s` starts with.
pub open spec fn noncolon_run(s: Seq<char>) -> int
    decreases s.len(),
{
    if s.len() > 0 && s[0] != ':' {
        1 + noncolon_run(s.drop_first())
    } else {
        0
    }
}

pub proof fn lemma_num_run_bounds(s: Seq<char>)
    ensures
        0 <= num_run(s) <= s.len(),
        forall|k: int| 0 <= k < num_run(s) ==> is_num_char(#[trigger] s[k]),
    decreases s.len(),
{
    if s.len() > 0 && is_num_char(s[0]) {
        lemma_num_run_bounds(s.drop_first());
        assert forall|k: int| 0 <= k < num_run(s) implies is_num_char(#[trigger] s[k]) by {
            if k > 0 {
                assert(s[k] == s.drop_first()[k - 1]);
            }
        }
    }
}

pub proof fn lemma_noncolon_run_bounds(s: Seq<char>)
    ensures
        0 <= noncolon_run(s) <= s.len(),
        noncolon_run(s) < s.len() ==> s[noncolon_run(s)] == ':',
    decreases s.len(),
{
    if s.len() > 0 && s[0] != ':' {
        lemma_noncolon_run_bounds(s.drop_first());
    }
}

pub open spec fn word_log() -> Seq<char> {
    seq!['L', 'O', 'G', ':']
}

pub open spec fn word_duration() -> Seq<char> {
    seq!['d', 'u', 'r', 'a', 't', 'i', 'o', 'n', ':']
}

pub open spec fn word_ms() -> Seq<char> {
    seq!['m', 's']
}

pub open spec fn word_statement() -> Seq<char> {
    seq!['s', 't', 'a', 't', 'e', 'm', 'e', 'n', 't']
}

pub open spec fn word_execute() -> Seq<char> {
    seq!['e', 'x', 'e', 'c', 'u', 't', 'e', ' ']
}

/// The position of the `:` that ends `statement` or `execute <name>`
/// at position `f` of `m`, or -1.
pub open spec fn verb_colon(m: Seq<char>, f: int) -> int {
    if has_at(m, f, word_statement()) && f + 9 < m.len() && m[f + 9] == ':' {
        f + 9
    } else if has_at(m, f, word_execute()) {
        let x = f + 8 + noncolon_run(m.skip(f + 8));
        if x < m.len() {
            x
        } else {
            -1
        }
    } else {
        -1
    }
}

/// When the message `m` is a `duration:` entry: where the duration text
/// starts and ends, and where the query text starts.
pub open spec fn duration_match(m: Seq<char>) -> Option<(int, int, int)> {
    if !has_at(m, 0, word_log()) {
        None
    } else {
        let a = 4 + ws_run(m.skip(4));
        if !(a > 4 && has_at(m, a, word_duration())) {
            None
        } else {
            let b = a + 9 + ws_run(m.skip(a + 9));
            let c = b + num_run(m.skip(b));
            let e = c + ws_run(m.skip(c));
            if !(b > a + 9 && c > b && e > c && has_at(m, e, word_ms())) {
                None
            } else {
                let f = e + 2 + ws_run(m.skip(e + 2));
                let colon = verb_colon(m, f);
                if !(f > e + 2 && colon >= 0) {
                    None
                } else {
                    let k = colon + 1;
                    let qs = if k < m.len() && is_ws(m[k]) {
                        k + 1
                    } else {
                        k
                    };
                    Some((b, c, qs))
                }
            }
        }
    }
}

pub open spec fn count_dots(s: Seq<char>) -> int
    decreases s.len(),
{
    if s.len() == 0 {
        0
    } else {
        count_dots(s.drop_first()) + if s[0] == '.' {
            1int
        } else {
            0int
        }
    }
}

/// A run of `[0-9.]` that `f64::from_str` accepts: at most one `.` and at
/// least one digit (`Digit+ | Digit+ '.' Digit* | Digit* '.' Digit+`).
pub open spec fn is_decimal_text(s: Seq<char>) -> bool {
    count_dots(s) <= 1 && exists|k: int| 0 <= k < s.len() && '0' <= #[trigger] s[k] && s[k] <= '9'
}

fn has_at_exec(m: &Vec<char>, i: usize, w: &[char]) -> (r: bool)
    ensures
        r == has_at(m@, i as int, w@),
{
    if i > m.len() || w.len() > m.len() - i {
        return false;
    }
    let mut k: usize = 0;
    while k < w.len()
        invariant
            i + w@.len() <= m@.len(),
            i + w.len() <= m.len(),
            w.len() == w@.len(),
            k <= w.len(),
            forall|j: int| 0 <= j < k ==> m@[i + j] == w@[j],
        decreases w.len() - k,
    {
        if m[i + k] != w[k] {
            assert(m@.subrange(i as int, i + w@.len())[k as int] != w@[k as int]);
            return false;
        }
        k += 1;
    }
    assert(m@.subrange(i as int, i + w@.len()) =~= w@);
    true
}

fn num_run_at(s: &Vec<char>, i: usize) -> (n: usize)
    requires
        i <= s.len(),
    ensures
        n == num_run(s@.skip(i as int)),
        i + n <= s.len(),
{
    let mut j = i;
    while j < s.len() && (('0' <= s[j] && s[j] <= '9') || s[j] == '.')
        invariant
            i <= j <= s.len(),
            num_run(s@.skip(i as int)) == (j - i) + num_run(s@.skip(j as int)),
        decreases s.len() - j,
    {
        proof {
            lemma_skip_step(s@, j as int);
        }
        j += 1;
    }
    if j < s.len() {
        proof {
            lemma_skip_step(s@, j as int);
        }
    }
    j - i
}

fn noncolon_run_at(s: &Vec<char>, i: usize) -> (n: usize)
    requires
        i <= s.len(),
    ensures
        n == noncolon_run(s@.skip(i as int)),
        i + n <= s.len(),
{
    let mut j = i;
    while j < s.len() && s[j] != ':'
        invariant
            i <= j <= s.len(),
            noncolon_run(s@.skip(i as int)) == (j - i) + noncolon_run(s@.skip(j as int)),
        decreases s.len() - j,
    {
        proof {
            lemma_skip_step(s@, j as int);
        }
        j += 1;
    }
    if j < s.len() {
        proof {
            lemma_skip_step(s@, j as int);
        }
    }
    j - i
}

fn verb_colon_exec(m: &Vec<char>, f: usize) -> (r: Option<usize>)
    requires
        f <= m.len(),
    ensures
        r matches Some(x) ==> verb_colon(m@, f as int) == x,
        r is None ==> verb_colon(m@, f as int) == -1,
{
    let statement = ['s', 't', 'a', 't', 'e', 'm', 'e', 'n', 't'];
    let execute = ['e', 'x', 'e', 'c', 'u', 't', 'e', ' '];
    assert(statement@ =~= word_statement());
    assert(execute@ =~= word_execute());
    if has_at_exec(m, f, &statement) && f + 9 < m.len() && m[f + 9] == ':' {
        return Some(f + 9);
    }
    if has_at_exec(m, f, &execute) {
        let x = f + 8 + noncolon_run_at(m, f + 8);
        if x < m.len() {
            return Some(x);
        }
    }
    None
}

fn duration_match_exec(m: &Vec<char>) -> (r: Option<(usize, usize, usize)>)
    ensures
        r matches Some((b, c, qs)) ==> duration_match(m@) == Some((b as int, c as int, qs as int)),
        r is None ==> duration_match(m@) is None,
{
    let log = ['L', 'O', 'G', ':'];
    let duration = ['d', 'u', 'r', 'a', 't', 'i', 'o', 'n', ':'];
    let ms = ['m', 's'];
    assert(log@ =~= word_log());
    assert(duration@ =~= word_duration());
    assert(ms@ =~= word_ms());
    if !has_at_exec(m, 0, &log) {
        return None;
    }
    let a = 4 + ws_run_at(m, 4);
    if !(a > 4 && has_at_exec(m, a, &duration)) {
        return None;
    }
    let b = a + 9 + ws_run_at(m, a + 9);
    let c = b + num_run_at(m, b);
    let e = c + ws_run_at(m, c);
    if !(b > a + 9 && c > b && e > c && has_at_exec(m, e, &ms)) {
        return None;
    }
    let f = e + 2 + ws_run_at(m, e + 2);
    if f == e + 2 {
        return None;
    }
    match verb_colon_exec(m, f) {
        Some(colon) => {
            let k = colon + 1;
            let qs = if k < m.len() && ws(m[k]) {
                k + 1
            } else {
                k
            };
            Some((b, c, qs))
        },
        None => None,
    }
}

fn is_decimal_text_exec(m: &Vec<char>, lo: usize, hi: usize) -> (r: bool)
    requires
        lo <= hi <= m.len(),
    ensures
        r == is_decimal_text(m@.subrange(lo as int, hi as int)),
{
    let ghost s = m@.subrange(lo as int, hi as int);
    let mut dots: usize = 0;
    let mut digits = false;
    let mut k = hi;
    // scan right to left so that `count_dots` unfolds from the front
    while k > lo
        invariant
            lo <= k <= hi <= m.len(),
            s == m@.subrange(lo as int, hi as int),
            dots == count_dots(s.skip(k - lo)),
            dots <= hi - k,
            digits == exists|j: int| k - lo <= j < s.len() && '0' <= #[trigger] s[j] && s[j] <= '9',
        decreases k - lo,
    {
        k -= 1;
        let c = m[k];
        assert(s.skip(k - lo).drop_first() =~= s.skip(k - lo + 1));
        assert(s.skip(k - lo)[0] == c);
        if c == '.' {
            dots += 1;
        }
        if '0' <= c && c <= '9' {
            digits = true;
            assert(s[k - lo] == c);
        }
    }
    assert(s.skip(0) =~= s);
    dots <= 1 && digits
}

// ---------------------------------------------------------------------
// Entries.
// ---------------------------------------------------------------------

/// One `duration:` log entry.
pub struct LogEntry {
    pub pid: i32,
    /// The logged duration in milliseconds, as the log wrote it: a run of
    /// digits with at most one `.`, which `f64::from_str` accepts.
    pub duration_ms: String,
    /// The raw query text exactly as logged; it may still hold the line
    /// breaks of a multi-line statement.
    pub query: String,
}

impl View for LogEntry {
    type V = (i32, Seq<char>, Seq<char>);

    open spec fn view(&self) -> (i32, Seq<char>, Seq<char>) {
        (self.pid, self.duration_ms@, self.query@)
    }
}

/// The entry that a message makes, if it is a `duration:` entry whose
/// duration parses as a number.
pub open spec fn entry_of(rec: (i32, Seq<char>)) -> Option<(i32, Seq<char>, Seq<char>)> {
    match duration_match(rec.1) {
        Some((b, c, qs)) => if is_decimal_text(rec.1.subrange(b, c)) {
            Some((rec.0, rec.1.subrange(b, c), rec.1.skip(qs)))
        } else {
            None
        },
        None => None,
    }
}

pub open spec fn entries_of(recs: Seq<(i32, Seq<char>)>) -> Seq<(i32, Seq<char>, Seq<char>)>
    decreases recs.len(),
{
    if recs.len() == 0 {
        seq![]
    } else {
        let before = entries_of(recs.drop_last());
        match entry_of(recs.last()) {
            Some(e) => before.push(e),
            None => before,
        }
    }
}

/// What `parse` returns for a log text `t`.
pub open spec fn parse_spec(t: Seq<char>) -> Seq<(i32, Seq<char>, Seq<char>)> {
    entries_of(records_spec(t))
}

/// Parse a whole log text into every `duration:` entry it holds, in order.
/// Every other message (plain `LOG:`, `WARNING:`, `ERROR:`, connection
/// notices, ...) is skipped.
#[verifier::spinoff_prover]
pub fn parse(text: &str) -> (r: Vec<LogEntry>)
    ensures
        r@.map_values(|e: LogEntry| e@) == parse_spec(text@),
{
    let records = split_records(text);
    let ghost recs = records@.map_values(|x: RawRecord| x@);
    let mut out: Vec<LogEntry> = Vec::new();
    let mut k: usize = 0;
    assert(recs.take(0) =~= seq![]);
    assert(out@.map_values(|e: LogEntry| e@) =~= seq![]);
    while k < records.len()
        invariant
            k <= records.len(),
            recs == records@.map_values(|x: RawRecord| x@),
            out@.map_values(|e: LogEntry| e@) == entries_of(recs.take(k as int)),
        decreases records.len() - k,
    {
        let m = chars_of(records[k].message.as_str());
        assert(recs.take(k + 1).drop_last() =~= recs.take(k as int));
        assert(recs.take(k + 1).last() == (records@[k as int].pid, m@));
        let ghost before = out@.map_values(|e: LogEntry| e@);
        match duration_match_exec(&m) {
            Some((b, c, qs)) => {
                if is_decimal_text_exec(&m, b, c) {
                    let entry = LogEntry {
                        pid: records[k].pid,
                        duration_ms: string_of_range(&m, b, c),
                        query: string_of_range(&m, qs, m.len()),
                    };
                    assert(m@.subrange(qs as int, m@.len() as int) =~= m@.skip(qs as int));
                    out.push(entry);
                    assert(out@.map_values(|e: LogEntry| e@) =~= before.push(
                        (records@[k as int].pid, m@.subrange(b as int, c as int), m@.skip(qs as int)),
                    ));
                }
            },
            None => {},
        }
        k += 1;
    }
    assert(recs.take(records.len() as int) =~= recs);
    out
}

} // verus!
