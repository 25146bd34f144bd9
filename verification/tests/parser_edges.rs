//! Edge cases of log parsing, each checked both against an expected value
//! and against the same parse written with the `regex` crate.

use pglog::parser::{parse, split_records};
use regex::Regex;

fn regex_parse(text: &str) -> Vec<(i32, String, String)> {
    let prefix =
        Regex::new(r"^\d{4}-\d{2}-\d{2} \d{2}:\d{2}:\d{2}(?:\.\d+)? \S+ \[(\d+)\] (.*)$").unwrap();
    let duration = Regex::new(
        r"(?s)^LOG:\s+duration:\s+([0-9.]+)\s+ms\s+(?:statement|execute [^:]*):\s?(.*)$",
    )
    .unwrap();
    let mut records: Vec<(i32, String)> = Vec::new();
    for line in text.lines() {
        if let Some(caps) = prefix.captures(line) {
            records.push((caps[1].parse().unwrap_or(0), caps[2].to_string()));
        } else if let Some(last) = records.last_mut() {
            last.1.push('\n');
            last.1.push_str(line);
        }
    }
    records
        .into_iter()
        .filter_map(|(pid, message)| {
            let caps = duration.captures(&message)?;
            let _: f64 = caps[1].parse().ok()?;
            Some((pid, caps[1].to_string(), caps[2].to_string()))
        })
        .collect()
}

fn entries(text: &str) -> Vec<(i32, String, String)> {
    parse(text)
        .into_iter()
        .map(|e| (e.pid, e.duration_ms, e.query))
        .collect()
}

fn check(text: &str, expected: &[(i32, &str, &str)]) {
    let expected: Vec<(i32, String, String)> = expected
        .iter()
        .map(|(p, d, q)| (*p, d.to_string(), q.to_string()))
        .collect();
    assert_eq!(entries(text), expected, "parse({text:?})");
    assert_eq!(regex_parse(text), expected, "regex oracle on {text:?}");
}

const P: &str = "2026-09-20 00:51:18.491 IST [7] ";

#[test]
fn durations_that_do_not_parse_drop_the_entry() {
    check(&format!("{P}LOG:  duration: 1.2.3 ms  statement: x\n"), &[]);
    check(&format!("{P}LOG:  duration: . ms  statement: x\n"), &[]);
    check(&format!("{P}LOG:  duration: 5. ms  statement: x\n"), &[(7, "5.", "x")]);
    check(&format!("{P}LOG:  duration: .5 ms  statement: x\n"), &[(7, ".5", "x")]);
}

#[test]
fn pid_that_overflows_or_is_not_ascii_becomes_zero() {
    check(
        "2026-09-20 00:51:18 IST [99999999999] LOG:  duration: 1 ms  statement: x",
        &[(0, "1", "x")],
    );
    check(
        "2026-09-20 00:51:18 IST [2147483647] LOG:  duration: 1 ms  statement: x",
        &[(2147483647, "1", "x")],
    );
    check(
        "2026-09-20 00:51:18 IST [\u{0661}\u{0662}] LOG:  duration: 1 ms  statement: x",
        &[(0, "1", "x")],
    );
}

#[test]
fn crlf_line_endings_are_stripped() {
    check(
        &format!("{P}LOG:  duration: 1 ms  statement: a\r\nb\r\n"),
        &[(7, "1", "a\nb")],
    );
    check(&format!("{P}LOG:  duration: 1 ms  statement: a\r"), &[(7, "1", "a\r")]);
}

#[test]
fn statement_separator_takes_at_most_one_whitespace() {
    check(&format!("{P}LOG:  duration: 1 ms  statement:   x"), &[(7, "1", "  x")]);
    check(&format!("{P}LOG:  duration: 1 ms  statement:"), &[(7, "1", "")]);
    check(&format!("{P}LOG:  duration: 1 ms  execute a:b: x"), &[(7, "1", "b: x")]);
    check(&format!("{P}LOG:  duration: 1 ms  execute : x"), &[(7, "1", "x")]);
    check(&format!("{P}LOG:  duration: 1 ms  statements: x"), &[]);
    check(&format!("{P}LOG: duration:1 ms statement: x"), &[]);
}

#[test]
fn malformed_prefixes_are_continuation_lines() {
    check(
        &format!("{P}LOG:  duration: 1 ms  statement: a\n2026-09-20 00:51:18. IST [1] b\n"),
        &[(7, "1", "a\n2026-09-20 00:51:18. IST [1] b")],
    );
    check(
        &format!("{P}LOG:  duration: 1 ms  statement: a\n2026-09-20 00:51:18  IST [1] b\n"),
        &[(7, "1", "a\n2026-09-20 00:51:18  IST [1] b")],
    );
    check("2026-09-20 00:51:18 IST [] LOG:  duration: 1 ms  statement: a", &[]);
}

#[test]
fn records_keep_their_pid_and_message() {
    let recs = split_records("x\n2026-09-20 00:51:18 UTC [3] hello\nworld\n\n2026-09-20 00:51:18 UTC [4] bye");
    assert_eq!(recs.len(), 2);
    assert_eq!(recs[0].pid, 3);
    assert_eq!(recs[0].message, "hello\nworld\n");
    assert_eq!(recs[1].pid, 4);
    assert_eq!(recs[1].message, "bye");
}
