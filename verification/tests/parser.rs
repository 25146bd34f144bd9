use pglog::parser::parse;

fn ms(text: &str) -> f64 {
    text.parse::<f64>().unwrap()
}

#[test]
fn parses_a_single_real_shaped_duration_line() {
    let log = "2026-09-20 00:51:18.491 IST [138615] LOG:  duration: 2.968 ms  statement: SELECT * FROM pg_class WHERE oid = 123;\n";
    let entries = parse(log);
    assert_eq!(entries.len(), 1);
    assert_eq!(entries[0].pid, 138615);
    assert_eq!(ms(&entries[0].duration_ms), 2.968);
    assert_eq!(entries[0].query, "SELECT * FROM pg_class WHERE oid = 123;");
}

#[test]
fn parses_multiple_entries_from_the_same_backend() {
    let log = "\
2026-09-20 00:51:18.488 IST [138615] LOG:  duration: 0.101 ms  statement: SET log_min_duration_statement = 0;
2026-09-20 00:51:18.491 IST [138615] LOG:  duration: 2.968 ms  statement: SELECT * FROM pg_class WHERE oid = 123;
2026-09-20 00:51:18.491 IST [138615] LOG:  duration: 0.057 ms  statement: SELECT * FROM pg_class WHERE oid = 456;
";
    let entries = parse(log);
    assert_eq!(entries.len(), 3);
    assert_eq!(entries[1].query, "SELECT * FROM pg_class WHERE oid = 123;");
    assert_eq!(entries[2].query, "SELECT * FROM pg_class WHERE oid = 456;");
}

#[test]
fn skips_non_duration_log_lines() {
    let log = "\
2026-09-20 00:51:18.491 IST [138615] LOG:  connection authorized: user=app database=appdb
2026-09-20 00:51:18.492 IST [138615] WARNING:  there is already a transaction in progress
2026-09-20 00:51:18.500 IST [138615] LOG:  duration: 5.000 ms  statement: SELECT 1;
";
    let entries = parse(log);
    assert_eq!(entries.len(), 1);
    assert_eq!(entries[0].query, "SELECT 1;");
}

#[test]
fn reassembles_a_multiline_statement() {
    let log = "\
2026-09-20 00:51:18.491 IST [138615] LOG:  duration: 5.000 ms  statement: SELECT *
FROM foo
WHERE id = 1;
2026-09-20 00:51:19.000 IST [138615] LOG:  duration: 1.000 ms  statement: SELECT 2;
";
    let entries = parse(log);
    assert_eq!(entries.len(), 2);
    assert_eq!(entries[0].query, "SELECT *\nFROM foo\nWHERE id = 1;");
    assert_eq!(entries[1].query, "SELECT 2;");
}

#[test]
fn parses_extended_protocol_execute_form() {
    let log = "2026-09-20 00:51:18.491 IST [138615] LOG:  duration: 1.234 ms  execute <unnamed>: SELECT $1 AS x;\n";
    let entries = parse(log);
    assert_eq!(entries.len(), 1);
    assert_eq!(entries[0].query, "SELECT $1 AS x;");
}

#[test]
fn parses_named_prepared_statement_execute_form() {
    let log = "2026-09-20 00:51:18.491 IST [138615] LOG:  duration: 1.234 ms  execute S_1: SELECT $1;\n";
    let entries = parse(log);
    assert_eq!(entries.len(), 1);
    assert_eq!(entries[0].query, "SELECT $1;");
}

#[test]
fn empty_input_produces_no_entries() {
    assert!(parse("").is_empty());
}

#[test]
fn a_log_with_no_duration_statements_produces_no_entries() {
    let log = "2026-09-20 00:51:18.491 IST [138615] LOG:  checkpoint starting: time\n";
    assert!(parse(log).is_empty());
}

#[test]
fn continuation_line_before_any_record_is_dropped_not_a_panic() {
    let log = "orphan continuation line with no prefix at all\n2026-09-20 00:51:18.491 IST [1] LOG:  duration: 1.0 ms  statement: SELECT 1;\n";
    let entries = parse(log);
    assert_eq!(entries.len(), 1);
}

#[test]
fn pid_is_parsed_as_a_real_integer() {
    let log = "2026-09-20 00:51:18.491 IST [99] LOG:  duration: 1.0 ms  statement: SELECT 1;\n";
    assert_eq!(parse(log)[0].pid, 99);
}

#[test]
fn timestamp_without_fractional_seconds_still_matches() {
    let log = "2026-09-20 00:51:18 IST [1] LOG:  duration: 1.0 ms  statement: SELECT 1;\n";
    assert_eq!(parse(log).len(), 1);
}
