//! The library's laws, each checked on concrete values.

use pglog::aggregate::aggregate;
use pglog::fingerprint::{flatten, normalize};
use pglog::parser::{parse, split_records, LogEntry};

fn is_flat(s: &str) -> bool {
    let chars: Vec<char> = s.chars().collect();
    if let Some(first) = chars.first() {
        if first.is_whitespace() {
            return false;
        }
    }
    for (k, c) in chars.iter().enumerate() {
        if c.is_whitespace() {
            if *c != ' ' || k + 1 >= chars.len() || chars[k + 1].is_whitespace() {
                return false;
            }
        }
    }
    true
}

fn non_whitespace(s: &str) -> String {
    s.chars().filter(|c| !c.is_whitespace()).collect()
}

const QUERIES: [&str; 7] = [
    "  SELECT *\r\n  FROM t\tWHERE id = 1  ",
    "\u{3000}x\u{00a0}\u{2028}y\n",
    "",
    "   ",
    "INSERT INTO t VALUES ('a  b', 2)",
    "a\n\n\nb",
    "one",
];

#[test]
fn flatten_yields_one_normalized_line() {
    for q in QUERIES {
        assert!(is_flat(&flatten(q)), "{q:?}");
        assert!(!flatten(q).contains('\n'));
    }
}

#[test]
fn flatten_twice_is_flatten_once() {
    for q in QUERIES {
        let once = flatten(q);
        assert_eq!(flatten(&once), once);
    }
}

#[test]
fn flatten_changes_only_whitespace() {
    for q in QUERIES {
        assert_eq!(non_whitespace(&flatten(q)), non_whitespace(q));
    }
}

#[test]
fn fingerprints_are_flat_and_ignore_whitespace() {
    for q in QUERIES {
        assert!(is_flat(&normalize(q)), "{q:?}");
        assert_eq!(normalize(&flatten(q)), normalize(q));
    }
    assert_eq!(
        normalize("SELECT\t*\nFROM t  WHERE x = 'a'"),
        normalize("SELECT * FROM t WHERE x = 'b'")
    );
}

#[test]
fn text_without_literals_is_only_flattened() {
    let q = "  SELECT a,\n b FROM t_x WHERE c = d  ";
    assert_eq!(normalize(q), flatten(q));
    assert_eq!(normalize(q), "SELECT a, b FROM t_x WHERE c = d");
}

#[test]
fn any_string_literal_gives_the_same_fingerprint() {
    let p = "SELECT * FROM t WHERE a = ";
    let s = " AND b IN (1, 2)";
    let lits = ["'x'", "''", "'O''Brien'", "'two  spaces\n and a line'", "''''"];
    let expected = normalize(&format!("{p}{}{s}", lits[0]));
    assert_eq!(expected, "SELECT * FROM t WHERE a = ? AND b IN (?)");
    for lit in lits {
        assert_eq!(normalize(&format!("{p}{lit}{s}")), expected, "{lit}");
    }
}

#[test]
fn any_number_gives_the_same_fingerprint() {
    let p = "UPDATE t SET a =\t";
    let s = ", b = c WHERE d > 0";
    let expected = normalize(&format!("{p}1{s}"));
    assert_eq!(expected, "UPDATE t SET a = ?, b = c WHERE d > ?");
    for d in ["0", "42", "19.99", "007", "3.0"] {
        assert_eq!(normalize(&format!("{p}{d}{s}")), expected, "{d}");
    }
}

#[test]
fn any_number_list_gives_the_same_fingerprint() {
    let p = "DELETE FROM t WHERE id IN";
    let s = ";";
    let expected = normalize(&format!("{p}(1){s}"));
    assert_eq!(expected, "DELETE FROM t WHERE id IN(?);");
    for list in [
        "(1, 2)",
        "(1, 2.5, 3)",
        "(10, 20, 30, 40, 50)",
        "( 1 )",
        "(1 ,2)",
        "(  3,\t4  )",
        "(\n5,\n6\n)",
    ] {
        assert_eq!(normalize(&format!("{p}{list}{s}")), expected, "{list}");
    }
}

#[test]
fn literals_collapse_next_to_other_literals() {
    let p = "SELECT 'it''s' || x FROM t WHERE a = 'k' AND b = ";
    let s = " OR c = '9'";
    let a = normalize(&format!("{p}'one'{s}"));
    assert_eq!(a, normalize(&format!("{p}'two''s'{s}")));
    assert_eq!(a, "SELECT ? || x FROM t WHERE a = ? AND b = ? OR c = ?");
    let n = normalize(&format!("{p}12{s}"));
    assert_eq!(n, normalize(&format!("{p}3.5{s}")));
    assert_eq!(n, a);
}

#[test]
fn lists_collapse_wherever_they_stand() {
    for (p, s) in [("x = '", ""), ("f'", "'"), ("a1", "b2"), ("", "")] {
        assert_eq!(
            normalize(&format!("{p}(1, 2, 3){s}")),
            normalize(&format!("{p}(4){s}")),
            "{p:?} {s:?}"
        );
    }
}

#[test]
fn numbers_glued_to_words_are_not_literals() {
    assert_ne!(normalize("a1"), normalize("a2"));
    assert_ne!(normalize("1.2.5"), normalize("3.5"));
}

fn entries(text: &str) -> Vec<(i32, String, String)> {
    parse(text)
        .into_iter()
        .map(|e| (e.pid, e.duration_ms, e.query))
        .collect()
}

#[test]
fn a_log_cut_at_a_message_parses_piecewise() {
    let a = "garbage\n2026-09-20 00:51:18.491 IST [1] LOG:  duration: 1.5 ms  statement: SELECT 1\nFROM t\n";
    let b = "2026-09-20 00:51:19 IST [2] LOG:  duration: 2 ms  execute s: SELECT 2\r\n2026-09-20 00:51:20 IST [3] WARNING:  x\n";
    let whole = format!("{a}{b}");
    let mut joined = entries(a);
    joined.extend(entries(b));
    assert_eq!(entries(&whole), joined);
    assert_eq!(joined.len(), 2);
    let records = split_records(&whole);
    assert_eq!(records.len(), split_records(a).len() + split_records(b).len());
}

#[test]
fn lines_before_the_first_message_are_dropped() {
    let a = "tail of an earlier message\n\nstill no prefix\n";
    let b = "2026-09-20 00:51:18 IST [5] LOG:  duration: 3 ms  statement: SELECT 1\n";
    assert!(split_records(a).is_empty());
    assert_eq!(entries(&format!("{a}{b}")), entries(b));
    assert_eq!(entries(b).len(), 1);
}

#[test]
fn messages_other_than_durations_can_be_cut_out() {
    let a = "2026-09-20 00:51:18 IST [5] LOG:  connection authorized: user=app\n2026-09-20 00:51:18 IST [5] WARNING:  careful\nsecond line\n";
    let b = "2026-09-20 00:51:19 IST [5] LOG:  duration: 3 ms  statement: SELECT 1\n";
    assert_eq!(split_records(a).len(), 2);
    assert!(parse(a).is_empty());
    assert_eq!(entries(&format!("{a}{b}")), entries(b));
}

#[test]
fn groups_hold_every_entry_once() {
    let queries = ["SELECT 1", "SELECT 2", "UPDATE t SET x = 'a'", "SELECT 3", "DELETE FROM t"];
    let entries: Vec<LogEntry> = queries
        .iter()
        .map(|q| LogEntry {
            pid: 1,
            duration_ms: "1".to_string(),
            query: q.to_string(),
        })
        .collect();
    let groups = aggregate(&entries);
    let total: u64 = groups.iter().map(|g| g.count).sum();
    assert_eq!(total, entries.len() as u64);
    let mut seen: Vec<usize> = groups.iter().flat_map(|g| g.members.clone()).collect();
    seen.sort();
    assert_eq!(seen, vec![0, 1, 2, 3, 4]);
    for g in &groups {
        for &m in &g.members {
            assert_eq!(normalize(queries[m]), g.fingerprint);
        }
    }
}

#[test]
fn a_fingerprint_is_its_own_fingerprint() {
    for q in [
        "SELECT * FROM t WHERE id IN ( 1 , 2 )",
        "  SELECT 'a''b'\n\tFROM t  WHERE x = 'open",
        "f((1, 2), 3) AND v = 1.2.3 AND a1 = 1a",
        "x = '' AND y = 'it''s' AND z IN ('a', 'b')",
        "x = \u{0663}\u{0664} AND y IN ( 5 ) AND \u{2163}7 = '\u{00e9}'",
        "",
    ] {
        let n = normalize(q);
        assert_eq!(flatten(&n), n, "{q:?}");
        assert_eq!(normalize(&n), n, "{q:?}");
    }
}

#[test]
fn a_fingerprint_keeps_only_a_lone_quote() {
    let n = normalize("SELECT * FROM t WHERE a = 'x' OR b = 'open");
    assert_eq!(n, "SELECT * FROM t WHERE a = ? OR b = 'open");
    assert_eq!(n.matches('\'').count(), 1);
    assert_eq!(normalize(&n), n);
    let closed = normalize("SELECT 'it''s', 'a', ''");
    assert_eq!(closed, "SELECT ?, ?, ?");
    assert_eq!(normalize(&closed), closed);
}
