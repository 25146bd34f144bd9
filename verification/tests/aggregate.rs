use pglog::aggregate::{aggregate, QueryGroup};
use pglog::parser::LogEntry;

fn entry(query: &str, ms: f64) -> LogEntry {
    LogEntry {
        pid: 1,
        duration_ms: ms.to_string(),
        query: query.to_string(),
    }
}

/// The duration figures of one group: total, mean, min and max, summed
/// over the member entries in log order.
fn rollup(group: &QueryGroup, entries: &[LogEntry]) -> (f64, f64, f64, f64) {
    let mut total = 0.0;
    let mut min = f64::MAX;
    let mut max = f64::MIN;
    for &m in &group.members {
        let ms: f64 = entries[m].duration_ms.parse().unwrap();
        total += ms;
        min = min.min(ms);
        max = max.max(ms);
    }
    (total, total / group.count as f64, min, max)
}

#[test]
fn groups_different_parameters_into_one_bucket() {
    let entries = vec![
        entry("SELECT * FROM users WHERE id = 1", 10.0),
        entry("SELECT * FROM users WHERE id = 2", 20.0),
    ];
    let stats = aggregate(&entries);
    assert_eq!(stats.len(), 1);
    assert_eq!(stats[0].count, 2);
    let (total_ms, mean_ms, min_ms, max_ms) = rollup(&stats[0], &entries);
    assert_eq!(total_ms, 30.0);
    assert_eq!(mean_ms, 15.0);
    assert_eq!(min_ms, 10.0);
    assert_eq!(max_ms, 20.0);
}

#[test]
fn keeps_genuinely_different_queries_separate() {
    let entries = vec![
        entry("SELECT * FROM users WHERE id = 1", 10.0),
        entry("SELECT * FROM orders WHERE id = 1", 10.0),
    ];
    assert_eq!(aggregate(&entries).len(), 2);
}

#[test]
fn example_is_the_first_raw_occurrence_flattened() {
    let entries = vec![
        entry("SELECT * FROM users WHERE id = 42", 10.0),
        entry("SELECT * FROM users WHERE id = 99", 10.0),
    ];
    let stats = aggregate(&entries);
    assert_eq!(stats[0].example, "SELECT * FROM users WHERE id = 42");
}

#[test]
fn empty_entries_produce_no_stats() {
    assert!(aggregate(&[]).is_empty());
}

#[test]
fn single_entry_min_and_max_equal_its_own_duration() {
    let entries = vec![entry("SELECT 1", 5.0)];
    let stats = aggregate(&entries);
    let (_, mean_ms, min_ms, max_ms) = rollup(&stats[0], &entries);
    assert_eq!(min_ms, 5.0);
    assert_eq!(max_ms, 5.0);
    assert_eq!(mean_ms, 5.0);
}

#[test]
fn three_distinct_fingerprints_produce_three_buckets() {
    let entries = vec![
        entry("SELECT 1", 1.0),
        entry("SELECT 2", 1.0),
        entry("UPDATE t SET x = 1", 1.0),
        entry("UPDATE t SET x = 2", 1.0),
        entry("DELETE FROM t", 1.0),
    ];
    assert_eq!(aggregate(&entries).len(), 3);
}

#[test]
fn groups_come_sorted_by_fingerprint_with_members_in_log_order() {
    let entries = vec![
        entry("UPDATE t SET x = 1", 1.0),
        entry("SELECT 1", 2.0),
        entry("DELETE FROM t", 3.0),
        entry("SELECT   2", 4.0),
        entry("UPDATE t SET x = 'a'", 5.0),
    ];
    let groups = aggregate(&entries);
    let fps: Vec<&str> = groups.iter().map(|g| g.fingerprint.as_str()).collect();
    assert_eq!(fps, vec!["DELETE FROM t", "SELECT ?", "UPDATE t SET x = ?"]);
    assert_eq!(groups[1].members, vec![1, 3]);
    assert_eq!(groups[1].example, "SELECT 1");
    assert_eq!(groups[2].members, vec![0, 4]);
    assert_eq!(groups[2].count, 2);
    assert_eq!(groups[0].members, vec![2]);
}
