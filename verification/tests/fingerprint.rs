use pglog::fingerprint::{flatten, normalize};

#[test]
fn different_numeric_literals_collapse_to_the_same_fingerprint() {
    let a = normalize("SELECT * FROM users WHERE id = 123");
    let b = normalize("SELECT * FROM users WHERE id = 456");
    assert_eq!(a, b);
    assert_eq!(a, "SELECT * FROM users WHERE id = ?");
}

#[test]
fn different_string_literals_collapse_to_the_same_fingerprint() {
    let a = normalize("SELECT * FROM users WHERE name = 'alice'");
    let b = normalize("SELECT * FROM users WHERE name = 'bob'");
    assert_eq!(a, b);
}

#[test]
fn string_literal_with_embedded_escaped_quote_is_matched_whole() {
    let out = normalize("SELECT * FROM users WHERE name = 'O''Brien'");
    assert_eq!(out, "SELECT * FROM users WHERE name = ?");
}

#[test]
fn identifiers_with_embedded_digits_are_left_alone() {
    let out = normalize("SELECT * FROM table_2024 WHERE col1 = 5");
    assert_eq!(out, "SELECT * FROM table_2024 WHERE col1 = ?");
}

#[test]
fn one_element_in_list_with_spaces_collapses_like_any_other_list() {
    let a = normalize("SELECT * FROM t WHERE id IN ( 1 )");
    assert_eq!(a, "SELECT * FROM t WHERE id IN (?)");
    assert_eq!(a, normalize("SELECT * FROM t WHERE id IN (1, 2)"));
    assert_eq!(a, normalize("SELECT * FROM t WHERE id IN (7)"));
}

#[test]
fn decimal_numbers_collapse_as_one_token() {
    let out = normalize("SELECT * FROM t WHERE price > 19.99");
    assert_eq!(out, "SELECT * FROM t WHERE price > ?");
}

#[test]
fn in_lists_of_different_lengths_collapse_to_the_same_fingerprint() {
    let a = normalize("SELECT * FROM t WHERE id IN (1, 2, 3)");
    let b = normalize("SELECT * FROM t WHERE id IN (1, 2, 3, 4, 5)");
    assert_eq!(a, b);
    assert_eq!(a, "SELECT * FROM t WHERE id IN (?)");
}

#[test]
fn single_element_in_list_is_still_just_one_placeholder() {
    let out = normalize("SELECT * FROM t WHERE id IN (1)");
    assert_eq!(out, "SELECT * FROM t WHERE id IN (?)");
}

#[test]
fn multiline_query_is_flattened_to_one_line() {
    let out = normalize("SELECT *\nFROM foo\nWHERE id = 1;");
    assert_eq!(out, "SELECT * FROM foo WHERE id = ?;");
}

#[test]
fn extra_internal_whitespace_is_collapsed() {
    let a = normalize("SELECT   *  FROM   t   WHERE id = 1");
    let b = normalize("SELECT * FROM t WHERE id = 2");
    assert_eq!(a, b);
}

#[test]
fn leading_and_trailing_whitespace_is_trimmed() {
    assert_eq!(normalize("  SELECT 1  "), "SELECT ?");
}

#[test]
fn queries_with_genuinely_different_shape_do_not_collapse() {
    let a = normalize("SELECT * FROM users WHERE id = 1");
    let b = normalize("SELECT * FROM orders WHERE id = 1");
    assert_ne!(a, b);
}

#[test]
fn flatten_does_not_touch_literal_values() {
    assert_eq!(
        flatten("SELECT * FROM t\nWHERE id = 123"),
        "SELECT * FROM t WHERE id = 123"
    );
}

#[test]
fn empty_string_normalizes_to_empty() {
    assert_eq!(normalize(""), "");
}
