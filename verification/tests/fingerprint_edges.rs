//! Edge cases of the fingerprint passes, each checked both against an
//! expected value and against the same search-and-replace written with the
//! `regex` crate.

use pglog::fingerprint::{flatten, normalize};
use regex::Regex;

fn regex_flatten(query: &str) -> String {
    Regex::new(r"\s+").unwrap().replace_all(query.trim(), " ").into_owned()
}

fn regex_normalize(query: &str) -> String {
    let flat = regex_flatten(query);
    let no_strings = Regex::new(r"'(?:[^']|'')*'").unwrap().replace_all(&flat, "?");
    let no_numbers = Regex::new(r"\b\d+(?:\.\d+)?\b")
        .unwrap()
        .replace_all(&no_strings, "?");
    let no_lists = Regex::new(r"\(\s*\?(?:\s*,\s*\?)*\s*\)")
        .unwrap()
        .replace_all(&no_numbers, "(?)");
    Regex::new(r"\s+")
        .unwrap()
        .replace_all(no_lists.trim(), " ")
        .into_owned()
}

fn check(query: &str, expected: &str) {
    assert_eq!(normalize(query), expected, "normalize({query:?})");
    assert_eq!(regex_normalize(query), expected, "regex oracle on {query:?}");
    assert_eq!(flatten(query), regex_flatten(query), "flatten({query:?})");
}

#[test]
fn unterminated_literal_backs_off_to_last_escaped_quote() {
    check("SELECT 'ab''cd", "SELECT ?'cd");
    check("SELECT 'abc", "SELECT 'abc");
    check("SELECT '''", "SELECT ?'");
    check("x = '' AND y = 'a''b'", "x = ? AND y = ?");
}

#[test]
fn number_boundaries_follow_word_characters() {
    check("a1 = 1a", "a1 = 1a");
    check("f(1.5x)", "f(?.5x)");
    check("v = 1.2.3", "v = ?.?");
    check("v = 1..2", "v = ?..?");
    check("v = .5", "v = .?");
    check("v = 3.", "v = ?.");
    check("t.c1 = 7", "t.c1 = ?");
}

#[test]
fn non_ascii_characters_are_classified_like_the_regex_crate() {
    check("x = \u{0663}\u{0664}", "x = ?");
    check("é1 = 2", "é1 = ?");
    check("x\u{3000}=\u{00a0}1", "x = ?");
    check("\u{2163} = 4", "\u{2163} = ?");
    check("²2", "²?");
}

#[test]
fn lists_of_any_length_need_placeholders_and_parentheses() {
    check("IN (?, ?)", "IN (?)");
    check("IN ( 1 )", "IN (?)");
    check("IN (7)", "IN (?)");
    check("IN (\t'a'\n)", "IN (?)");
    check("f( 2 ) + g(x)", "f(?) + g(x)");
    check("IN ()", "IN ()");
    check("IN ( ? ? )", "IN ( ? ? )");
    check("IN ( 1 ,2 , 'x' )", "IN (?)");
    check("IN (1, a)", "IN (?, a)");
    check("IN (1,)", "IN (?,)");
    check("f((1, 2), 3)", "f((?), ?)");
}

#[test]
fn whitespace_pass_runs_after_the_replacements() {
    check("  a \t\n b  ", "a b");
    check("\n\n", "");
    check("'a   b'  c", "? c");
}

#[test]
fn flatten_is_idempotent_on_examples() {
    for q in ["  a  b ", "x\r\ny", "", " ", "a"] {
        let once = flatten(q);
        assert_eq!(flatten(&once), once);
    }
}
