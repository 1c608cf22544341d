//! Tests of the byte-level text utilities.

use srcdeps::text::{
    bytes_eq, bytes_lt, contains_bytes, join_bytes, remove_ws, sort_dedup, split_bytes,
    starts_with,
};

fn b(s: &str) -> Vec<u8> {
    s.as_bytes().to_vec()
}

#[test]
fn lexicographic_order_on_bytes() {
    assert!(bytes_lt(b"abc", b"abd"));
    assert!(!bytes_lt(b"abd", b"abc"));
    // A proper prefix sorts before its extension.
    assert!(bytes_lt(b"ab", b"abc"));
    assert!(!bytes_lt(b"abc", b"abc"));
    assert!(bytes_lt(b"", b"a"));
}

#[test]
fn equality_and_prefix_tests() {
    assert!(bytes_eq(b"same", b"same"));
    assert!(!bytes_eq(b"same", b"samey"));
    assert!(starts_with(b"Binary: foo", b"Binary:"));
    assert!(!starts_with(b"Bin", b"Binary:"));
    assert!(starts_with(b"anything", b""));
}

#[test]
fn substring_search() {
    assert!(contains_bytes(b"E: Unable to locate package x", b"Unable to locate package"));
    assert!(!contains_bytes(b"all quiet", b"Unable"));
    assert!(contains_bytes(b"abc", b""));
    assert!(!contains_bytes(b"ab", b"abc"));
}

#[test]
fn whitespace_removal() {
    assert_eq!(remove_ws(b" a b\tc\r\n"), b("abc"));
    assert_eq!(remove_ws(b""), b(""));
}

#[test]
fn split_keeps_empty_parts() {
    let parts = split_bytes(b"a,,b", 44);
    assert_eq!(parts, vec![b("a"), b(""), b("b")]);
    let parts = split_bytes(b"", 44);
    assert_eq!(parts, vec![b("")]);
}

#[test]
fn join_has_no_trailing_separator() {
    assert_eq!(join_bytes(&vec![b("a"), b("bc")], 10), b("a\nbc"));
    assert_eq!(join_bytes(&vec![b("a")], 10), b("a"));
    assert_eq!(join_bytes(&Vec::new(), 10), b(""));
}

#[test]
fn sort_dedup_sorts_and_drops_duplicates() {
    let r = sort_dedup(vec![b("pear"), b("apple"), b("pear"), b("fig")]);
    assert_eq!(r, vec![b("apple"), b("fig"), b("pear")]);
    let r = sort_dedup(Vec::new());
    assert!(r.is_empty());
}
