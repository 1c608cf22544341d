//! End-to-end and component tests on concrete values.

use srcdeps::expand::{
    arch_all_bytes, expand, make_key, DepRelation, DepTarget, PackageDb, PackageRecord,
};
use srcdeps::output::{render_result, run_pipeline};
use srcdeps::query::{classify_query, parse_operation, Direction, QueryError};
use srcdeps::siblings::resolve_siblings;

fn b(s: &str) -> Vec<u8> {
    s.as_bytes().to_vec()
}

fn rel(sources: &[Option<&str>]) -> DepRelation {
    DepRelation {
        alternatives: sources
            .iter()
            .map(|s| DepTarget { candidate_source: s.map(|n| b(n)) })
            .collect(),
    }
}

fn record(forward: Option<Vec<DepRelation>>, reverse: Vec<DepRelation>) -> PackageRecord {
    PackageRecord { candidate_depends: forward, reverse_depends: reverse }
}

#[test]
fn siblings_well_formed_field() {
    let out = b"Package: x\nBinary: foo, bar, baz\nVersion: 1\n".to_vec();
    let sibs = resolve_siblings(&out);
    assert_eq!(sibs, vec![b("bar"), b("baz"), b("foo")]);
}

#[test]
fn siblings_dedup_example() {
    let out = b"Binary: foo, bar, bar\n".to_vec();
    let sibs = resolve_siblings(&out);
    assert_eq!(sibs, vec![b("bar"), b("foo")]);
}

#[test]
fn siblings_whitespace_stripped() {
    let out = b"Binary: a b ,\tc ,\n".to_vec();
    let sibs = resolve_siblings(&out);
    assert_eq!(sibs, vec![b("ab"), b("c")]);
}

#[test]
fn siblings_no_binary_line_is_empty() {
    let out = b"Package: x\nVersion: 1\n".to_vec();
    let sibs = resolve_siblings(&out);
    assert!(sibs.is_empty());
}

#[test]
fn siblings_empty_entries_dropped() {
    let out = b"Binary: ,,\n".to_vec();
    let sibs = resolve_siblings(&out);
    assert!(sibs.is_empty());
}

#[test]
fn siblings_first_binary_line_wins() {
    let out = b"Binary: one\nBinary: two\n".to_vec();
    let sibs = resolve_siblings(&out);
    assert_eq!(sibs, vec![b("one")]);
}

#[test]
fn make_key_qualified_and_all() {
    assert_eq!(make_key(b"pkg", b"amd64"), b("pkg:amd64"));
    assert_eq!(make_key(b"pkg", b"all"), b("pkg"));
    assert_eq!(arch_all_bytes(), b("all"));
}

#[test]
fn operation_names_parse() {
    assert_eq!(parse_operation(b"get_rdepends"), Ok(Direction::Reverse));
    assert_eq!(parse_operation(b"get_depends"), Ok(Direction::Forward));
}

#[test]
fn bogus_operation_is_exit_2() {
    let r = parse_operation(b"bogus");
    assert_eq!(r, Err(QueryError::InvalidOperation));
    assert_eq!(QueryError::InvalidOperation.exit_code(), 2);
}

#[test]
fn not_found_marker_is_exit_6() {
    let stderr = b"E: Unable to locate package nosuchpkg\n";
    let r = classify_query(true, stderr);
    assert_eq!(r, Err(QueryError::NoSourceEntry));
    assert_eq!(QueryError::NoSourceEntry.exit_code(), 6);
}

#[test]
fn failed_invocation_is_exit_5() {
    let r = classify_query(false, b"");
    assert_eq!(r, Err(QueryError::QueryExecutionError));
    assert_eq!(QueryError::QueryExecutionError.exit_code(), 5);
}

#[test]
fn clean_run_classifies_ok() {
    assert_eq!(classify_query(true, b"W: some unrelated warning\n"), Ok(()));
}

fn demo_db() -> PackageDb {
    PackageDb {
        entries: vec![
            (
                b("foo"),
                record(
                    Some(vec![rel(&[Some("src-libc")])]),
                    vec![rel(&[Some("src-app")]), rel(&[Some("src-tool")])],
                ),
            ),
            (b("bar"), record(None, vec![rel(&[Some("src-app")])])),
            (b("foo:amd64"), record(None, vec![rel(&[Some("src-arch")])])),
        ],
    }
}

#[test]
fn expand_reverse_collects_sources() {
    let db = demo_db();
    let sibs = vec![b("foo"), b("bar")];
    let names = expand(&db, &sibs, b"all", Direction::Reverse);
    assert_eq!(names, vec![b("src-app"), b("src-tool"), b("src-app")]);
}

#[test]
fn expand_forward_skips_package_without_candidate() {
    let db = demo_db();
    // bar has no candidate version: its forward direction contributes nothing.
    let names = expand(&db, &vec![b("bar")], b"all", Direction::Forward);
    assert!(names.is_empty());
    let names = expand(&db, &vec![b("foo")], b"all", Direction::Forward);
    assert_eq!(names, vec![b("src-libc")]);
}

#[test]
fn expand_missing_key_contributes_nothing() {
    let db = demo_db();
    let names = expand(&db, &vec![b("absent")], b"all", Direction::Reverse);
    assert!(names.is_empty());
}

#[test]
fn dependency_without_candidate_contributes_nothing() {
    // The dependency target resolves to no installable candidate: the
    // relation is silently skipped, not an error.
    let db = PackageDb {
        entries: vec![(b("foo"), record(None, vec![rel(&[None]), rel(&[])]))],
    };
    let names = expand(&db, &vec![b("foo")], b"all", Direction::Reverse);
    assert!(names.is_empty());
}

#[test]
fn expand_reads_first_alternative_only() {
    let db = PackageDb {
        entries: vec![(
            b("foo"),
            record(None, vec![rel(&[Some("first-src"), Some("second-src")])]),
        )],
    };
    let names = expand(&db, &vec![b("foo")], b"all", Direction::Reverse);
    assert_eq!(names, vec![b("first-src")]);
}

#[test]
fn arch_all_equals_unqualified_lookup() {
    let db = demo_db();
    let sibs = vec![b("foo")];
    // Under "all" the key is the bare name; under a real architecture the
    // qualified entry is consulted instead.
    let under_all = expand(&db, &sibs, b"all", Direction::Reverse);
    assert_eq!(under_all, vec![b("src-app"), b("src-tool")]);
    let under_amd64 = expand(&db, &sibs, b"amd64", Direction::Reverse);
    assert_eq!(under_amd64, vec![b("src-arch")]);
}

#[test]
fn render_sorts_dedups_and_joins() {
    let (lines, bytes) = render_result(vec![b("zeta"), b("alpha"), b("zeta"), b("mid")]);
    assert_eq!(lines, vec![b("alpha"), b("mid"), b("zeta")]);
    assert_eq!(bytes, b("alpha\nmid\nzeta"));
}

#[test]
fn render_empty_is_empty_file() {
    let (lines, bytes) = render_result(Vec::new());
    assert!(lines.is_empty());
    assert!(bytes.is_empty());
}

#[test]
fn file_contents_match_console_lines() {
    let (lines, bytes) = render_result(vec![b("bb"), b("aa")]);
    let from_file: Vec<Vec<u8>> =
        bytes.split(|&c| c == 10).map(|s| s.to_vec()).collect();
    assert_eq!(from_file, lines);
}

#[test]
fn pipeline_happy_path() {
    let db = demo_db();
    let out = run_pipeline(
        &db,
        b"get_rdepends",
        true,
        b"",
        b"Binary: foo, bar\n",
        b"all",
    )
    .unwrap();
    assert_eq!(out.0, vec![b("src-app"), b("src-tool")]);
    assert_eq!(out.1, b("src-app\nsrc-tool"));
}

#[test]
fn pipeline_rejects_bogus_operation_first() {
    let db = demo_db();
    // Even with a failing query, the bad operation is the reported error.
    let r = run_pipeline(&db, b"bogus", false, b"", b"", b"all");
    assert_eq!(r.unwrap_err(), QueryError::InvalidOperation);
}

#[test]
fn pipeline_reports_unknown_package() {
    let db = demo_db();
    let r = run_pipeline(
        &db,
        b"get_rdepends",
        true,
        b"E: Unable to locate package ghost\n",
        b"",
        b"all",
    );
    assert_eq!(r.unwrap_err(), QueryError::NoSourceEntry);
}

#[test]
fn pipeline_is_idempotent() {
    let db = demo_db();
    let first = run_pipeline(&db, b"get_rdepends", true, b"", b"Binary: foo, bar\n", b"all")
        .unwrap();
    let second = run_pipeline(&db, b"get_rdepends", true, b"", b"Binary: foo, bar\n", b"all")
        .unwrap();
    assert_eq!(first.1, second.1);
}
