//! The result writer and the whole pipeline: sort, deduplicate, serialize as
//! newline-joined text, and the guarantees that tie the persisted bytes to
//! the printed lines.

use vstd::prelude::*;

use crate::expand::{
    db_wf, expand, package_contrib, spec_expand, spec_key, PackageDb,
};
use crate::query::{
    classify_query, parse_operation, spec_classify_query, spec_parse_operation, Direction,
    QueryError,
};
use crate::siblings::{name_ok, nl, resolve_siblings, sibling_entries};
use crate::text::{
    is_ws, join_bytes, join_with, lemma_split_join, lemma_strict_sorted_unique, sort_dedup,
    split_on, strict_sorted, views,
};

verus! {

/// Serialize the result: the names sorted and deduplicated, and the bytes to
/// persist — the sorted lines joined with single newlines, no trailing one.
pub fn render_result(names: Vec<Vec<u8>>) -> (r: (Vec<Vec<u8>>, Vec<u8>))
    ensures
        strict_sorted(views(r.0@)),
        forall|y: Seq<u8>| views(r.0@).contains(y) <==> views(names@).contains(y),
        r.1@ == join_with(views(r.0@), nl()),
{
    let lines = sort_dedup(names);
    let bytes = join_bytes(&lines, 10);
    (lines, bytes)
}

/// The file read back and split on newlines is exactly the lines printed to
/// the console, in the same order, whenever at least one name was emitted.
/// (An empty result writes an empty file, which splits into one empty line
/// while the console prints none.)
pub proof fn lemma_file_matches_console(lines: Seq<Seq<u8>>)
    requires
        lines.len() >= 1,
        forall|i: int| 0 <= i < lines.len() ==> name_ok(#[trigger] lines[i]),
    ensures
        split_on(join_with(lines, nl()), nl()) == lines,
{
    assert forall|i: int| 0 <= i < lines.len() implies !(#[trigger] lines[i]).contains(nl()) by {
        if lines[i].contains(nl()) {
            let k = choose|k: int| 0 <= k < lines[i].len() && lines[i][k] == nl();
            assert(is_ws(lines[i][k]));
        }
    }
    lemma_split_join(lines, nl());
}

/// Rendering is a function of the set of names alone: two renderings whose
/// sorted lines hold the same members are identical, lines and bytes both.
/// Hence one query asked twice persists byte-identical files.
pub proof fn lemma_output_deterministic(a: Seq<Seq<u8>>, b: Seq<Seq<u8>>)
    requires
        strict_sorted(a),
        strict_sorted(b),
        forall|y: Seq<u8>| a.contains(y) <==> b.contains(y),
    ensures
        a == b,
        join_with(a, nl()) == join_with(b, nl()),
{
    lemma_strict_sorted_unique(a, b);
}

/// Membership in an expansion: a name is contributed exactly when some
/// sibling's key leads to a record that contributes it.
pub proof fn lemma_expand_membership(
    db: PackageDb,
    sibs: Seq<Seq<u8>>,
    arch: Seq<u8>,
    dir: Direction,
    y: Seq<u8>,
)
    ensures
        spec_expand(db, sibs, arch, dir).contains(y) <==> exists|k: int|
            0 <= k < sibs.len() && (#[trigger] package_contrib(
                db,
                spec_key(sibs[k], arch),
                dir,
            )).contains(y),
    decreases sibs.len(),
{
    if sibs.len() > 0 {
        lemma_expand_membership(db, sibs.drop_first(), arch, dir, y);
        let whole = spec_expand(db, sibs, arch, dir);
        let head = package_contrib(db, spec_key(sibs[0], arch), dir);
        let tail = spec_expand(db, sibs.drop_first(), arch, dir);
        if whole.contains(y) {
            let j = choose|j: int| 0 <= j < whole.len() && whole[j] == y;
            if j < head.len() {
                assert(head[j] == y);
                assert(head.contains(y));
            } else {
                assert(tail[j - head.len()] == y);
                assert(tail.contains(y));
                let k = choose|k: int|
                    0 <= k < sibs.drop_first().len() && (#[trigger] package_contrib(
                        db,
                        spec_key(sibs.drop_first()[k], arch),
                        dir,
                    )).contains(y);
                assert(sibs.drop_first()[k] == sibs[k + 1]);
                assert(package_contrib(db, spec_key(sibs[k + 1], arch), dir).contains(y));
            }
        }
        if exists|k: int|
            0 <= k < sibs.len() && (#[trigger] package_contrib(
                db,
                spec_key(sibs[k], arch),
                dir,
            )).contains(y) {
            let k = choose|k: int|
                0 <= k < sibs.len() && (#[trigger] package_contrib(
                    db,
                    spec_key(sibs[k], arch),
                    dir,
                )).contains(y);
            if k == 0 {
                let j = choose|j: int| 0 <= j < head.len() && head[j] == y;
                assert(whole[j] == y);
                assert(whole.contains(y));
            } else {
                assert(sibs.drop_first()[k - 1] == sibs[k]);
                assert(package_contrib(db, spec_key(sibs.drop_first()[k - 1], arch), dir).contains(
                    y,
                ));
                assert(tail.contains(y));
                let j = choose|j: int| 0 <= j < tail.len() && tail[j] == y;
                assert(whole[head.len() + j] == y);
                assert(whole.contains(y));
            }
        }
    }
}

/// A name belongs to the result of a query exactly when some sibling of the
/// queried package, looked up under the architecture, leads to a record that
/// contributes it.
pub open spec fn result_member(
    db: PackageDb,
    record_text: Seq<u8>,
    arch: Seq<u8>,
    dir: Direction,
    y: Seq<u8>,
) -> bool {
    exists|s: Seq<u8>|
        sibling_entries(record_text).contains(s) && (#[trigger] package_contrib(
            db,
            spec_key(s, arch),
            dir,
        )).contains(y)
}

/// The whole pipeline on plain values. `op` is the requested operation name,
/// `invoked` and `stderr` describe the query-tool invocation, `record_text`
/// is its captured standard output, and the snapshot and architecture drive
/// the expansion. On success the sorted, deduplicated result lines and the
/// exact bytes to persist come back; every fatal error is returned exactly
/// when its cause is present, the operation being checked first.
pub fn run_pipeline(
    db: &PackageDb,
    op: &[u8],
    invoked: bool,
    stderr: &[u8],
    record_text: &[u8],
    arch: &[u8],
) -> (r: Result<(Vec<Vec<u8>>, Vec<u8>), QueryError>)
    requires
        db_wf(*db),
    ensures
        match r {
            Ok(out) => {
                &&& spec_parse_operation(op@) matches Ok(dir) && {
                    &&& spec_classify_query(invoked, stderr@) == Ok::<(), QueryError>(())
                    &&& strict_sorted(views(out.0@))
                    &&& forall|y: Seq<u8>|
                        views(out.0@).contains(y) <==> result_member(
                            *db,
                            record_text@,
                            arch@,
                            dir,
                            y,
                        )
                    &&& forall|y: Seq<u8>| views(out.0@).contains(y) ==> name_ok(y)
                    &&& out.1@ == join_with(views(out.0@), nl())
                }
            },
            Err(e) => {
                ||| spec_parse_operation(op@) == Err::<Direction, QueryError>(e)
                ||| (spec_parse_operation(op@) is Ok && spec_classify_query(invoked, stderr@)
                    == Err::<(), QueryError>(e))
            },
        },
{
    let dir = match parse_operation(op) {
        Ok(d) => d,
        Err(e) => {
            return Err(e);
        },
    };
    match classify_query(invoked, stderr) {
        Ok(()) => {},
        Err(e) => {
            return Err(e);
        },
    }
    let sibs = resolve_siblings(record_text);
    let expanded = expand(db, &sibs, arch, dir);
    proof {
        crate::expand::lemma_expand_names_ok(*db, views(sibs@), arch@, dir);
    }
    let (lines, bytes) = render_result(expanded);
    proof {
        assert forall|y: Seq<u8>| views(lines@).contains(y) implies result_member(
            *db,
            record_text@,
            arch@,
            dir,
            y,
        ) by {
            lemma_expand_membership(*db, views(sibs@), arch@, dir, y);
            let k = choose|k: int|
                0 <= k < views(sibs@).len() && (#[trigger] package_contrib(
                    *db,
                    spec_key(views(sibs@)[k], arch@),
                    dir,
                )).contains(y);
            assert(views(sibs@).contains(views(sibs@)[k]));
            assert(sibling_entries(record_text@).contains(views(sibs@)[k]));
        }
        assert forall|y: Seq<u8>| result_member(*db, record_text@, arch@, dir, y) implies views(
            lines@,
        ).contains(y) by {
            let s = choose|s: Seq<u8>|
                sibling_entries(record_text@).contains(s) && (#[trigger] package_contrib(
                    *db,
                    spec_key(s, arch@),
                    dir,
                )).contains(y);
            assert(views(sibs@).contains(s));
            let k = choose|k: int| 0 <= k < views(sibs@).len() && views(sibs@)[k] == s;
            lemma_expand_membership(*db, views(sibs@), arch@, dir, y);
            assert(package_contrib(*db, spec_key(views(sibs@)[k], arch@), dir).contains(y));
        }
    }
    Ok((lines, bytes))
}

} // verus!
