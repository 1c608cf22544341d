//! The dependency expander: an in-memory, read-only snapshot of the package
//! database, and the walk that turns each sibling binary package into the
//! source packages behind its resolved dependencies.

use vstd::prelude::*;

use crate::query::Direction;
use crate::siblings::name_ok;
use crate::text::{bytes_eq, views};

verus! {

/// One alternative target of a dependency relation.
pub struct DepTarget {
    /// The source package declared by the target's currently selected
    /// candidate version, or `None` when the target has no installable
    /// candidate (an unsatisfiable or virtual dependency with no provider).
    pub candidate_source: Option<Vec<u8>>,
}

/// One Depends-class relation: an ordered list of alternative targets, of
/// which only the first is consulted.
pub struct DepRelation {
    pub alternatives: Vec<DepTarget>,
}

/// One package record of the snapshot.
pub struct PackageRecord {
    /// The Depends-class relations of the record's candidate version, or
    /// `None` when the package has no installation candidate; such a package
    /// contributes nothing in the forward direction.
    pub candidate_depends: Option<Vec<DepRelation>>,
    /// The Depends-class relations that other packages declare on this one.
    pub reverse_depends: Vec<DepRelation>,
}

/// The package database snapshot: qualified name to record, loaded once per
/// invocation and read-only.
pub struct PackageDb {
    pub entries: Vec<(Vec<u8>, PackageRecord)>,
}

/// A well-formed relation names only well-formed source packages.
pub open spec fn rel_wf(r: DepRelation) -> bool {
    forall|i: int|
        0 <= i < r.alternatives@.len() ==> ((#[trigger] r.alternatives@[i]).candidate_source
            matches Some(n) ==> name_ok(n@))
}

/// A well-formed record carries only well-formed relations.
pub open spec fn record_wf(rec: PackageRecord) -> bool {
    &&& (rec.candidate_depends matches Some(rs) ==> forall|i: int|
        0 <= i < rs@.len() ==> rel_wf(#[trigger] rs@[i]))
    &&& forall|i: int| 0 <= i < rec.reverse_depends@.len() ==> rel_wf(#[trigger] rec.reverse_depends@[i])
}

/// A well-formed snapshot carries only well-formed records.
pub open spec fn db_wf(db: PackageDb) -> bool {
    forall|i: int| 0 <= i < db.entries@.len() ==> record_wf((#[trigger] db.entries@[i]).1)
}

/// The record stored under `key`, if any.
pub open spec fn spec_lookup(entries: Seq<(Vec<u8>, PackageRecord)>, key: Seq<u8>) -> Option<
    PackageRecord,
>
    decreases entries.len(),
{
    if entries.len() == 0 {
        None
    } else if entries[0].0@ == key {
        Some(entries[0].1)
    } else {
        spec_lookup(entries.drop_first(), key)
    }
}

/// Executable lookup by qualified name.
pub fn lookup<'a>(db: &'a PackageDb, key: &[u8]) -> (r: Option<&'a PackageRecord>)
    ensures
        match r {
            Some(rec) => spec_lookup(db.entries@, key@) == Some(*rec),
            None => spec_lookup(db.entries@, key@) is None,
        },
{
    let mut i: usize = 0;
    proof {
        assert(db.entries@.skip(0) =~= db.entries@);
    }
    while i < db.entries.len()
        invariant
            0 <= i <= db.entries@.len(),
            spec_lookup(db.entries@, key@) == spec_lookup(db.entries@.skip(i as int), key@),
        decreases db.entries@.len() - i,
    {
        proof {
            assert(db.entries@.skip(i as int)[0] == db.entries@[i as int]);
            assert(db.entries@.skip(i as int).drop_first() =~= db.entries@.skip(i as int + 1));
        }
        if bytes_eq(db.entries[i].0.as_slice(), key) {
            return Some(&db.entries[i].1);
        }
        i += 1;
    }
    proof {
        assert(db.entries@.skip(db.entries@.len() as int) =~= Seq::<(Vec<u8>, PackageRecord)>::empty());
    }
    None
}

/// The bytes of the architecture sentinel `all`.
pub open spec fn arch_all() -> Seq<u8> {
    seq![97u8, 108u8, 108u8]
}

/// Executable copy of the sentinel `all`.
pub fn arch_all_bytes() -> (v: Vec<u8>)
    ensures
        v@ == arch_all(),
{
    let mut v: Vec<u8> = Vec::new();
    v.push(97);
    v.push(108);
    v.push(108);
    proof {
        assert(v@ =~= arch_all());
    }
    v
}

/// The lookup key for a sibling under an architecture: the bare name under the
/// sentinel `all`, and `name:arch` otherwise.
pub open spec fn spec_key(name: Seq<u8>, arch: Seq<u8>) -> Seq<u8> {
    if arch == arch_all() {
        name
    } else {
        name + seq![58u8] + arch
    }
}

/// The sentinel `all` qualifies nothing: the key it builds is the bare name,
/// so every lookup made under it is the lookup made with no architecture at
/// all.
pub proof fn lemma_key_all_unqualified(name: Seq<u8>)
    ensures
        spec_key(name, arch_all()) == name,
{
}

/// Append a whole slice.
fn push_all(v: &mut Vec<u8>, s: &[u8])
    ensures
        final(v)@ == old(v)@ + s@,
{
    let mut i: usize = 0;
    proof {
        assert(old(v)@ + s@.take(0) =~= old(v)@);
    }
    while i < s.len()
        invariant
            0 <= i <= s.len(),
            v@ == old(v)@ + s@.take(i as int),
        decreases s.len() - i,
    {
        let b = s[i];
        v.push(b);
        proof {
            assert(old(v)@ + s@.take(i + 1) =~= (old(v)@ + s@.take(i as int)).push(s@[i as int]));
        }
        i += 1;
    }
    proof {
        assert(s@.take(s@.len() as int) =~= s@);
    }
}

/// Build the lookup key for a sibling name under an architecture.
pub fn make_key(name: &[u8], arch: &[u8]) -> (r: Vec<u8>)
    ensures
        r@ == spec_key(name@, arch@),
{
    let all = arch_all_bytes();
    let mut r: Vec<u8> = Vec::new();
    if bytes_eq(arch, all.as_slice()) {
        push_all(&mut r, name);
        proof {
            assert(Seq::<u8>::empty() + name@ =~= name@);
        }
        return r;
    }
    push_all(&mut r, name);
    r.push(58);
    push_all(&mut r, arch);
    proof {
        assert((Seq::<u8>::empty() + name@).push(58u8) + arch@ =~= name@ + seq![58u8] + arch@);
    }
    r
}

/// What one relation contributes: the source package of its first
/// alternative's candidate, or nothing when there is no alternative or no
/// candidate.
pub open spec fn rel_contrib(r: DepRelation) -> Seq<Seq<u8>> {
    if r.alternatives@.len() > 0 && r.alternatives@[0].candidate_source.is_some() {
        seq![r.alternatives@[0].candidate_source.unwrap()@]
    } else {
        Seq::empty()
    }
}

/// What a list of relations contributes, in order.
pub open spec fn rels_contrib(rs: Seq<DepRelation>) -> Seq<Seq<u8>>
    decreases rs.len(),
{
    if rs.len() == 0 {
        Seq::empty()
    } else {
        rel_contrib(rs[0]) + rels_contrib(rs.drop_first())
    }
}

/// What one record contributes in a direction. A package with no candidate
/// version contributes nothing in the forward direction; it is skipped, not
/// an error.
pub open spec fn record_contrib(rec: PackageRecord, dir: Direction) -> Seq<Seq<u8>> {
    match dir {
        Direction::Reverse => rels_contrib(rec.reverse_depends@),
        Direction::Forward => match rec.candidate_depends {
            Some(rs) => rels_contrib(rs@),
            None => Seq::empty(),
        },
    }
}

/// What the package stored under `key` contributes; a key absent from the
/// snapshot contributes nothing.
pub open spec fn package_contrib(db: PackageDb, key: Seq<u8>, dir: Direction) -> Seq<Seq<u8>> {
    match spec_lookup(db.entries@, key) {
        Some(rec) => record_contrib(rec, dir),
        None => Seq::empty(),
    }
}

/// What all siblings contribute under an architecture, in order.
pub open spec fn spec_expand(
    db: PackageDb,
    sibs: Seq<Seq<u8>>,
    arch: Seq<u8>,
    dir: Direction,
) -> Seq<Seq<u8>>
    decreases sibs.len(),
{
    if sibs.len() == 0 {
        Seq::empty()
    } else {
        package_contrib(db, spec_key(sibs[0], arch), dir) + spec_expand(
            db,
            sibs.drop_first(),
            arch,
            dir,
        )
    }
}

/// Expansion with no architecture qualification: each sibling name is looked
/// up bare.
pub open spec fn spec_expand_unqualified(
    db: PackageDb,
    sibs: Seq<Seq<u8>>,
    dir: Direction,
) -> Seq<Seq<u8>>
    decreases sibs.len(),
{
    if sibs.len() == 0 {
        Seq::empty()
    } else {
        package_contrib(db, sibs[0], dir) + spec_expand_unqualified(db, sibs.drop_first(), dir)
    }
}

/// Expanding under the sentinel `all` is expanding with no architecture
/// qualification, for every snapshot, sibling set and direction.
pub proof fn lemma_expand_all_unqualified(db: PackageDb, sibs: Seq<Seq<u8>>, dir: Direction)
    ensures
        spec_expand(db, sibs, arch_all(), dir) == spec_expand_unqualified(db, sibs, dir),
    decreases sibs.len(),
{
    if sibs.len() > 0 {
        lemma_expand_all_unqualified(db, sibs.drop_first(), dir);
    }
}

/// Append what one record contributes.
fn expand_record(acc: &mut Vec<Vec<u8>>, rec: &PackageRecord, dir: Direction)
    ensures
        views(final(acc)@) == views(old(acc)@) + record_contrib(*rec, dir),
{
    let rels: &Vec<DepRelation> = match dir {
        Direction::Reverse => &rec.reverse_depends,
        Direction::Forward => {
            match &rec.candidate_depends {
                Some(rs) => rs,
                None => {
                    proof {
                        assert(views(acc@) =~= views(acc@) + Seq::<Seq<u8>>::empty());
                    }
                    return ;
                },
            }
        },
    };
    let mut i: usize = 0;
    proof {
        assert(rels@.skip(0) =~= rels@);
        assert(views(acc@) + rels_contrib(rels@.skip(0)) =~= views(old(acc)@) + rels_contrib(
            rels@,
        ));
    }
    while i < rels.len()
        invariant
            0 <= i <= rels@.len(),
            record_contrib(*rec, dir) == rels_contrib(rels@),
            views(acc@) + rels_contrib(rels@.skip(i as int)) == views(old(acc)@) + rels_contrib(
                rels@,
            ),
        decreases rels@.len() - i,
    {
        proof {
            assert(rels@.skip(i as int)[0] == rels@[i as int]);
            assert(rels@.skip(i as int).drop_first() =~= rels@.skip(i as int + 1));
        }
        let ghost pre = views(acc@);
        let rel = &rels[i];
        if rel.alternatives.len() > 0 {
            match &rel.alternatives[0].candidate_source {
                Some(n) => {
                    acc.push(n.clone());
                    proof {
                        assert(views(acc@) =~= pre.push(n@));
                        assert(pre.push(n@) + rels_contrib(rels@.skip(i as int + 1)) =~= pre + (
                        rel_contrib(rels@[i as int]) + rels_contrib(rels@.skip(i as int + 1))));
                    }
                },
                None => {
                    proof {
                        assert(pre + rels_contrib(rels@.skip(i as int + 1)) =~= pre + (rel_contrib(
                            rels@[i as int],
                        ) + rels_contrib(rels@.skip(i as int + 1))));
                    }
                },
            }
        } else {
            proof {
                assert(pre + rels_contrib(rels@.skip(i as int + 1)) =~= pre + (rel_contrib(
                    rels@[i as int],
                ) + rels_contrib(rels@.skip(i as int + 1))));
            }
        }
        i += 1;
    }
    proof {
        assert(rels@.skip(rels@.len() as int) =~= Seq::<DepRelation>::empty());
        assert(views(acc@) + Seq::<Seq<u8>>::empty() =~= views(acc@));
    }
}

/// Expand every sibling into the source packages behind its resolved
/// dependencies, in the given direction, under the given architecture.
/// A sibling absent from the snapshot, and a dependency with no installable
/// candidate, contribute nothing.
pub fn expand(db: &PackageDb, sibs: &Vec<Vec<u8>>, arch: &[u8], dir: Direction) -> (r: Vec<
    Vec<u8>,
>)
    ensures
        views(r@) == spec_expand(*db, views(sibs@), arch@, dir),
{
    let mut acc: Vec<Vec<u8>> = Vec::new();
    let ghost sv = views(sibs@);
    let mut i: usize = 0;
    proof {
        assert(sv.skip(0) =~= sv);
        assert(views(acc@) + spec_expand(*db, sv.skip(0), arch@, dir) =~= spec_expand(
            *db,
            sv,
            arch@,
            dir,
        ));
    }
    while i < sibs.len()
        invariant
            0 <= i <= sibs@.len(),
            sv == views(sibs@),
            views(acc@) + spec_expand(*db, sv.skip(i as int), arch@, dir) == spec_expand(
                *db,
                sv,
                arch@,
                dir,
            ),
        decreases sibs@.len() - i,
    {
        proof {
            assert(sv.skip(i as int)[0] == sv[i as int]);
            assert(sv.skip(i as int).drop_first() =~= sv.skip(i as int + 1));
        }
        let key = make_key(sibs[i].as_slice(), arch);
        let ghost pre = views(acc@);
        match lookup(db, key.as_slice()) {
            Some(rec) => {
                expand_record(&mut acc, rec, dir);
                proof {
                    assert(views(acc@) + spec_expand(*db, sv.skip(i as int + 1), arch@, dir) =~= pre
                        + (package_contrib(*db, spec_key(sv[i as int], arch@), dir) + spec_expand(
                        *db,
                        sv.skip(i as int + 1),
                        arch@,
                        dir,
                    )));
                }
            },
            None => {
                proof {
                    assert(pre + spec_expand(*db, sv.skip(i as int + 1), arch@, dir) =~= pre + (
                    package_contrib(*db, spec_key(sv[i as int], arch@), dir) + spec_expand(
                        *db,
                        sv.skip(i as int + 1),
                        arch@,
                        dir,
                    )));
                }
            },
        }
        i += 1;
    }
    proof {
        assert(sv.skip(sv.len() as int) =~= Seq::<Seq<u8>>::empty());
        assert(views(acc@) + Seq::<Seq<u8>>::empty() =~= views(acc@));
    }
    acc
}

/// Everything a well-formed snapshot contributes is a well-formed name.
pub proof fn lemma_expand_names_ok(db: PackageDb, sibs: Seq<Seq<u8>>, arch: Seq<u8>, dir: Direction)
    requires
        db_wf(db),
    ensures
        forall|y: Seq<u8>| spec_expand(db, sibs, arch, dir).contains(y) ==> name_ok(y),
    decreases sibs.len(),
{
    if sibs.len() > 0 {
        lemma_expand_names_ok(db, sibs.drop_first(), arch, dir);
        lemma_package_contrib_names_ok(db, spec_key(sibs[0], arch), dir);
        assert forall|y: Seq<u8>| spec_expand(db, sibs, arch, dir).contains(y) implies name_ok(
            y,
        ) by {
            let whole = spec_expand(db, sibs, arch, dir);
            let head = package_contrib(db, spec_key(sibs[0], arch), dir);
            let tail = spec_expand(db, sibs.drop_first(), arch, dir);
            let k = choose|k: int| 0 <= k < whole.len() && whole[k] == y;
            if k < head.len() {
                assert(head.contains(y));
            } else {
                assert(tail[k - head.len()] == y);
                assert(tail.contains(y));
            }
        }
    }
}

/// Everything one key contributes from a well-formed snapshot is well formed.
proof fn lemma_package_contrib_names_ok(db: PackageDb, key: Seq<u8>, dir: Direction)
    requires
        db_wf(db),
    ensures
        forall|y: Seq<u8>| package_contrib(db, key, dir).contains(y) ==> name_ok(y),
{
    match spec_lookup(db.entries@, key) {
        Some(rec) => {
            lemma_lookup_found_wf(db.entries@, key);
            match dir {
                Direction::Reverse => {
                    lemma_rels_contrib_names_ok(rec.reverse_depends@);
                },
                Direction::Forward => {
                    match rec.candidate_depends {
                        Some(rs) => {
                            lemma_rels_contrib_names_ok(rs@);
                        },
                        None => {},
                    }
                },
            }
        },
        None => {},
    }
}

/// A record found in a well-formed snapshot is well formed.
proof fn lemma_lookup_found_wf(entries: Seq<(Vec<u8>, PackageRecord)>, key: Seq<u8>)
    requires
        forall|i: int| 0 <= i < entries.len() ==> record_wf((#[trigger] entries[i]).1),
    ensures
        spec_lookup(entries, key) matches Some(rec) ==> record_wf(rec),
    decreases entries.len(),
{
    if entries.len() > 0 && entries[0].0@ != key {
        assert(forall|i: int|
            0 <= i < entries.drop_first().len() ==> (#[trigger] entries.drop_first()[i])
                == entries[i + 1]);
        lemma_lookup_found_wf(entries.drop_first(), key);
    }
}

/// Well-formed relations contribute only well-formed names.
proof fn lemma_rels_contrib_names_ok(rs: Seq<DepRelation>)
    requires
        forall|i: int| 0 <= i < rs.len() ==> rel_wf(#[trigger] rs[i]),
    ensures
        forall|y: Seq<u8>| rels_contrib(rs).contains(y) ==> name_ok(y),
    decreases rs.len(),
{
    if rs.len() > 0 {
        assert(forall|i: int|
            0 <= i < rs.drop_first().len() ==> (#[trigger] rs.drop_first()[i]) == rs[i + 1]);
        lemma_rels_contrib_names_ok(rs.drop_first());
        assert forall|y: Seq<u8>| rels_contrib(rs).contains(y) implies name_ok(y) by {
            let whole = rels_contrib(rs);
            let head = rel_contrib(rs[0]);
            let tail = rels_contrib(rs.drop_first());
            let k = choose|k: int| 0 <= k < whole.len() && whole[k] == y;
            if k < head.len() {
                assert(head.len() == 1 && y == head[0]);
                assert(rel_wf(rs[0]));
                assert(rs[0].alternatives@[0].candidate_source matches Some(n) ==> name_ok(n@));
            } else {
                assert(tail[k - head.len()] == y);
                assert(tail.contains(y));
            }
        }
    }
}

} // verus!
