//! The source-sibling resolver: from the line-oriented text of a source
//! package record, extract the names listed in its `Binary:` field — the
//! binary packages built from the same source package.

use vstd::prelude::*;

use crate::text::{
    is_ws, lemma_split_on_len, remove_ws, sort_dedup, spec_starts_with, split_bytes, split_on,
    starts_with, strict_sorted, strip_ws, views,
};

verus! {

/// The newline byte, the record's line separator.
pub open spec fn nl() -> u8 {
    10u8
}

/// The comma byte, the field's entry separator.
pub open spec fn comma() -> u8 {
    44u8
}

/// The bytes of the field label `Binary:`.
pub open spec fn binary_label() -> Seq<u8> {
    seq![66u8, 105u8, 110u8, 97u8, 114u8, 121u8, 58u8]
}

/// Executable copy of the `Binary:` label.
pub fn binary_label_bytes() -> (v: Vec<u8>)
    ensures
        v@ == binary_label(),
{
    let mut v: Vec<u8> = Vec::new();
    v.push(66);
    v.push(105);
    v.push(110);
    v.push(97);
    v.push(114);
    v.push(121);
    v.push(58);
    proof {
        assert(v@ =~= binary_label());
    }
    v
}

/// The first of `lines` that starts with `p`, if any.
pub open spec fn first_with_prefix(lines: Seq<Seq<u8>>, p: Seq<u8>) -> Option<Seq<u8>>
    decreases lines.len(),
{
    if lines.len() == 0 {
        None
    } else if spec_starts_with(lines[0], p) {
        Some(lines[0])
    } else {
        first_with_prefix(lines.drop_first(), p)
    }
}

/// A name is well formed when it is non-empty and holds no whitespace.
pub open spec fn name_ok(n: Seq<u8>) -> bool {
    n.len() > 0 && forall|i: int| 0 <= i < n.len() ==> !is_ws(#[trigger] n[i])
}

/// The entries of a `Binary:` line: the label is stripped, all whitespace is
/// removed, the remainder is split on commas, and empty entries are dropped.
pub open spec fn field_entries(l: Seq<u8>) -> Seq<Seq<u8>> {
    split_on(strip_ws(l.skip(binary_label().len() as int)), comma()).filter(
        |e: Seq<u8>| e.len() > 0,
    )
}

/// The sibling entries of a whole record: those of its first `Binary:` line,
/// or none when no such line is present.
pub open spec fn sibling_entries(out: Seq<u8>) -> Seq<Seq<u8>> {
    match first_with_prefix(split_on(out, nl()), binary_label()) {
        Some(l) => field_entries(l),
        None => Seq::empty(),
    }
}

/// Every part of a split of whitespace-free input is itself whitespace-free.
proof fn lemma_split_parts_ws_free(s: Seq<u8>, d: u8)
    requires
        forall|i: int| 0 <= i < s.len() ==> !is_ws(#[trigger] s[i]),
    ensures
        forall|k: int, i: int|
            0 <= k < split_on(s, d).len() && 0 <= i < split_on(s, d)[k].len() ==> !is_ws(
                #[trigger] split_on(s, d)[k][i],
            ),
    decreases s.len(),
{
    if s.len() > 0 {
        assert(forall|i: int|
            0 <= i < s.drop_first().len() ==> s.drop_first()[i] == s[i + 1] && !is_ws(
                #[trigger] s.drop_first()[i],
            ));
        lemma_split_parts_ws_free(s.drop_first(), d);
        let rest = split_on(s.drop_first(), d);
        lemma_split_on_len(s.drop_first(), d);
        if s[0] == d {
            assert forall|k: int, i: int|
                0 <= k < split_on(s, d).len() && 0 <= i < split_on(s, d)[k].len() implies !is_ws(
                #[trigger] split_on(s, d)[k][i],
            ) by {
                if k > 0 {
                    assert(split_on(s, d)[k] == rest[k - 1]);
                    assert(!is_ws(rest[k - 1][i]));
                }
            }
        } else {
            assert forall|k: int, i: int|
                0 <= k < split_on(s, d).len() && 0 <= i < split_on(s, d)[k].len() implies !is_ws(
                #[trigger] split_on(s, d)[k][i],
            ) by {
                if k == 0 {
                    assert(split_on(s, d)[0] == seq![s[0]] + rest[0]);
                    if i > 0 {
                        assert((seq![s[0]] + rest[0])[i] == rest[0][i - 1]);
                    }
                } else {
                    assert(split_on(s, d)[k] == rest.drop_first()[k - 1]);
                    assert(rest.drop_first()[k - 1] == rest[k]);
                    assert(!is_ws(rest[k][i]));
                }
            }
        }
    }
}

/// Filtering keeps any property that every element of the input has.
proof fn lemma_filter_preserves_all(
    s: Seq<Seq<u8>>,
    pred: spec_fn(Seq<u8>) -> bool,
    q: spec_fn(Seq<u8>) -> bool,
)
    requires
        forall|i: int| 0 <= i < s.len() ==> q(#[trigger] s[i]),
    ensures
        forall|i: int| 0 <= i < s.filter(pred).len() ==> q(#[trigger] s.filter(pred)[i]),
    decreases s.len(),
{
    reveal(Seq::filter);
    if s.len() > 0 {
        assert(forall|i: int|
            0 <= i < s.drop_last().len() ==> q(#[trigger] s.drop_last()[i]));
        lemma_filter_preserves_all(s.drop_last(), pred, q);
        let prior = s.drop_last().filter(pred);
        assert forall|i: int| 0 <= i < s.filter(pred).len() implies q(
            #[trigger] s.filter(pred)[i],
        ) by {
            if pred(s.last()) {
                if i < prior.len() {
                    assert(s.filter(pred)[i] == prior[i]);
                } else {
                    assert(s.filter(pred)[i] == s.last());
                    assert(q(s[s.len() - 1]));
                }
            } else {
                assert(s.filter(pred)[i] == prior[i]);
            }
        }
    }
}

/// Every sibling entry is a well-formed name.
pub proof fn lemma_sibling_entries_ok(out: Seq<u8>)
    ensures
        forall|y: Seq<u8>| sibling_entries(out).contains(y) ==> name_ok(y),
{
    match first_with_prefix(split_on(out, nl()), binary_label()) {
        Some(l) => {
            let stripped = strip_ws(l.skip(binary_label().len() as int));
            let parts = split_on(stripped, comma());
            let kept = parts.filter(|e: Seq<u8>| e.len() > 0);
            assert forall|i: int| 0 <= i < stripped.len() implies !is_ws(
                #[trigger] stripped[i],
            ) by {
                l.skip(binary_label().len() as int).lemma_filter_pred(|b: u8| !is_ws(b), i);
            }
            lemma_split_parts_ws_free(stripped, comma());
            let q = |e: Seq<u8>| forall|i: int| 0 <= i < e.len() ==> !is_ws(#[trigger] e[i]);
            assert forall|k: int| 0 <= k < parts.len() implies q(#[trigger] parts[k]) by {
                assert(forall|i: int|
                    0 <= i < parts[k].len() ==> !is_ws(#[trigger] parts[k][i]));
            }
            lemma_filter_preserves_all(parts, |e: Seq<u8>| e.len() > 0, q);
            assert forall|y: Seq<u8>| kept.contains(y) implies name_ok(y) by {
                let k = choose|k: int| 0 <= k < kept.len() && kept[k] == y;
                parts.lemma_filter_pred(|e: Seq<u8>| e.len() > 0, k);
                assert(q(kept[k]));
            }
        },
        None => {},
    }
}

/// Resolve the sibling set of a record: the sorted, deduplicated, well-formed
/// entries of its first `Binary:` line. A record with no such line yields the
/// empty set.
pub fn resolve_siblings(out: &[u8]) -> (r: Vec<Vec<u8>>)
    ensures
        strict_sorted(views(r@)),
        forall|y: Seq<u8>| views(r@).contains(y) <==> sibling_entries(out@).contains(y),
        forall|y: Seq<u8>| views(r@).contains(y) ==> name_ok(y),
{
    let lines = split_bytes(out, 10);
    let label = binary_label_bytes();
    let mut li: usize = 0;
    let ghost all_lines = views(lines@);
    let mut found: Option<Vec<u8>> = None;
    proof {
        assert(all_lines.skip(0) =~= all_lines);
    }
    while li < lines.len() && found.is_none()
        invariant
            0 <= li <= lines.len(),
            all_lines == views(lines@),
            label@ == binary_label(),
            match found {
                Some(l) => first_with_prefix(all_lines, binary_label()) == Some(l@)
                    && spec_starts_with(l@, binary_label()),
                None => first_with_prefix(all_lines, binary_label()) == first_with_prefix(
                    all_lines.skip(li as int),
                    binary_label(),
                ),
            },
        decreases lines.len() - li + (if found.is_none() { 1int } else { 0int }),
    {
        if starts_with(lines[li].as_slice(), label.as_slice()) {
            found = Some(lines[li].clone());
            proof {
                assert(all_lines.skip(li as int)[0] == all_lines[li as int]);
            }
        } else {
            proof {
                assert(all_lines.skip(li as int).drop_first() =~= all_lines.skip(li as int + 1));
                assert(all_lines.skip(li as int)[0] == all_lines[li as int]);
            }
            li += 1;
        }
    }
    let line = match found {
        Some(l) => l,
        None => {
            proof {
                assert(views(lines@).skip(lines@.len() as int) =~= Seq::<Seq<u8>>::empty());
                lemma_sibling_entries_ok(out@);
            }
            let r: Vec<Vec<u8>> = Vec::new();
            proof {
                assert(views(r@) =~= Seq::<Seq<u8>>::empty());
            }
            return r;
        },
    };
    let tail = vstd::slice::slice_subrange(line.as_slice(), 7, line.len());
    proof {
        assert(line@.subrange(7, line@.len() as int) =~= line@.skip(binary_label().len() as int));
    }
    let stripped = remove_ws(tail);
    let parts = split_bytes(stripped.as_slice(), 44);
    let mut kept: Vec<Vec<u8>> = Vec::new();
    let mut pi: usize = 0;
    let ghost pv = views(parts@);
    proof {
        reveal(Seq::filter);
        assert(pv.take(0) =~= Seq::<Seq<u8>>::empty());
    }
    while pi < parts.len()
        invariant
            0 <= pi <= parts.len(),
            pv == views(parts@),
            views(kept@) == pv.take(pi as int).filter(|e: Seq<u8>| e.len() > 0),
        decreases parts.len() - pi,
    {
        proof {
            reveal(Seq::filter);
            assert(pv.take(pi + 1).drop_last() =~= pv.take(pi as int));
            assert(pv.take(pi + 1).last() == pv[pi as int]);
        }
        if parts[pi].len() > 0 {
            let ghost pre = views(kept@);
            let p = parts[pi].clone();
            kept.push(p);
            proof {
                assert(views(kept@) =~= pre.push(pv[pi as int]));
            }
        }
        pi += 1;
    }
    proof {
        assert(pv.take(pv.len() as int) =~= pv);
        lemma_sibling_entries_ok(out@);
    }
    sort_dedup(kept)
}

} // verus!
