//! Byte-level text utilities: whitespace, prefix tests, substring search,
//! lexicographic order, and sorted deduplication.

use vstd::prelude::*;

verus! {

/// The whitespace bytes that the package index's text fields may carry.
pub open spec fn is_ws(b: u8) -> bool {
    b == 32 || b == 9 || b == 10 || b == 11 || b == 12 || b == 13
}

/// Executable test for `is_ws`.
pub fn byte_is_ws(b: u8) -> (r: bool)
    ensures
        r == is_ws(b),
{
    b == 32 || b == 9 || b == 10 || b == 11 || b == 12 || b == 13
}

/// Byte-for-byte equality of two slices.
pub fn bytes_eq(a: &[u8], b: &[u8]) -> (r: bool)
    ensures
        r == (a@ == b@),
{
    if a.len() != b.len() {
        assert(a@ != b@) by {
            assert(a@.len() != b@.len());
        }
        return false;
    }
    let mut i: usize = 0;
    while i < a.len()
        invariant
            0 <= i <= a.len(),
            a.len() == b.len(),
            forall|k: int| 0 <= k < i ==> a@[k] == b@[k],
        decreases a.len() - i,
    {
        if a[i] != b[i] {
            return false;
        }
        i += 1;
    }
    assert(a@ =~= b@);
    true
}

/// Does `s` start with `p`?
pub open spec fn spec_starts_with(s: Seq<u8>, p: Seq<u8>) -> bool {
    p.len() <= s.len() && s.subrange(0, p.len() as int) == p
}

/// Executable prefix test.
pub fn starts_with(s: &[u8], p: &[u8]) -> (r: bool)
    ensures
        r == spec_starts_with(s@, p@),
{
    if p.len() > s.len() {
        return false;
    }
    let mut i: usize = 0;
    while i < p.len()
        invariant
            0 <= i <= p.len() <= s.len(),
            forall|k: int| 0 <= k < i ==> s@[k] == p@[k],
        decreases p.len() - i,
    {
        if s[i] != p[i] {
            assert(s@.subrange(0, p@.len() as int)[i as int] != p@[i as int]);
            return false;
        }
        i += 1;
    }
    assert(s@.subrange(0, p@.len() as int) =~= p@);
    true
}

/// Does `m` occur as a contiguous run inside `s`?
pub open spec fn is_substring(m: Seq<u8>, s: Seq<u8>) -> bool {
    exists|i: int|
        0 <= i && i + m.len() <= s.len() && #[trigger] s.subrange(i, i + m.len() as int) == m
}

/// Executable substring search.
pub fn contains_bytes(s: &[u8], m: &[u8]) -> (r: bool)
    ensures
        r == is_substring(m@, s@),
{
    if m.len() > s.len() {
        return false;
    }
    if m.len() == 0 {
        assert(s@.subrange(0, 0 + m@.len() as int) =~= m@);
        return true;
    }
    let mut i: usize = 0;
    while i <= s.len() - m.len()
        invariant
            0 < m.len() <= s.len(),
            0 <= i <= s.len() - m.len() + 1,
            forall|k: int| 0 <= k < i ==> #[trigger] s@.subrange(k, k + m@.len() as int) != m@,
        decreases s.len() - m.len() + 1 - i,
    {
        let mut j: usize = 0;
        let mut hit = true;
        while hit && j < m.len()
            invariant
                0 <= j <= m.len(),
                i + m.len() <= s.len(),
                hit ==> forall|k: int| 0 <= k < j ==> s@[i + k] == m@[k],
                !hit ==> s@.subrange(i as int, i + m@.len() as int) != m@,
            decreases m.len() - j + (if hit { 1int } else { 0int }),
        {
            if s[i + j] != m[j] {
                assert(s@.subrange(i as int, i + m@.len() as int)[j as int] != m@[j as int]);
                hit = false;
            } else {
                j += 1;
            }
        }
        if hit {
            assert(s@.subrange(i as int, i + m@.len() as int) =~= m@);
            return true;
        }
        i += 1;
    }
    false
}

/// Strict lexicographic (bytewise) order on byte sequences: the order in
/// which result lines are emitted. A proper prefix sorts before its extensions.
pub open spec fn lex_lt(a: Seq<u8>, b: Seq<u8>) -> bool
    decreases a.len(),
{
    if b.len() == 0 {
        false
    } else if a.len() == 0 {
        true
    } else if a[0] < b[0] {
        true
    } else if a[0] > b[0] {
        false
    } else {
        lex_lt(a.drop_first(), b.drop_first())
    }
}

/// Two distinct byte sequences are strictly ordered one way or the other.
pub proof fn lemma_lex_connected(a: Seq<u8>, b: Seq<u8>)
    ensures
        a != b ==> lex_lt(a, b) || lex_lt(b, a),
    decreases a.len(),
{
    if a.len() == 0 && b.len() == 0 {
        assert(a =~= b);
    }
    if a.len() > 0 && b.len() > 0 && a[0] == b[0] {
        lemma_lex_connected(a.drop_first(), b.drop_first());
        if a.drop_first() == b.drop_first() {
            assert forall|i: int| 0 <= i < a.len() implies a[i] == b[i] by {
                if i > 0 {
                    assert(a.drop_first()[i - 1] == b.drop_first()[i - 1]);
                }
            }
            assert(a =~= b);
        }
    }
}

/// The order is irreflexive.
pub proof fn lemma_lex_irreflexive(a: Seq<u8>)
    ensures
        !lex_lt(a, a),
    decreases a.len(),
{
    if a.len() > 0 {
        lemma_lex_irreflexive(a.drop_first());
    }
}

/// The order is asymmetric.
pub proof fn lemma_lex_asymmetric(a: Seq<u8>, b: Seq<u8>)
    requires
        lex_lt(a, b),
    ensures
        !lex_lt(b, a),
    decreases a.len(),
{
    if a.len() > 0 && b.len() > 0 && a[0] == b[0] {
        lemma_lex_asymmetric(a.drop_first(), b.drop_first());
    }
}

/// The order is transitive.
pub proof fn lemma_lex_transitive(a: Seq<u8>, b: Seq<u8>, c: Seq<u8>)
    requires
        lex_lt(a, b),
        lex_lt(b, c),
    ensures
        lex_lt(a, c),
    decreases a.len(),
{
    if a.len() > 0 && b.len() > 0 && c.len() > 0 && a[0] == b[0] && b[0] == c[0] {
        lemma_lex_transitive(a.drop_first(), b.drop_first(), c.drop_first());
    }
}

/// Executable strict lexicographic comparison.
pub fn bytes_lt(a: &[u8], b: &[u8]) -> (r: bool)
    ensures
        r == lex_lt(a@, b@),
{
    let mut i: usize = 0;
    proof {
        assert(a@.skip(0) =~= a@);
        assert(b@.skip(0) =~= b@);
    }
    loop
        invariant
            0 <= i <= a.len(),
            i <= b.len(),
            lex_lt(a@, b@) == lex_lt(a@.skip(i as int), b@.skip(i as int)),
        decreases a.len() - i,
    {
        if i >= a.len() {
            return i < b.len();
        }
        if i >= b.len() {
            return false;
        }
        if a[i] < b[i] {
            return true;
        }
        if a[i] > b[i] {
            return false;
        }
        proof {
            assert(a@.skip(i as int).drop_first() =~= a@.skip(i as int + 1));
            assert(b@.skip(i as int).drop_first() =~= b@.skip(i as int + 1));
        }
        i += 1;
    }
}

/// The views of a sequence of byte vectors.
pub open spec fn views(s: Seq<Vec<u8>>) -> Seq<Seq<u8>> {
    s.map_values(|v: Vec<u8>| v@)
}

/// Strictly ascending in the lexicographic order; this entails that the
/// entries are pairwise distinct.
pub open spec fn strict_sorted(s: Seq<Seq<u8>>) -> bool {
    forall|i: int, j: int| 0 <= i < j < s.len() ==> lex_lt(s[i], s[j])
}

/// Insert `x` into a strictly sorted vector, keeping it strictly sorted;
/// an `x` already present is dropped.
pub fn insert_sorted(out: &mut Vec<Vec<u8>>, x: Vec<u8>)
    requires
        strict_sorted(views(old(out)@)),
    ensures
        strict_sorted(views(final(out)@)),
        forall|y: Seq<u8>|
            views(final(out)@).contains(y) <==> (views(old(out)@).contains(y) || y == x@),
{
    let mut p: usize = 0;
    while p < out.len() && bytes_lt(out[p].as_slice(), x.as_slice())
        invariant
            0 <= p <= out.len(),
            out@ == old(out)@,
            strict_sorted(views(out@)),
            forall|k: int| 0 <= k < p ==> lex_lt(views(out@)[k], x@),
        decreases out.len() - p,
    {
        p += 1;
    }
    if p < out.len() && bytes_eq(out[p].as_slice(), x.as_slice()) {
        proof {
            assert(views(out@)[p as int] == x@);
            assert(views(out@).contains(x@));
        }
        return;
    }
    proof {
        if p < out@.len() {
            lemma_lex_connected(views(out@)[p as int], x@);
        }
    }
    out.insert(p, x);
    proof {
        let new = views(out@);
        let prior = views(old(out)@);
        assert(new =~= prior.insert(p as int, x@));
        assert forall|i: int, j: int| 0 <= i < j < new.len() implies lex_lt(new[i], new[j]) by {
            if i < p && j == p {
                assert(new[i] == prior[i]);
            } else if i == p && j > p {
                assert(new[j] == prior[j - 1]);
                if p < prior.len() {
                    if lex_lt(x@, prior[p as int]) && p as int <= j - 1 && j - 1 > p as int {
                        lemma_lex_transitive(x@, prior[p as int], prior[j - 1]);
                    }
                }
            } else if i < p && j > p {
                assert(new[i] == prior[i]);
                assert(new[j] == prior[j - 1]);
            }
        }
        assert forall|y: Seq<u8>| new.contains(y) implies (prior.contains(y) || y == x@) by {
            let i = choose|i: int| 0 <= i < new.len() && new[i] == y;
            if i < p {
                assert(prior[i] == y);
            } else if i > p {
                assert(prior[i - 1] == y);
            }
        }
        assert forall|y: Seq<u8>| prior.contains(y) implies new.contains(y) by {
            let i = choose|i: int| 0 <= i < prior.len() && prior[i] == y;
            if i < p {
                assert(new[i] == y);
            } else {
                assert(new[i + 1] == y);
            }
        }
        assert(new[p as int] == x@);
        assert(new.contains(x@));
    }
}

/// Sort the given names lexicographically and drop duplicates: the result is
/// strictly sorted and holds exactly the names of the input.
pub fn sort_dedup(names: Vec<Vec<u8>>) -> (r: Vec<Vec<u8>>)
    ensures
        strict_sorted(views(r@)),
        forall|y: Seq<u8>| views(r@).contains(y) <==> views(names@).contains(y),
{
    let mut r: Vec<Vec<u8>> = Vec::new();
    let mut rest = names;
    let ghost all = views(rest@);
    let ghost mut done: Seq<Seq<u8>> = Seq::empty();
    while rest.len() > 0
        invariant
            strict_sorted(views(r@)),
            done + views(rest@) == all,
            forall|y: Seq<u8>| views(r@).contains(y) <==> done.contains(y),
        decreases rest.len(),
    {
        let ghost pre_rest = views(rest@);
        let x = rest.remove(0);
        proof {
            assert(views(rest@) =~= pre_rest.drop_first());
            assert(done.push(pre_rest[0]) + views(rest@) =~= all);
        }
        let ghost old_done = done;
        let ghost xv = x@;
        let ghost r_before = views(r@);
        proof {
            done = done.push(x@);
        }
        insert_sorted(&mut r, x);
        proof {
            assert forall|y: Seq<u8>| done.contains(y) implies views(r@).contains(y) by {
                let i = choose|i: int| 0 <= i < done.len() && done[i] == y;
                if i < old_done.len() {
                    assert(old_done[i] == y);
                    assert(old_done.contains(y));
                    assert(r_before.contains(y));
                } else {
                    assert(y == xv);
                }
            }
            assert forall|y: Seq<u8>| views(r@).contains(y) implies done.contains(y) by {
                if r_before.contains(y) {
                    assert(old_done.contains(y));
                    let i = choose|i: int| 0 <= i < old_done.len() && old_done[i] == y;
                    assert(done[i] == y);
                } else {
                    assert(y == xv);
                    assert(done[done.len() - 1] == y);
                }
            }
        }
    }
    proof {
        assert(done =~= views(names@));
    }
    r
}

/// `s` with every whitespace byte removed.
pub open spec fn strip_ws(s: Seq<u8>) -> Seq<u8> {
    s.filter(|b: u8| !is_ws(b))
}

/// Executable whitespace removal.
pub fn remove_ws(s: &[u8]) -> (r: Vec<u8>)
    ensures
        r@ == strip_ws(s@),
{
    let mut r: Vec<u8> = Vec::new();
    let mut i: usize = 0;
    proof {
        assert(s@.take(0) =~= Seq::<u8>::empty());
        reveal(Seq::filter);
    }
    while i < s.len()
        invariant
            0 <= i <= s.len(),
            r@ == s@.take(i as int).filter(|b: u8| !is_ws(b)),
        decreases s.len() - i,
    {
        let b = s[i];
        proof {
            reveal(Seq::filter);
            assert(s@.take(i + 1).drop_last() =~= s@.take(i as int));
            assert(s@.take(i + 1).last() == s@[i as int]);
        }
        if !byte_is_ws(b) {
            r.push(b);
        }
        i += 1;
    }
    proof {
        assert(s@.take(s@.len() as int) =~= s@);
    }
    r
}

/// Split `s` on the delimiter `d`. The result always has at least one part;
/// empty parts are kept, as `n` delimiters yield `n + 1` parts.
pub open spec fn split_on(s: Seq<u8>, d: u8) -> Seq<Seq<u8>>
    decreases s.len(),
{
    if s.len() == 0 {
        seq![Seq::<u8>::empty()]
    } else if s[0] == d {
        seq![Seq::<u8>::empty()] + split_on(s.drop_first(), d)
    } else {
        let rest = split_on(s.drop_first(), d);
        seq![seq![s[0]] + rest[0]] + rest.drop_first()
    }
}

/// A split is never empty.
pub proof fn lemma_split_on_len(s: Seq<u8>, d: u8)
    ensures
        split_on(s, d).len() >= 1,
    decreases s.len(),
{
    if s.len() > 0 {
        lemma_split_on_len(s.drop_first(), d);
    }
}

/// Executable split.
pub fn split_bytes(s: &[u8], d: u8) -> (r: Vec<Vec<u8>>)
    ensures
        views(r@) == split_on(s@, d),
{
    let mut segs: Vec<Vec<u8>> = Vec::new();
    let mut cur: Vec<u8> = Vec::new();
    let mut i: usize = 0;
    proof {
        assert(s@.skip(0) =~= s@);
        lemma_split_on_len(s@, d);
        assert(prepend_first(Seq::<u8>::empty(), split_on(s@, d)) =~~= split_on(s@, d));
        assert(views(segs@) =~= Seq::<Seq<u8>>::empty());
    }
    while i < s.len()
        invariant
            0 <= i <= s.len(),
            split_on(s@, d) == views(segs@) + prepend_first(cur@, split_on(s@.skip(i as int), d)),
        decreases s.len() - i,
    {
        proof {
            lemma_split_on_len(s@.skip(i + 1), d);
            assert(s@.skip(i as int).drop_first() =~= s@.skip(i + 1));
        }
        let ghost pre_segs = views(segs@);
        let ghost pre_cur = cur@;
        if s[i] == d {
            segs.push(cur);
            cur = Vec::new();
            proof {
                let tail = split_on(s@.skip(i + 1), d);
                assert(split_on(s@.skip(i as int), d) == seq![Seq::<u8>::empty()] + tail);
                assert(prepend_first(pre_cur, seq![Seq::<u8>::empty()] + tail) =~= seq![pre_cur]
                    + tail);
                assert(views(segs@) =~= pre_segs.push(pre_cur));
                assert(prepend_first(Seq::<u8>::empty(), tail) =~= tail);
                assert(views(segs@) + prepend_first(cur@, tail) =~= pre_segs + (seq![pre_cur]
                    + tail));
                assert(pre_segs + (seq![pre_cur] + tail) =~= pre_segs + prepend_first(
                    pre_cur,
                    seq![Seq::<u8>::empty()] + tail,
                ));
            }
        } else {
            let b = s[i];
            cur.push(b);
            proof {
                let tail = split_on(s@.skip(i + 1), d);
                let whole = split_on(s@.skip(i as int), d);
                assert(whole == seq![seq![s@[i as int]] + tail[0]] + tail.drop_first());
                lemma_split_on_len(s@.skip(i as int), d);
                assert(prepend_first(pre_cur, whole) =~~= seq![pre_cur + seq![s@[i as int]]
                    + tail[0]] + tail.drop_first());
                assert(cur@ =~= pre_cur + seq![s@[i as int]]);
                assert(prepend_first(cur@, tail) =~~= seq![pre_cur + seq![s@[i as int]] + tail[0]]
                    + tail.drop_first());
            }
        }
        i += 1;
    }
    let ghost pre = views(segs@);
    let ghost cv = cur@;
    segs.push(cur);
    proof {
        assert(s@.skip(s@.len() as int) =~= Seq::<u8>::empty());
        assert(prepend_first(cv, split_on(Seq::<u8>::empty(), d)) =~= seq![cv]);
        assert(views(segs@) =~= pre.push(cv));
        assert(pre.push(cv) =~= pre + seq![cv]);
        assert(views(segs@) =~= split_on(s@, d));
    }
    segs
}

/// `parts` with `c` glued onto the front of its first part.
pub open spec fn prepend_first(c: Seq<u8>, parts: Seq<Seq<u8>>) -> Seq<Seq<u8>> {
    seq![c + parts[0]] + parts.drop_first()
}

/// Join `parts` with the delimiter `d` between them, with no trailing
/// delimiter.
pub open spec fn join_with(parts: Seq<Seq<u8>>, d: u8) -> Seq<u8>
    decreases parts.len(),
{
    if parts.len() == 0 {
        Seq::empty()
    } else if parts.len() == 1 {
        parts[0]
    } else {
        parts[0] + seq![d] + join_with(parts.drop_first(), d)
    }
}

/// One step of joining: the join of one more part appends a delimiter and
/// that part.
pub proof fn lemma_join_step(parts: Seq<Seq<u8>>, d: u8, i: int)
    requires
        1 <= i < parts.len(),
    ensures
        join_with(parts.take(i + 1), d) =~= join_with(parts.take(i), d) + seq![d] + parts[i],
    decreases i,
{
    if i == 1 {
        assert(parts.take(2).drop_first() =~= seq![parts[1]]);
        assert(parts.take(1) =~= seq![parts[0]]);
        assert(join_with(parts.take(2), d) == parts.take(2)[0] + seq![d] + join_with(
            seq![parts[1]],
            d,
        ));
    } else {
        let dp = parts.drop_first();
        lemma_join_step(dp, d, i - 1);
        assert(parts.take(i + 1).drop_first() =~= dp.take(i));
        assert(parts.take(i).drop_first() =~= dp.take(i - 1));
        assert(dp[i - 1] == parts[i]);
        assert(join_with(parts.take(i + 1), d) == parts.take(i + 1)[0] + seq![d] + join_with(
            dp.take(i),
            d,
        ));
        assert(join_with(dp.take(i), d) =~= join_with(dp.take(i - 1), d) + seq![d] + parts[i]);
        assert(join_with(parts.take(i), d) == parts.take(i)[0] + seq![d] + join_with(
            dp.take(i - 1),
            d,
        ));
    }
}

/// Executable join.
pub fn join_bytes(parts: &Vec<Vec<u8>>, d: u8) -> (r: Vec<u8>)
    ensures
        r@ == join_with(views(parts@), d),
{
    let mut r: Vec<u8> = Vec::new();
    let mut i: usize = 0;
    while i < parts.len()
        invariant
            0 <= i <= parts.len(),
            r@ == join_with(views(parts@).take(i as int), d),
        decreases parts.len() - i,
    {
        if i > 0 {
            r.push(d);
        }
        let mut j: usize = 0;
        let ghost base = r@;
        while j < parts[i].len()
            invariant
                0 <= i < parts.len(),
                0 <= j <= parts@[i as int]@.len(),
                r@ == base + parts@[i as int]@.take(j as int),
            decreases parts[i as int]@.len() - j,
        {
            let b = parts[i][j];
            r.push(b);
            proof {
                assert(parts@[i as int]@.take(j + 1) =~= parts@[i as int]@.take(j as int).push(
                    parts@[i as int]@[j as int],
                ));
            }
            j += 1;
        }
        proof {
            assert(parts@[i as int]@.take(parts@[i as int]@.len() as int) =~= parts@[i as int]@);
            let vs = views(parts@);
            if i == 0 {
                assert(vs.take(1) =~= seq![vs[0]]);
                assert(r@ =~= join_with(vs.take(1), d));
            } else {
                lemma_join_step(vs, d, i as int);
                assert(r@ =~= join_with(vs.take(i as int), d) + seq![d] + vs[i as int]);
            }
        }
        i += 1;
    }
    proof {
        assert(views(parts@).take(parts@.len() as int) =~= views(parts@));
    }
    r
}

/// Splitting a sequence that holds no delimiter gives that sequence alone.
pub proof fn lemma_split_no_delim(s: Seq<u8>, d: u8)
    requires
        !s.contains(d),
    ensures
        split_on(s, d) =~= seq![s],
    decreases s.len(),
{
    if s.len() == 0 {
        assert(s =~= Seq::<u8>::empty());
    }
    if s.len() > 0 {
        assert(s[0] != d) by {
            if s[0] == d {
                assert(s.contains(d));
            }
        }
        assert(!s.drop_first().contains(d)) by {
            if s.drop_first().contains(d) {
                let i = choose|i: int|
                    0 <= i < s.drop_first().len() && s.drop_first()[i] == d;
                assert(s[i + 1] == d);
                assert(s.contains(d));
            }
        }
        lemma_split_no_delim(s.drop_first(), d);
        assert(split_on(s, d) =~= seq![seq![s[0]] + s.drop_first()]);
        assert(seq![s[0]] + s.drop_first() =~= s);
    }
}

/// Splitting `a + [d] + t` peels off `a` when `a` holds no delimiter.
pub proof fn lemma_split_prefix(a: Seq<u8>, t: Seq<u8>, d: u8)
    requires
        !a.contains(d),
    ensures
        split_on(a + seq![d] + t, d) =~= seq![a] + split_on(t, d),
    decreases a.len(),
{
    let s = a + seq![d] + t;
    if a.len() == 0 {
        assert(s[0] == d);
        assert(s.drop_first() =~= t);
        assert(a =~= Seq::<u8>::empty());
    } else {
        assert(s[0] == a[0]);
        assert(a[0] != d) by {
            if a[0] == d {
                assert(a.contains(d));
            }
        }
        assert(!a.drop_first().contains(d)) by {
            if a.drop_first().contains(d) {
                let i = choose|i: int|
                    0 <= i < a.drop_first().len() && a.drop_first()[i] == d;
                assert(a[i + 1] == d);
                assert(a.contains(d));
            }
        }
        lemma_split_prefix(a.drop_first(), t, d);
        assert(s.drop_first() =~= a.drop_first() + seq![d] + t);
        let rest = split_on(s.drop_first(), d);
        assert(rest =~= seq![a.drop_first()] + split_on(t, d));
        lemma_split_on_len(t, d);
        assert(rest[0] == a.drop_first());
        assert(seq![s[0]] + rest[0] =~= a);
        assert(rest.drop_first() =~= split_on(t, d));
        assert(split_on(s, d) =~= seq![seq![s[0]] + rest[0]] + rest.drop_first());
    }
}

/// Splitting a join on the delimiter returns the parts unchanged, as long as
/// there is at least one part and no part holds the delimiter. This is how the
/// persisted file, read back and split on its separators, yields exactly the
/// emitted lines.
pub proof fn lemma_split_join(parts: Seq<Seq<u8>>, d: u8)
    requires
        parts.len() >= 1,
        forall|i: int| 0 <= i < parts.len() ==> !(#[trigger] parts[i]).contains(d),
    ensures
        split_on(join_with(parts, d), d) == parts,
    decreases parts.len(),
{
    if parts.len() == 1 {
        lemma_split_no_delim(parts[0], d);
        assert(split_on(join_with(parts, d), d) =~= parts);
    } else {
        let rest = parts.drop_first();
        assert(forall|i: int| 0 <= i < rest.len() ==> !(#[trigger] rest[i]).contains(d)) by {
            assert(forall|i: int|
                0 <= i < rest.len() ==> rest[i] == parts[i + 1] && !(#[trigger] rest[i]).contains(
                    d,
                ));
        }
        lemma_split_join(rest, d);
        lemma_split_prefix(parts[0], join_with(rest, d), d);
        assert(join_with(parts, d) == parts[0] + seq![d] + join_with(rest, d));
        assert(split_on(join_with(parts, d), d) =~= seq![parts[0]] + rest);
        assert(seq![parts[0]] + rest =~= parts);
    }
}

/// Two strictly sorted sequences with the same members are the same sequence:
/// the sorted, deduplicated form of a set of names is unique, so one query
/// asked twice yields byte-identical output.
pub proof fn lemma_strict_sorted_unique(a: Seq<Seq<u8>>, b: Seq<Seq<u8>>)
    requires
        strict_sorted(a),
        strict_sorted(b),
        forall|y: Seq<u8>| a.contains(y) <==> b.contains(y),
    ensures
        a == b,
    decreases a.len(),
{
    if a.len() == 0 {
        if b.len() > 0 {
            assert(b.contains(b[0]));
            assert(a.contains(b[0]));
            assert(false);
        }
        assert(a =~= b);
    } else if b.len() == 0 {
        assert(a.contains(a[0]));
        assert(b.contains(a[0]));
        assert(false);
    } else {
        assert(a.contains(a[0]));
        assert(b.contains(b[0]));
        let j = choose|j: int| 0 <= j < b.len() && b[j] == a[0];
        let k = choose|k: int| 0 <= k < a.len() && a[k] == b[0];
        if j > 0 {
            assert(lex_lt(b[0], b[j]));
            if k > 0 {
                assert(lex_lt(a[0], a[k]));
                lemma_lex_asymmetric(a[0], b[0]);
                assert(false);
            } else {
                lemma_lex_irreflexive(b[0]);
                assert(false);
            }
        }
        assert(a[0] == b[0]);
        let at = a.drop_first();
        let bt = b.drop_first();
        assert(strict_sorted(at)) by {
            assert(forall|i: int, j2: int|
                0 <= i < j2 < at.len() ==> at[i] == a[i + 1] && at[j2] == a[j2 + 1] && lex_lt(
                    #[trigger] at[i],
                    #[trigger] at[j2],
                ));
        }
        assert(strict_sorted(bt)) by {
            assert(forall|i: int, j2: int|
                0 <= i < j2 < bt.len() ==> bt[i] == b[i + 1] && bt[j2] == b[j2 + 1] && lex_lt(
                    #[trigger] bt[i],
                    #[trigger] bt[j2],
                ));
        }
        assert forall|y: Seq<u8>| at.contains(y) implies bt.contains(y) by {
            let i = choose|i: int| 0 <= i < at.len() && at[i] == y;
            assert(a[i + 1] == y);
            assert(a.contains(y));
            assert(b.contains(y));
            let m = choose|m: int| 0 <= m < b.len() && b[m] == y;
            if m == 0 {
                assert(lex_lt(a[0], a[i + 1]));
                lemma_lex_irreflexive(a[0]);
                assert(false);
            }
            assert(bt[m - 1] == y);
            assert(bt.contains(y));
        }
        assert forall|y: Seq<u8>| bt.contains(y) implies at.contains(y) by {
            let i = choose|i: int| 0 <= i < bt.len() && bt[i] == y;
            assert(b[i + 1] == y);
            assert(b.contains(y));
            assert(a.contains(y));
            let m = choose|m: int| 0 <= m < a.len() && a[m] == y;
            if m == 0 {
                assert(lex_lt(b[0], b[i + 1]));
                lemma_lex_irreflexive(b[0]);
                assert(false);
            }
            assert(at[m - 1] == y);
            assert(at.contains(y));
        }
        lemma_strict_sorted_unique(at, bt);
        assert forall|i: int| 0 <= i < a.len() implies a[i] == b[i] by {
            if i > 0 {
                assert(at[i - 1] == bt[i - 1]);
            }
        }
        assert(a =~= b);
    }
}

} // verus!
