//! A braid as a sequence of beads in the order in which they came, and the
//! relations between beads, named by their identifiers, that follow from
//! it. Nothing here is executed.

use crate::bead::{valid_bead, BeadView};
use crate::dag::{
    agree_upto, antichain, cohort_height, generation, holds, is_ancestor, is_parent,
    lemma_ancestor_local, well_formed, Graph,
};
use crate::error::{BraidError, ErrorKind};
use crate::hash::{genesis_hash, sorted};
use vstd::prelude::*;

verus! {

/// The beads of a braid, in the order in which they came.
pub type Beads = Seq<BeadView>;

/// A bead of `s` has the identifier `h`.
pub open spec fn known(s: Beads, h: Seq<u8>) -> bool {
    exists|i: int| 0 <= i < s.len() && (#[trigger] s[i]).hash == h
}

/// Where in `s` the bead with the identifier `h` stands.
pub open spec fn position(s: Beads, h: Seq<u8>) -> int {
    choose|i: int| 0 <= i < s.len() && (#[trigger] s[i]).hash == h
}

/// The positions of the beads with the identifiers `hs`.
pub open spec fn resolved(s: Beads, hs: Seq<Seq<u8>>) -> Seq<usize> {
    Seq::new(hs.len(), |k: int| position(s, hs[k]) as usize)
}

/// The parent relation of `s`, by positions.
pub open spec fn graph(s: Beads) -> Graph {
    Seq::new(s.len(), |i: int| resolved(s, s[i].parents))
}

/// No two beads of `s` have the same identifier.
pub open spec fn unique(s: Beads) -> bool {
    forall|i: int, j: int|
        0 <= i < j < s.len() ==> (#[trigger] s[i]).hash != (#[trigger] s[j]).hash
}

/// A bead before position `i` has the identifier `h`.
pub open spec fn known_before(s: Beads, i: int, h: Seq<u8>) -> bool {
    exists|j: int| 0 <= j < i && j < s.len() && (#[trigger] s[j]).hash == h
}

/// What holds of every braid: it starts with the genesis bead, identifiers
/// are not used twice, every parent of a bead came before the bead, and no
/// parent of a bead is an ancestor of another parent of it.
pub open spec fn valid(s: Beads) -> bool {
    &&& 1 <= s.len() <= usize::MAX
    &&& s[0].hash == genesis_hash()
    &&& s[0].parents.len() == 0
    &&& unique(s)
    &&& forall|i: int| 0 <= i < s.len() ==> valid_bead(#[trigger] s[i])
    &&& forall|i: int, k: int|
        0 <= i < s.len() && 0 <= k < s[i].parents.len() ==> known_before(
            s,
            i,
            #[trigger] s[i].parents[k],
        )
    &&& forall|i: int| 0 <= i < s.len() ==> antichain(graph(s), #[trigger] graph(s)[i])
}

/// `p` is a parent of `c`.
pub open spec fn parent_of(s: Beads, p: Seq<u8>, c: Seq<u8>) -> bool {
    known(s, p) && known(s, c) && is_parent(graph(s), position(s, p), position(s, c))
}

/// `a` is an ancestor of `b`: a parent of `b`, or an ancestor of a parent.
pub open spec fn ancestor_of(s: Beads, a: Seq<u8>, b: Seq<u8>) -> bool {
    known(s, a) && known(s, b) && is_ancestor(graph(s), position(s, a), position(s, b))
}

/// `chain` climbs the braid: every bead of it but the first is a parent of
/// the bead before.
pub open spec fn is_chain(s: Beads, chain: Seq<Seq<u8>>) -> bool {
    &&& chain.len() >= 2
    &&& forall|i: int|
        0 <= i < chain.len() - 1 ==> parent_of(s, chain[i + 1], #[trigger] chain[i])
}

/// `a` and `b` are different beads of which neither is an ancestor of the
/// other.
pub open spec fn sibling_of(s: Beads, a: Seq<u8>, b: Seq<u8>) -> bool {
    known(s, a) && known(s, b) && a != b && !ancestor_of(s, a, b) && !ancestor_of(s, b, a)
}

/// No bead names `h` as a parent.
pub open spec fn is_tip(s: Beads, h: Seq<u8>) -> bool {
    known(s, h) && forall|c: Seq<u8>| !parent_of(s, h, c)
}

/// The generation of the bead `h`: the length of the longest path from it
/// up to the genesis bead.
pub open spec fn generation_of(s: Beads, h: Seq<u8>) -> nat {
    generation(graph(s), position(s, h))
}

/// The height of the cohort that the bead `h` belongs to.
pub open spec fn cohort_height_of(s: Beads, h: Seq<u8>) -> nat {
    cohort_height(graph(s), position(s, h))
}

/// `a` and `b` belong to the same cohort.
pub open spec fn same_cohort(s: Beads, a: Seq<u8>, b: Seq<u8>) -> bool {
    known(s, a) && known(s, b) && cohort_height_of(s, a) == cohort_height_of(s, b)
}

/// The beads without children.
pub open spec fn tip_set(s: Beads) -> Set<Seq<u8>> {
    Set::new(|h: Seq<u8>| is_tip(s, h))
}

/// The children of `h`.
pub open spec fn child_set(s: Beads, h: Seq<u8>) -> Set<Seq<u8>> {
    Set::new(|c: Seq<u8>| parent_of(s, h, c))
}

/// The siblings of `h`.
pub open spec fn sibling_set(s: Beads, h: Seq<u8>) -> Set<Seq<u8>> {
    Set::new(|x: Seq<u8>| sibling_of(s, h, x))
}

/// The ancestors of `h`.
pub open spec fn ancestor_set(s: Beads, h: Seq<u8>) -> Set<Seq<u8>> {
    Set::new(|x: Seq<u8>| ancestor_of(s, x, h))
}

/// The descendants of `h`.
pub open spec fn descendant_set(s: Beads, h: Seq<u8>) -> Set<Seq<u8>> {
    Set::new(|x: Seq<u8>| ancestor_of(s, h, x))
}

/// The cohort of `h`: the beads of the same cohort height.
pub open spec fn cohort_set(s: Beads, h: Seq<u8>) -> Set<Seq<u8>> {
    Set::new(|x: Seq<u8>| same_cohort(s, h, x))
}

/// The beads whose position is marked.
pub open spec fn marked_set(s: Beads, marks: Seq<bool>) -> Set<Seq<u8>> {
    Set::new(|h: Seq<u8>| known(s, h) && marks[position(s, h)])
}

/// The identifiers of the beads at the positions `ps`.
pub open spec fn hashes_at(s: Beads, ps: Seq<usize>) -> Seq<Seq<u8>> {
    Seq::new(ps.len(), |j: int| s[ps[j] as int].hash)
}

/// `r` lists the members of `set`, each once, in the order of their bytes.
pub open spec fn listing(r: Seq<Seq<u8>>, set: Set<Seq<u8>>) -> bool {
    &&& sorted(r)
    &&& forall|j: int| 0 <= j < r.len() ==> set.contains(#[trigger] r[j])
    &&& forall|h: Seq<u8>| set.contains(h) ==> r.contains(h)
}

/// A parent of `b` is not a bead of `s`.
pub open spec fn names_unknown_parent(s: Beads, b: BeadView) -> bool {
    exists|k: int| 0 <= k < b.parents.len() && !known(s, #[trigger] b.parents[k])
}

/// A parent of `b` is an ancestor of another parent of `b`.
pub open spec fn incestuous(s: Beads, b: BeadView) -> bool {
    exists|k: int, l: int|
        0 <= k < b.parents.len() && 0 <= l < b.parents.len() && ancestor_of(
            s,
            #[trigger] b.parents[k],
            #[trigger] b.parents[l],
        )
}

/// `x` is the position of one of the first `n` of the identifiers `hs`.
pub open spec fn names_position(s: Beads, hs: Seq<Seq<u8>>, n: int, x: int) -> bool {
    exists|k: int|
        0 <= k < n && k < hs.len() && known(s, #[trigger] hs[k]) && position(s, hs[k]) == x
}

/// `ps` holds the positions of those among the first `n` of the identifiers
/// `hs` that `s` holds, and nothing else.
pub open spec fn known_among(s: Beads, hs: Seq<Seq<u8>>, n: int, ps: Seq<usize>) -> bool {
    &&& forall|j: int| 0 <= j < ps.len() ==> names_position(s, hs, n, (#[trigger] ps[j]) as int)
    &&& forall|k: int|
        0 <= k < n && k < hs.len() && known(s, #[trigger] hs[k]) ==> holds(ps, position(s, hs[k]))
}

/// `ps` holds the positions of those parents of `b` that `s` holds, and
/// nothing else.
pub open spec fn known_parents(s: Beads, b: BeadView, ps: Seq<usize>) -> bool {
    known_among(s, b.parents, b.parents.len() as int, ps)
}

/// What becomes of the attempt to add `b` to `s`: the bead is refused where
/// one of its parents is an ancestor of another, else where it names a
/// parent that `s` does not hold, else where its identifier is taken.
pub open spec fn verdict(s: Beads, b: BeadView) -> Result<(), BraidError> {
    if incestuous(s, b) {
        Err(BraidError { kind: ErrorKind::IncestViolation })
    } else if names_unknown_parent(s, b) {
        Err(BraidError { kind: ErrorKind::UnknownParent })
    } else if known(s, b.hash) {
        Err(BraidError { kind: ErrorKind::DuplicateBead })
    } else {
        Ok(())
    }
}

/// The position of an identifier that the braid holds is that of a bead
/// with this identifier.
pub proof fn lemma_position_known(s: Beads, h: Seq<u8>)
    requires
        known(s, h),
    ensures
        0 <= position(s, h) < s.len(),
        s[position(s, h)].hash == h,
{
}

/// Where identifiers are not used twice, a bead stands where its
/// identifier is found.
pub proof fn lemma_position(s: Beads, i: int)
    requires
        unique(s),
        0 <= i < s.len(),
    ensures
        known(s, s[i].hash),
        position(s, s[i].hash) == i,
{
    let h = s[i].hash;
    assert(s[i].hash == h);
    let j = position(s, h);
    assert(s[j].hash == s[i].hash);
}

/// Every entry of the graph is the position of the parent that it stands
/// for, and that position lies before the child.
pub proof fn lemma_graph(s: Beads)
    requires
        valid(s),
    ensures
        well_formed(graph(s)),
        graph(s).len() == s.len(),
        forall|i: int| 0 <= i < s.len() ==> (#[trigger] graph(s)[i]).len() == s[i].parents.len(),
        forall|i: int, k: int|
            0 <= i < s.len() && 0 <= k < s[i].parents.len() ==> (#[trigger] graph(s)[i][k]) < i
                && s[graph(s)[i][k] as int].hash == s[i].parents[k] && graph(s)[i][k]
                == position(s, s[i].parents[k]),
{
    let g = graph(s);
    assert forall|i: int, k: int| 0 <= i < s.len() && 0 <= k < s[i].parents.len() implies (
    #[trigger] g[i][k]) < i && s[g[i][k] as int].hash == s[i].parents[k] && g[i][k] == position(
        s,
        s[i].parents[k],
    ) by {
        let p = s[i].parents[k];
        assert(known_before(s, i, p));
        let j = choose|j: int| 0 <= j < i && j < s.len() && (#[trigger] s[j]).hash == p;
        lemma_position(s, j);
    }
    assert forall|b: int, k: int, l: int|
        0 <= b < g.len() && 0 <= k < l < g[b].len() implies g[b][k] != g[b][l] by {
        assert(valid_bead(s[b]));
        assert(s[g[b][k] as int].hash == s[b].parents[k]);
        assert(s[g[b][l] as int].hash == s[b].parents[l]);
    }
}

/// A parent by positions is a parent by name.
pub proof fn lemma_parent_named(s: Beads, i: int, c: int)
    requires
        valid(s),
        0 <= i < s.len(),
        0 <= c < s.len(),
    ensures
        is_parent(graph(s), i, c) == s[c].parents.contains(s[i].hash),
{
    let g = graph(s);
    lemma_graph(s);
    if is_parent(g, i, c) {
        let k = choose|k: int| 0 <= k < g[c].len() && (#[trigger] g[c][k]) == i;
        assert(s[g[c][k] as int].hash == s[c].parents[k]);
    }
    if s[c].parents.contains(s[i].hash) {
        let k = choose|k: int| 0 <= k < s[c].parents.len() && s[c].parents[k] == s[i].hash;
        lemma_position(s, i);
        assert(g[c][k] == i);
    }
}

/// A bead is incestuous exactly where the positions of those of its
/// parents that the braid holds are no antichain.
pub proof fn lemma_incest(s: Beads, b: BeadView, ps: Seq<usize>)
    requires
        known_parents(s, b, ps),
    ensures
        incestuous(s, b) == !antichain(graph(s), ps),
{
    let g = graph(s);
    if incestuous(s, b) {
        let (k, l) = choose|k: int, l: int|
            0 <= k < b.parents.len() && 0 <= l < b.parents.len() && ancestor_of(
                s,
                #[trigger] b.parents[k],
                #[trigger] b.parents[l],
            );
        assert(known(s, b.parents[k]) && known(s, b.parents[l]));
        assert(holds(ps, position(s, b.parents[k])));
        assert(holds(ps, position(s, b.parents[l])));
        let x = choose|x: int| 0 <= x < ps.len() && ps[x] == position(s, b.parents[k]);
        let y = choose|y: int| 0 <= y < ps.len() && ps[y] == position(s, b.parents[l]);
        assert(is_ancestor(g, ps[x] as int, ps[y] as int));
    } else {
        assert forall|x: int, y: int| 0 <= x < ps.len() && 0 <= y < ps.len() implies !is_ancestor(
            g,
            (#[trigger] ps[x]) as int,
            (#[trigger] ps[y]) as int,
        ) by {
            let hs = b.parents;
            let n = hs.len() as int;
            assert(names_position(s, hs, n, ps[x] as int));
            assert(names_position(s, hs, n, ps[y] as int));
            let k = choose|k: int|
                0 <= k < n && k < hs.len() && known(s, #[trigger] hs[k]) && position(s, hs[k])
                    == ps[x];
            let l = choose|l: int|
                0 <= l < n && l < hs.len() && known(s, #[trigger] hs[l]) && position(s, hs[l])
                    == ps[y];
            assert(!ancestor_of(s, b.parents[k], b.parents[l]));
        }
    }
}

/// What a braid that takes in one more bead becomes.
pub proof fn lemma_push(s: Beads, b: BeadView)
    requires
        valid(s),
        s.len() < usize::MAX,
        valid_bead(b),
        verdict(s, b) is Ok,
    ensures
        valid(s.push(b)),
        graph(s.push(b)) == graph(s).push(resolved(s, b.parents)),
        forall|h: Seq<u8>|
            known(s, h) ==> known(s.push(b), h) && position(s.push(b), h) == position(s, h),
        known(s.push(b), b.hash),
        position(s.push(b), b.hash) == s.len(),
        forall|h: Seq<u8>| known(s.push(b), h) ==> known(s, h) || h == b.hash,
{
    let t = s.push(b);
    let n = s.len() as int;
    let g = graph(s);
    lemma_graph(s);
    assert(unique(t)) by {
        assert forall|i: int, j: int| 0 <= i < j < t.len() implies (#[trigger] t[i]).hash != (
        #[trigger] t[j]).hash by {
            if j < n {
                assert(s[i].hash != s[j].hash);
            } else {
                assert(s[i].hash == t[i].hash);
            }
        }
    }
    assert forall|h: Seq<u8>| known(s, h) implies known(t, h) && position(t, h) == position(
        s,
        h,
    ) by {
        let j = position(s, h);
        assert(t[j].hash == h);
        lemma_position(t, j);
    }
    assert(t[n].hash == b.hash);
    lemma_position(t, n);
    assert forall|h: Seq<u8>| known(t, h) implies known(s, h) || h == b.hash by {
        let j = position(t, h);
        if j < n {
            assert(s[j].hash == h);
        }
    }
    let ps = resolved(s, b.parents);
    assert forall|k: int| 0 <= k < b.parents.len() implies known(s, #[trigger] b.parents[k]) by {}
    assert forall|i: int| 0 <= i < t.len() implies #[trigger] graph(t)[i] == g.push(ps)[i] by {
        if i < n {
            assert forall|k: int| 0 <= k < s[i].parents.len() implies graph(t)[i][k] == g[i][k] by {
                assert(known_before(s, i, s[i].parents[k]));
                let j = choose|j: int|
                    0 <= j < i && j < s.len() && (#[trigger] s[j]).hash == s[i].parents[k];
                assert(known(s, s[i].parents[k]));
            }
            assert(graph(t)[i] =~= g[i]);
        } else {
            assert(graph(t)[i] =~= ps);
        }
    }
    assert(graph(t) =~= g.push(ps));
    let gt = graph(t);
    assert(agree_upto(g, gt, n));
    assert forall|i: int, k: int|
        0 <= i < t.len() && 0 <= k < t[i].parents.len() implies known_before(
        t,
        i,
        #[trigger] t[i].parents[k],
    ) by {
        let p = t[i].parents[k];
        if i < n {
            assert(known_before(s, i, s[i].parents[k]));
            let j = choose|j: int| 0 <= j < i && j < s.len() && (#[trigger] s[j]).hash == p;
            assert(t[j].hash == p);
        } else {
            assert(known(s, b.parents[k]));
            let j = position(s, p);
            assert(t[j].hash == p);
        }
    }
    assert forall|i: int| 0 <= i < t.len() implies antichain(gt, #[trigger] gt[i]) by {
        let row = gt[i];
        assert forall|k: int, l: int| 0 <= k < row.len() && 0 <= l < row.len() implies !is_ancestor(
            gt,
            (#[trigger] row[k]) as int,
            (#[trigger] row[l]) as int,
        ) by {
            if i < n {
                assert(row == g[i]);
                assert(g[i][l] < i);
                lemma_ancestor_local(g, gt, row[k] as int, row[l] as int);
                assert(antichain(g, g[i]));
            } else {
                assert(row == ps);
                assert(known(s, b.parents[k]));
                assert(known(s, b.parents[l]));
                lemma_position_known(s, b.parents[l]);
                lemma_position_known(s, b.parents[k]);
                lemma_ancestor_local(g, gt, row[k] as int, row[l] as int);
                assert(!ancestor_of(s, b.parents[k], b.parents[l]));
            }
        }
    }
    assert forall|i: int| 0 <= i < t.len() implies valid_bead(#[trigger] t[i]) by {
        if i < n {
            assert(valid_bead(s[i]));
        }
    }
}

/// The first `m` beads of a braid find their parents where the braid
/// finds them.
pub proof fn lemma_prefix(s: Beads, m: int)
    requires
        valid(s),
        1 <= m <= s.len(),
    ensures
        forall|h: Seq<u8>|
            known(s.take(m), h) ==> known(s, h) && position(s.take(m), h) == position(s, h),
        graph(s.take(m)) == graph(s).take(m),
{
    let t = s.take(m);
    assert forall|h: Seq<u8>| known(t, h) implies known(s, h) && position(t, h) == position(
        s,
        h,
    ) by {
        let j = position(t, h);
        assert(s[j].hash == h);
        lemma_position(s, j);
    }
    assert forall|i: int| 0 <= i < m implies #[trigger] graph(t)[i] == graph(s).take(m)[i] by {
        assert forall|k: int| 0 <= k < s[i].parents.len() implies graph(t)[i][k] == graph(
            s,
        )[i][k] by {
            assert(known_before(s, i, s[i].parents[k]));
            let j = choose|j: int|
                0 <= j < i && j < s.len() && (#[trigger] s[j]).hash == s[i].parents[k];
            assert(t[j].hash == s[i].parents[k]);
        }
        assert(graph(t)[i] =~= graph(s)[i]);
    }
    assert(graph(t) =~= graph(s).take(m));
}

/// Each bead of a braid but the first can be added to the beads before it.
pub proof fn lemma_valid_step(s: Beads, i: int)
    requires
        valid(s),
        1 <= i < s.len(),
    ensures
        verdict(s.take(i), s[i]) is Ok,
{
    let t = s.take(i);
    let b = s[i];
    let g = graph(s);
    lemma_prefix(s, i);
    lemma_graph(s);
    if known(t, b.hash) {
        let j = position(t, b.hash);
        assert(s[j].hash == s[i].hash);
    }
    assert forall|k: int| 0 <= k < b.parents.len() implies known(t, #[trigger] b.parents[k]) by {
        assert(known_before(s, i, s[i].parents[k]));
        let j = choose|j: int|
            0 <= j < i && j < s.len() && (#[trigger] s[j]).hash == s[i].parents[k];
        assert(t[j].hash == b.parents[k]);
    }
    if incestuous(t, b) {
        let (k, l) = choose|k: int, l: int|
            0 <= k < b.parents.len() && 0 <= l < b.parents.len() && ancestor_of(
                t,
                #[trigger] b.parents[k],
                #[trigger] b.parents[l],
            );
        let x = position(t, b.parents[k]);
        let y = position(t, b.parents[l]);
        assert(known(t, b.parents[l]));
        assert(known(t, b.parents[k]));
        assert(g[i][k] == x);
        assert(g[i][l] == y);
        assert(agree_upto(g.take(i), g, y + 1));
        lemma_ancestor_local(g.take(i), g, x, y);
        assert(antichain(g, g[i]));
        assert(!is_ancestor(g, g[i][k] as int, g[i][l] as int));
    }
}

} // verus!
