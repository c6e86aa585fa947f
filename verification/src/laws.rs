//! What holds of every braid, stated over the beads and the relations
//! between them, and proved.

use crate::bead::{valid_bead, BeadView};
use crate::dag::{
    cuts_below, generation, is_ancestor, is_parent, lemma_ancestor_has_path,
    lemma_ancestor_is_older, lemma_ancestor_of_parent, lemma_cuts_below_monotone,
    lemma_cuts_below_step, lemma_generation, lemma_lower_cohort_is_ancestor,
    lemma_parent_is_ancestor, lemma_path_ends_in_ancestor, total_cut,
};
use crate::error::{BraidError, ErrorKind};
use crate::hash::genesis_hash;
use crate::model::{
    ancestor_of, ancestor_set, child_set, cohort_height_of, cohort_set, descendant_set,
    generation_of, graph, incestuous, is_chain, known, lemma_graph, lemma_parent_named,
    lemma_position, parent_of, position, same_cohort, sibling_of, sibling_set, tip_set, valid,
    verdict, Beads,
};
use vstd::prelude::*;

verus! {

/// Every bead after the first names a parent and descends from the first.
proof fn lemma_root(s: Beads, i: int)
    requires
        valid(s),
        1 <= i < s.len(),
    ensures
        s[i].parents.len() > 0,
        is_ancestor(graph(s), 0, i),
    decreases i,
{
    let g = graph(s);
    lemma_graph(s);
    if s[i].parents.len() == 0 {
        assert(valid_bead(s[i]));
        assert(s[0].hash != s[i].hash);
    }
    let p = g[i][0] as int;
    assert(is_parent(g, p, i));
    if p == 0 {
        lemma_parent_is_ancestor(g, 0, i);
    } else {
        lemma_root(s, p);
        lemma_ancestor_of_parent(g, 0, p, i);
    }
}

/// The genesis bead is an ancestor of every other bead.
pub proof fn lemma_genesis_is_ancestor(s: Beads, h: Seq<u8>)
    requires
        valid(s),
        known(s, h),
        h != genesis_hash(),
    ensures
        ancestor_of(s, genesis_hash(), h),
{
    lemma_position(s, 0);
    lemma_root(s, position(s, h));
}

/// The genesis bead is the one bead without parents.
pub proof fn lemma_genesis_alone_without_parents(s: Beads, h: Seq<u8>)
    requires
        valid(s),
        known(s, h),
    ensures
        (s[position(s, h)].parents.len() == 0) == (h == genesis_hash()),
        (forall|p: Seq<u8>| !parent_of(s, p, h)) == (h == genesis_hash()),
{
    let g = graph(s);
    let i = position(s, h);
    lemma_graph(s);
    lemma_position(s, 0);
    if i == 0 {
        assert forall|p: Seq<u8>| !parent_of(s, p, h) by {
            if parent_of(s, p, h) {
                let k = choose|k: int|
                    0 <= k < g[i].len() && (#[trigger] g[i][k]) == position(s, p);
            }
        }
    } else {
        lemma_root(s, i);
        let p = g[i][0] as int;
        assert(is_parent(g, p, i));
        lemma_position(s, p);
        assert(parent_of(s, s[p].hash, h));
    }
}

/// One bead is a parent of another exactly where the other names it.
pub proof fn lemma_parent_is_named(s: Beads, p: Seq<u8>, c: Seq<u8>)
    requires
        valid(s),
        known(s, c),
    ensures
        parent_of(s, p, c) == s[position(s, c)].parents.contains(p),
{
    let j = position(s, c);
    lemma_graph(s);
    if parent_of(s, p, c) {
        lemma_parent_named(s, position(s, p), j);
    }
    if s[j].parents.contains(p) {
        let k = choose|k: int| 0 <= k < s[j].parents.len() && s[j].parents[k] == p;
        let i = graph(s)[j][k] as int;
        assert(s[i].hash == p);
        lemma_position(s, i);
        lemma_parent_named(s, i, j);
    }
}

/// The bead that came last is a tip: a braid is never without tips.
pub proof fn lemma_last_is_tip(s: Beads)
    requires
        valid(s),
    ensures
        tip_set(s).contains(s.last().hash),
{
    let g = graph(s);
    let n = s.len() - 1;
    let h = s[n].hash;
    lemma_graph(s);
    lemma_position(s, n);
    assert forall|c: Seq<u8>| !parent_of(s, h, c) by {
        if parent_of(s, h, c) {
            let j = position(s, c);
            let k = choose|k: int| 0 <= k < g[j].len() && (#[trigger] g[j][k]) == n;
            assert(g[j][k] < j);
        }
    }
}

/// The generation of the genesis bead is zero; that of any other bead is
/// one more than the greatest generation among its parents.
pub proof fn lemma_generation_of(s: Beads, h: Seq<u8>)
    requires
        valid(s),
        known(s, h),
    ensures
        h == genesis_hash() ==> generation_of(s, h) == 0,
        forall|p: Seq<u8>| parent_of(s, p, h) ==> generation_of(s, p) < generation_of(s, h),
        h != genesis_hash() ==> exists|p: Seq<u8>| #[trigger]
            parent_of(s, p, h) && generation_of(s, p) + 1 == generation_of(s, h),
{
    let g = graph(s);
    let i = position(s, h);
    lemma_graph(s);
    lemma_position(s, 0);
    lemma_generation(g, i);
    if i != 0 {
        lemma_root(s, i);
        let p = choose|p: int| #[trigger]
            is_parent(g, p, i) && generation(g, p) + 1 == generation(g, i);
        let k = choose|k: int| 0 <= k < g[i].len() && (#[trigger] g[i][k]) == p;
        assert(g[i][k] < i);
        lemma_position(s, p);
        assert(parent_of(s, s[p].hash, h));
    }
}

/// The ancestors of a bead are the beads that a chain of parents climbs
/// to from it: ancestry is the transitive closure of the parent relation.
pub proof fn lemma_ancestry_is_closure(s: Beads, a: Seq<u8>, b: Seq<u8>)
    requires
        valid(s),
    ensures
        ancestor_of(s, a, b) == exists|chain: Seq<Seq<u8>>| #[trigger]
            is_chain(s, chain) && chain.first() == b && chain.last() == a,
{
    let g = graph(s);
    lemma_graph(s);
    if ancestor_of(s, a, b) {
        let path = lemma_ancestor_has_path(g, position(s, a), position(s, b));
        let chain = Seq::new(path.len(), |i: int| s[path[i]].hash);
        assert forall|i: int| 0 <= i < path.len() implies 0 <= #[trigger] path[i] < s.len() by {
            if i < path.len() - 1 {
                assert(is_parent(g, path[i + 1], path[i]));
            } else {
                assert(is_parent(g, path[(i - 1) + 1], path[i - 1]));
                let c = path[i - 1];
                let k = choose|k: int| 0 <= k < g[c].len() && (#[trigger] g[c][k]) == path[i];
                assert(g[c][k] < c);
            }
        }
        assert forall|i: int| 0 <= i < chain.len() - 1 implies parent_of(
            s,
            chain[i + 1],
            #[trigger] chain[i],
        ) by {
            assert(is_parent(g, path[i + 1], path[i]));
            lemma_position(s, path[i]);
            lemma_position(s, path[i + 1]);
        }
        assert(is_chain(s, chain) && chain.first() == b && chain.last() == a);
    }
    if exists|chain: Seq<Seq<u8>>| #[trigger]
        is_chain(s, chain) && chain.first() == b && chain.last() == a {
        let chain = choose|chain: Seq<Seq<u8>>| #[trigger]
            is_chain(s, chain) && chain.first() == b && chain.last() == a;
        let path = Seq::new(chain.len(), |i: int| position(s, chain[i]));
        assert forall|i: int| 0 <= i < path.len() - 1 implies is_parent(
            g,
            path[i + 1],
            #[trigger] path[i],
        ) by {
            assert(parent_of(s, chain[i + 1], chain[i]));
        }
        lemma_path_ends_in_ancestor(g, path);
        assert(parent_of(s, chain[0int + 1], chain[0]));
        assert(parent_of(s, chain[(chain.len() - 2) + 1], chain[chain.len() - 2]));
    }
}

/// A bead is a tip exactly where it has no children.
pub proof fn lemma_tip_iff_childless(s: Beads, h: Seq<u8>)
    requires
        known(s, h),
    ensures
        tip_set(s).contains(h) == (child_set(s, h) == Set::<Seq<u8>>::empty()),
{
    if tip_set(s).contains(h) {
        assert(child_set(s, h) =~= Set::<Seq<u8>>::empty());
    }
    if child_set(s, h) == Set::<Seq<u8>>::empty() {
        assert forall|c: Seq<u8>| !parent_of(s, h, c) by {
            assert(!child_set(s, h).contains(c));
        }
    }
}

/// Two different beads are siblings exactly where neither is among the
/// ancestors of the other, and then each is a sibling of the other.
pub proof fn lemma_siblings_unordered(s: Beads, a: Seq<u8>, b: Seq<u8>)
    requires
        known(s, a),
        known(s, b),
        a != b,
    ensures
        sibling_set(s, a).contains(b) == (!ancestor_set(s, a).contains(b) && !ancestor_set(
            s,
            b,
        ).contains(a)),
        sibling_set(s, a).contains(b) == sibling_set(s, b).contains(a),
{
}

/// No sibling of a bead is an ancestor or a descendant of it.
pub proof fn lemma_siblings_apart(s: Beads, a: Seq<u8>)
    ensures
        sibling_set(s, a).disjoint(ancestor_set(s, a)),
        sibling_set(s, a).disjoint(descendant_set(s, a)),
{
}

/// Every bead belongs to one cohort: its own. Two cohorts are the same
/// or have no bead in common.
pub proof fn lemma_cohorts_partition(s: Beads, a: Seq<u8>, b: Seq<u8>)
    requires
        known(s, a),
        known(s, b),
    ensures
        cohort_set(s, a).contains(a),
        cohort_set(s, a).contains(b) ==> cohort_set(s, a) == cohort_set(s, b),
        !cohort_set(s, a).contains(b) ==> cohort_set(s, a).disjoint(cohort_set(s, b)),
{
    if cohort_set(s, a).contains(b) {
        assert(cohort_set(s, a) =~= cohort_set(s, b));
    }
}

/// A bead's generation is lower than that of any of its descendants, and
/// its cohort height does not exceed theirs.
pub proof fn lemma_cohort_respects_ancestry(s: Beads, a: Seq<u8>, b: Seq<u8>)
    requires
        valid(s),
        ancestor_of(s, a, b),
    ensures
        generation_of(s, a) < generation_of(s, b),
        cohort_height_of(s, a) <= cohort_height_of(s, b),
{
    let g = graph(s);
    lemma_graph(s);
    lemma_ancestor_is_older(g, position(s, a), position(s, b));
    lemma_cuts_below_monotone(g, generation_of(s, a), generation_of(s, b));
}

/// A bead of a lower cohort is an ancestor of every bead of a higher one.
pub proof fn lemma_cohorts_ordered(s: Beads, a: Seq<u8>, b: Seq<u8>)
    requires
        valid(s),
        known(s, a),
        known(s, b),
        cohort_height_of(s, a) < cohort_height_of(s, b),
    ensures
        ancestor_of(s, a, b),
{
    lemma_lower_cohort_is_ancestor(graph(s), position(s, a), position(s, b));
}

/// Siblings belong to the same cohort.
pub proof fn lemma_siblings_share_cohort(s: Beads, a: Seq<u8>, b: Seq<u8>)
    requires
        valid(s),
        sibling_of(s, a, b),
    ensures
        same_cohort(s, a, b),
{
    if cohort_height_of(s, a) < cohort_height_of(s, b) {
        lemma_cohorts_ordered(s, a, b);
    }
    if cohort_height_of(s, b) < cohort_height_of(s, a) {
        lemma_cohorts_ordered(s, b, a);
    }
}

/// A cohort cannot be split: no cut between two of its beads is total.
pub proof fn lemma_cohort_maximal(s: Beads, a: Seq<u8>, b: Seq<u8>, c: nat)
    requires
        valid(s),
        same_cohort(s, a, b),
        generation_of(s, a) <= c < generation_of(s, b),
    ensures
        !total_cut(graph(s), c),
{
    let g = graph(s);
    if total_cut(g, c) {
        lemma_cuts_below_step(g, c, generation_of(s, b));
        lemma_cuts_below_monotone(g, generation_of(s, a), c);
    }
}

/// The genesis bead is the one bead of cohort 0.
pub proof fn lemma_genesis_cohort(s: Beads, h: Seq<u8>)
    requires
        valid(s),
        known(s, h),
    ensures
        (cohort_height_of(s, h) == 0) == (h == genesis_hash()),
{
    let g = graph(s);
    let i = position(s, h);
    lemma_graph(s);
    lemma_position(s, 0);
    lemma_generation(g, 0);
    assert(generation(g, 0) == 0);
    if i != 0 {
        lemma_root(s, i);
        lemma_generation(g, i);
        assert(generation(g, i) >= 1);
        assert forall|a: int, b: int|
            0 <= a < g.len() && 0 <= b < g.len() && generation(g, a) <= 0 < generation(
                g,
                b,
            ) implies #[trigger] is_ancestor(g, a, b) by {
            if a != 0 {
                lemma_root(s, a);
                lemma_generation(g, a);
            }
            lemma_root(s, b);
        }
        assert(total_cut(g, 0));
        assert(cuts_below(g, 1) == 1) by {
            assert(cuts_below(g, 0) == 0);
        }
        lemma_cuts_below_monotone(g, 1, generation(g, i));
    }
}

/// A bead of which one parent is an ancestor of another is refused as
/// incestuous, whatever else holds of it.
pub proof fn lemma_incest_is_refused(s: Beads, b: BeadView)
    requires
        incestuous(s, b),
    ensures
        verdict(s, b) == Err::<(), BraidError>(BraidError { kind: ErrorKind::IncestViolation }),
{
}

} // verus!
