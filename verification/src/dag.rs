//! The mathematics of a braid's shape.
//!
//! A graph is held as the parent lists of its nodes, a node being named by
//! its position. Nothing here is executed: these are the definitions and
//! lemmas that the executable code of the other modules is proved against.

use vstd::prelude::*;

verus! {

/// For every node, the positions of its parents.
pub type Graph = Seq<Seq<usize>>;

/// The graph that a table of parent lists stands for.
pub open spec fn graph_of(table: Seq<Vec<usize>>) -> Graph {
    Seq::new(table.len(), |i: int| table[i]@)
}

/// Every parent stands before its child, and no node names a parent twice.
pub open spec fn well_formed(g: Graph) -> bool {
    &&& forall|b: int, k: int|
        0 <= b < g.len() && 0 <= k < g[b].len() ==> (#[trigger] g[b][k]) < b
    &&& forall|b: int, k: int, l: int|
        0 <= b < g.len() && 0 <= k < l < g[b].len() ==> g[b][k] != g[b][l]
}

/// The first `n` nodes of the two graphs have the same parents.
pub open spec fn agree_upto(g: Graph, h: Graph, n: int) -> bool {
    &&& n <= g.len()
    &&& n <= h.len()
    &&& forall|i: int| 0 <= i < n ==> g[i] == h[i]
}

/// `p` is one of the declared parents of `c`.
pub open spec fn is_parent(g: Graph, p: int, c: int) -> bool {
    0 <= c < g.len() && exists|k: int| 0 <= k < g[c].len() && (#[trigger] g[c][k]) == p
}

/// `a` is reached from `b` by one or more steps from a node to a parent.
pub open spec fn is_ancestor(g: Graph, a: int, b: int) -> bool
    decreases b,
{
    0 <= b < g.len() && exists|k: int|
        0 <= k < g[b].len() && (#[trigger] g[b][k]) < b && (g[b][k] == a || is_ancestor(
            g,
            a,
            g[b][k] as int,
        ))
}

/// Two different nodes of which neither is an ancestor of the other.
pub open spec fn siblings(g: Graph, a: int, b: int) -> bool {
    &&& 0 <= a < g.len()
    &&& 0 <= b < g.len()
    &&& a != b
    &&& !is_ancestor(g, a, b)
    &&& !is_ancestor(g, b, a)
}

/// No member of `ps` is an ancestor of another member.
pub open spec fn antichain(g: Graph, ps: Seq<usize>) -> bool {
    forall|k: int, l: int|
        0 <= k < ps.len() && 0 <= l < ps.len() ==> !is_ancestor(
            g,
            (#[trigger] ps[k]) as int,
            (#[trigger] ps[l]) as int,
        )
}

/// The length of the longest path from `b` up to a node without parents.
pub open spec fn generation(g: Graph, b: int) -> nat
    decreases b, 1int, 0nat,
{
    if 0 <= b < g.len() {
        tallest(g, b, g[b].len())
    } else {
        0
    }
}

/// One more than the greatest generation among the first `k` parents of
/// `b`, and zero where `k` is zero.
pub open spec fn tallest(g: Graph, b: int, k: nat) -> nat
    decreases b, 0int, k,
{
    if 0 <= b < g.len() && 0 < k <= g[b].len() {
        let rest = tallest(g, b, (k - 1) as nat);
        let p = g[b][k - 1] as int;
        if p < b && generation(g, p) + 1 > rest {
            generation(g, p) + 1
        } else {
            rest
        }
    } else {
        0
    }
}

/// Every node of generation `h` or less is an ancestor of every node of a
/// greater generation: the graph can be cut in two between them.
pub open spec fn total_cut(g: Graph, h: nat) -> bool {
    forall|a: int, b: int|
        0 <= a < g.len() && 0 <= b < g.len() && generation(g, a) <= h < generation(g, b)
            ==> #[trigger] is_ancestor(g, a, b)
}

/// How many of the cuts after the generations `0 .. h` are total.
pub open spec fn cuts_below(g: Graph, h: nat) -> nat
    decreases h,
{
    if h == 0 {
        0
    } else {
        cuts_below(g, (h - 1) as nat) + if total_cut(g, (h - 1) as nat) {
            1nat
        } else {
            0nat
        }
    }
}

/// The height of the cohort that `b` belongs to: the number of total cuts
/// that lie below its generation.
pub open spec fn cohort_height(g: Graph, b: int) -> nat {
    cuts_below(g, generation(g, b))
}

/// `x` is one of the items of `s`.
pub open spec fn holds(s: Seq<usize>, x: int) -> bool {
    exists|j: int| 0 <= j < s.len() && s[j] == x
}

/// The items of `s` ascend strictly.
pub open spec fn ascending(s: Seq<usize>) -> bool {
    forall|i: int, j: int| 0 <= i < j < s.len() ==> s[i] < s[j]
}

/// An ancestor stands before its descendant.
pub proof fn lemma_ancestor_precedes(g: Graph, a: int, b: int)
    requires
        is_ancestor(g, a, b),
    ensures
        0 <= a < b < g.len(),
    decreases b,
{
    let k = choose|k: int|
        0 <= k < g[b].len() && (#[trigger] g[b][k]) < b && (g[b][k] == a || is_ancestor(
            g,
            a,
            g[b][k] as int,
        ));
    if g[b][k] != a {
        lemma_ancestor_precedes(g, a, g[b][k] as int);
    }
}

/// A parent is an ancestor.
pub proof fn lemma_parent_is_ancestor(g: Graph, p: int, c: int)
    requires
        is_parent(g, p, c),
        p < c,
    ensures
        is_ancestor(g, p, c),
{
    let k = choose|k: int| 0 <= k < g[c].len() && (#[trigger] g[c][k]) == p;
    assert(g[c][k] < c && g[c][k] == p);
}

/// An ancestor of a parent is an ancestor of the child.
pub proof fn lemma_ancestor_of_parent(g: Graph, a: int, p: int, c: int)
    requires
        is_parent(g, p, c),
        p < c,
        is_ancestor(g, a, p),
    ensures
        is_ancestor(g, a, c),
{
    let k = choose|k: int| 0 <= k < g[c].len() && (#[trigger] g[c][k]) == p;
    assert(g[c][k] < c && is_ancestor(g, a, g[c][k] as int));
}

/// `path` climbs the graph: every node of it but the first is a parent of
/// the node before.
pub open spec fn is_path(g: Graph, path: Seq<int>) -> bool {
    &&& path.len() >= 2
    &&& forall|i: int| 0 <= i < path.len() - 1 ==> is_parent(g, path[i + 1], #[trigger] path[i])
}

/// From a node a path climbs to each of its ancestors.
pub proof fn lemma_ancestor_has_path(g: Graph, a: int, b: int) -> (path: Seq<int>)
    requires
        is_ancestor(g, a, b),
    ensures
        is_path(g, path),
        path.first() == b,
        path.last() == a,
    decreases b,
{
    let k = choose|k: int|
        0 <= k < g[b].len() && (#[trigger] g[b][k]) < b && (g[b][k] == a || is_ancestor(
            g,
            a,
            g[b][k] as int,
        ));
    let p = g[b][k] as int;
    assert(is_parent(g, p, b));
    if p == a {
        seq![b, a]
    } else {
        let rest = lemma_ancestor_has_path(g, a, p);
        let path = seq![b] + rest;
        assert forall|i: int| 0 <= i < path.len() - 1 implies is_parent(
            g,
            path[i + 1],
            #[trigger] path[i],
        ) by {
            if i > 0 {
                assert(is_parent(g, rest[(i - 1) + 1], rest[i - 1]));
            }
        }
        path
    }
}

/// A path climbs from a node to none but its ancestors.
pub proof fn lemma_path_ends_in_ancestor(g: Graph, path: Seq<int>)
    requires
        well_formed(g),
        is_path(g, path),
    ensures
        is_ancestor(g, path.last(), path.first()),
    decreases path.len(),
{
    assert(is_parent(g, path[0int + 1], path[0]));
    let k = choose|k: int| 0 <= k < g[path[0]].len() && (#[trigger] g[path[0]][k]) == path[1];
    assert(g[path[0]][k] < path[0]);
    if path.len() == 2 {
        lemma_parent_is_ancestor(g, path[1], path[0]);
    } else {
        let rest = path.subrange(1, path.len() as int);
        assert forall|i: int| 0 <= i < rest.len() - 1 implies is_parent(
            g,
            rest[i + 1],
            #[trigger] rest[i],
        ) by {
            assert(is_parent(g, path[(i + 1) + 1], path[i + 1]));
        }
        lemma_path_ends_in_ancestor(g, rest);
        lemma_ancestor_of_parent(g, path.last(), path[1], path[0]);
    }
}

/// An ancestor of an ancestor is an ancestor.
pub proof fn lemma_ancestor_transitive(g: Graph, a: int, b: int, c: int)
    requires
        is_ancestor(g, a, b),
        is_ancestor(g, b, c),
    ensures
        is_ancestor(g, a, c),
    decreases c,
{
    let k = choose|k: int|
        0 <= k < g[c].len() && (#[trigger] g[c][k]) < c && (g[c][k] == b || is_ancestor(
            g,
            b,
            g[c][k] as int,
        ));
    let p = g[c][k] as int;
    if p != b {
        lemma_ancestor_transitive(g, a, b, p);
    }
    assert(g[c][k] < c && is_ancestor(g, a, g[c][k] as int));
}

/// Whether `a` is an ancestor of `b` depends on the nodes up to `b` alone.
pub proof fn lemma_ancestor_local(g: Graph, h: Graph, a: int, b: int)
    requires
        agree_upto(g, h, b + 1),
    ensures
        is_ancestor(g, a, b) == is_ancestor(h, a, b),
    decreases b,
{
    if 0 <= b {
        assert(g[b] == h[b]);
        if is_ancestor(g, a, b) {
            let k = choose|k: int|
                0 <= k < g[b].len() && (#[trigger] g[b][k]) < b && (g[b][k] == a || is_ancestor(
                    g,
                    a,
                    g[b][k] as int,
                ));
            lemma_ancestor_local(g, h, a, g[b][k] as int);
            assert(h[b][k] < b && (h[b][k] == a || is_ancestor(h, a, h[b][k] as int)));
        }
        if is_ancestor(h, a, b) {
            let k = choose|k: int|
                0 <= k < h[b].len() && (#[trigger] h[b][k]) < b && (h[b][k] == a || is_ancestor(
                    h,
                    a,
                    h[b][k] as int,
                ));
            lemma_ancestor_local(g, h, a, h[b][k] as int);
            assert(g[b][k] < b && (g[b][k] == a || is_ancestor(g, a, g[b][k] as int)));
        }
    }
}

/// `tallest` exceeds the generation of each of the first `k` parents, and
/// by one that of one of them.
pub proof fn lemma_tallest(g: Graph, b: int, k: nat)
    requires
        well_formed(g),
        0 <= b < g.len(),
        k <= g[b].len(),
    ensures
        k == 0 ==> tallest(g, b, k) == 0,
        forall|j: int| 0 <= j < k ==> generation(g, (#[trigger] g[b][j]) as int) < tallest(g, b, k),
        k > 0 ==> exists|j: int|
            0 <= j < k && generation(g, (#[trigger] g[b][j]) as int) + 1 == tallest(g, b, k),
    decreases k,
{
    if k > 0 {
        lemma_tallest(g, b, (k - 1) as nat);
        let rest = tallest(g, b, (k - 1) as nat);
        let p = g[b][k - 1] as int;
        assert(p < b);
        if generation(g, p) + 1 > rest {
            assert(generation(g, g[b][k - 1] as int) + 1 == tallest(g, b, k));
        } else {
            if k - 1 > 0 {
                let j = choose|j: int|
                    0 <= j < k - 1 && generation(g, (#[trigger] g[b][j]) as int) + 1 == rest;
                assert(generation(g, g[b][j] as int) + 1 == tallest(g, b, k));
            }
        }
    }
}

/// The generation of a node without parents is zero; that of any other node
/// is one more than the greatest generation among its parents.
pub proof fn lemma_generation(g: Graph, b: int)
    requires
        well_formed(g),
        0 <= b < g.len(),
    ensures
        g[b].len() == 0 ==> generation(g, b) == 0,
        forall|p: int| is_parent(g, p, b) ==> generation(g, p) < generation(g, b),
        g[b].len() > 0 ==> exists|p: int| #[trigger]
            is_parent(g, p, b) && generation(g, p) + 1 == generation(g, b),
{
    lemma_tallest(g, b, g[b].len());
    assert forall|p: int| is_parent(g, p, b) implies generation(g, p) < generation(g, b) by {
        let k = choose|k: int| 0 <= k < g[b].len() && (#[trigger] g[b][k]) == p;
        assert(generation(g, g[b][k] as int) < tallest(g, b, g[b].len()));
    }
    if g[b].len() > 0 {
        let j = choose|j: int|
            0 <= j < g[b].len() && generation(g, (#[trigger] g[b][j]) as int) + 1 == tallest(
                g,
                b,
                g[b].len(),
            );
        assert(is_parent(g, g[b][j] as int, b));
    }
}

/// A node's generation is at most its position.
pub proof fn lemma_generation_bound(g: Graph, b: int)
    requires
        well_formed(g),
        0 <= b < g.len(),
    ensures
        generation(g, b) <= b,
    decreases b,
{
    lemma_generation(g, b);
    if g[b].len() > 0 {
        let p = choose|p: int| #[trigger]
            is_parent(g, p, b) && generation(g, p) + 1 == generation(g, b);
        let k = choose|k: int| 0 <= k < g[b].len() && (#[trigger] g[b][k]) == p;
        lemma_generation_bound(g, p);
    }
}

/// An ancestor is of a lower generation than its descendant.
pub proof fn lemma_ancestor_is_older(g: Graph, a: int, b: int)
    requires
        well_formed(g),
        is_ancestor(g, a, b),
    ensures
        generation(g, a) < generation(g, b),
    decreases b,
{
    let k = choose|k: int|
        0 <= k < g[b].len() && (#[trigger] g[b][k]) < b && (g[b][k] == a || is_ancestor(
            g,
            a,
            g[b][k] as int,
        ));
    let p = g[b][k] as int;
    lemma_generation(g, b);
    assert(is_parent(g, p, b));
    if p != a {
        lemma_ancestor_is_older(g, a, p);
    }
}

/// `tallest` depends on the nodes up to `b` alone.
proof fn lemma_tallest_local(g: Graph, h: Graph, b: int, k: nat)
    requires
        agree_upto(g, h, b + 1),
        0 <= b,
        k <= g[b].len(),
        forall|p: int| 0 <= p < b ==> generation(g, p) == generation(h, p),
    ensures
        tallest(g, b, k) == tallest(h, b, k),
    decreases k,
{
    assert(g[b] == h[b]);
    if k > 0 {
        lemma_tallest_local(g, h, b, (k - 1) as nat);
        let p = g[b][k - 1] as int;
        assert(h[b][k - 1] as int == p);
        if p < b {
            assert(generation(g, p) == generation(h, p));
        }
        assert(tallest(g, b, k) == tallest(h, b, k));
    } else {
        assert(tallest(g, b, k) == 0);
        assert(tallest(h, b, k) == 0);
    }
}

/// A node's generation depends on the nodes up to it alone.
pub proof fn lemma_generation_local(g: Graph, h: Graph, b: int)
    requires
        agree_upto(g, h, b + 1),
    ensures
        generation(g, b) == generation(h, b),
    decreases b,
{
    if 0 <= b {
        assert(g[b] == h[b]);
        assert forall|p: int| 0 <= p < b implies generation(g, p) == generation(h, p) by {
            lemma_generation_local(g, h, p);
        }
        lemma_tallest_local(g, h, b, g[b].len());
    }
}

/// The count of total cuts does not fall as the generation rises.
pub proof fn lemma_cuts_below_monotone(g: Graph, x: nat, y: nat)
    requires
        x <= y,
    ensures
        cuts_below(g, x) <= cuts_below(g, y),
    decreases y,
{
    if x < y {
        lemma_cuts_below_monotone(g, x, (y - 1) as nat);
    }
}

/// Two graphs with the same total cuts below `x` count the same number.
pub proof fn lemma_cuts_below_agree(g: Graph, h: Graph, x: nat)
    requires
        forall|c: nat| c < x ==> total_cut(g, c) == total_cut(h, c),
    ensures
        cuts_below(g, x) == cuts_below(h, x),
    decreases x,
{
    if x > 0 {
        lemma_cuts_below_agree(g, h, (x - 1) as nat);
    }
}

/// Where no cut from `lo` up to `x` is total, the count does not grow.
pub proof fn lemma_cuts_below_flat(g: Graph, lo: nat, x: nat)
    requires
        lo <= x,
        forall|c: nat| lo <= c < x ==> !total_cut(g, c),
    ensures
        cuts_below(g, x) == cuts_below(g, lo),
    decreases x,
{
    if lo < x {
        lemma_cuts_below_flat(g, lo, (x - 1) as nat);
    }
}

/// A total cut between two generations raises the count.
pub proof fn lemma_cuts_below_step(g: Graph, c: nat, y: nat)
    requires
        c < y,
        total_cut(g, c),
    ensures
        cuts_below(g, c) < cuts_below(g, y),
    decreases y,
{
    if c + 1 < y {
        lemma_cuts_below_step(g, c, (y - 1) as nat);
    }
}

/// Where the count grows from `x` to `y`, a total cut lies between.
pub proof fn lemma_cuts_below_witness(g: Graph, x: nat, y: nat) -> (c: nat)
    requires
        cuts_below(g, x) < cuts_below(g, y),
    ensures
        x <= c < y,
        total_cut(g, c),
    decreases y,
{
    if y <= x {
        lemma_cuts_below_monotone(g, y, x);
        0
    } else if total_cut(g, (y - 1) as nat) {
        (y - 1) as nat
    } else {
        lemma_cuts_below_witness(g, x, (y - 1) as nat)
    }
}

/// Among the ancestors of a node there is one of each lower generation.
pub proof fn lemma_ancestor_of_generation(g: Graph, b: int, h: nat) -> (m: int)
    requires
        well_formed(g),
        0 <= b < g.len(),
        h < generation(g, b),
    ensures
        is_ancestor(g, m, b),
        generation(g, m) == h,
    decreases b,
{
    lemma_generation(g, b);
    let p = choose|p: int| #[trigger]
        is_parent(g, p, b) && generation(g, p) + 1 == generation(g, b);
    let k = choose|k: int| 0 <= k < g[b].len() && (#[trigger] g[b][k]) == p;
    assert(g[b][k] < b);
    lemma_parent_is_ancestor(g, p, b);
    if generation(g, p) == h {
        p
    } else {
        let m = lemma_ancestor_of_generation(g, p, h);
        lemma_ancestor_of_parent(g, m, p, b);
        m
    }
}

/// A node of a lower cohort is an ancestor of every node of a higher one.
pub proof fn lemma_lower_cohort_is_ancestor(g: Graph, a: int, b: int)
    requires
        0 <= a < g.len(),
        0 <= b < g.len(),
        cohort_height(g, a) < cohort_height(g, b),
    ensures
        is_ancestor(g, a, b),
{
    let c = lemma_cuts_below_witness(g, generation(g, a), generation(g, b));
    assert(total_cut(g, c));
}

/// Every node of the cohort that holds generation `h` is an ancestor of
/// every node of a greater generation: the cohorts on the two sides of the
/// cut after `h` are not to be merged.
pub open spec fn cohort_cut(g: Graph, h: nat) -> bool {
    forall|a: int, b: int|
        0 <= a < g.len() && 0 <= b < g.len() && generation(g, a) <= h < generation(g, b)
            && cohort_height(g, a) == cuts_below(g, h) ==> #[trigger] is_ancestor(g, a, b)
}

/// Whether a cut is total is decided by the cohort just below it: where
/// its nodes are ancestors of all that lies above, so are all nodes below.
pub proof fn lemma_cut_by_cohort(g: Graph, h: nat)
    requires
        well_formed(g),
    ensures
        total_cut(g, h) == cohort_cut(g, h),
{
    if cohort_cut(g, h) {
        assert forall|a: int, b: int|
            0 <= a < g.len() && 0 <= b < g.len() && generation(g, a) <= h < generation(
                g,
                b,
            ) implies #[trigger] is_ancestor(g, a, b) by {
            if cohort_height(g, a) != cuts_below(g, h) {
                lemma_cuts_below_monotone(g, generation(g, a), h);
                let m = lemma_ancestor_of_generation(g, b, h);
                lemma_ancestor_precedes(g, m, b);
                lemma_lower_cohort_is_ancestor(g, a, m);
                assert(is_ancestor(g, m, b));
                lemma_ancestor_transitive(g, a, m, b);
            }
        }
    }
}

/// Two strictly ascending sequences with the same items are one sequence.
pub proof fn lemma_ascending_unique(s: Seq<usize>, t: Seq<usize>)
    requires
        ascending(s),
        ascending(t),
        forall|x: usize| s.contains(x) == t.contains(x),
    ensures
        s == t,
    decreases s.len(),
{
    if s.len() == 0 {
        if t.len() > 0 {
            assert(t.contains(t[0]));
            assert(s.contains(t[0]));
        }
        assert(s =~= t);
    } else {
        let m = s.last();
        assert(s.contains(m));
        assert(t.contains(m));
        let j = choose|j: int| 0 <= j < t.len() && t[j] == m;
        assert(t.contains(t.last()));
        assert(s.contains(t.last()));
        let i = choose|i: int| 0 <= i < s.len() && s[i] == t.last();
        assert(t.last() == m);
        let s0 = s.drop_last();
        let t0 = t.drop_last();
        assert forall|x: usize| s0.contains(x) == t0.contains(x) by {
            if s0.contains(x) {
                let i0 = choose|i0: int| 0 <= i0 < s0.len() && s0[i0] == x;
                assert(s[i0] == x);
                assert(s.contains(x));
                let j0 = choose|j0: int| 0 <= j0 < t.len() && t[j0] == x;
                assert(t0[j0] == x);
            }
            if t0.contains(x) {
                let j0 = choose|j0: int| 0 <= j0 < t0.len() && t0[j0] == x;
                assert(t[j0] == x);
                assert(t.contains(x));
                let i0 = choose|i0: int| 0 <= i0 < s.len() && s[i0] == x;
                assert(s0[i0] == x);
            }
        }
        lemma_ascending_unique(s0, t0);
        assert(s =~= s0.push(m));
        assert(t =~= t0.push(m));
    }
}

} // verus!
