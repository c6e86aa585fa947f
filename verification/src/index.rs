//! The derived relations of a braid: children, siblings, generations and
//! cohorts. They are a function of the parent relation, kept up to date one
//! node at a time and rebuilt from nothing on demand.

use crate::ancestry::ancestors;
use crate::dag::{
    agree_upto, ascending, cohort_height, cuts_below, generation, graph_of, holds, is_ancestor,
    is_parent, lemma_ancestor_local, lemma_ancestor_precedes, lemma_ascending_unique,
    lemma_cuts_below_agree, lemma_cuts_below_flat, lemma_generation, lemma_generation_bound,
    lemma_generation_local, siblings, tallest, total_cut, well_formed, Graph,
};
use vstd::prelude::*;

verus! {

/// The derived relations, each indexed by a node's position.
#[derive(Clone, Debug, PartialEq, Eq)]
pub struct GraphIndex {
    children: Vec<Vec<usize>>,
    siblings: Vec<Vec<usize>>,
    generation: Vec<usize>,
    cohort: Vec<usize>,
    cuts: Vec<bool>,
}

/// What a `GraphIndex` holds, as plain sequences. `cuts[h]` says whether the
/// cut after generation `h` is total.
pub struct IndexView {
    pub children: Seq<Seq<usize>>,
    pub siblings: Seq<Seq<usize>>,
    pub generation: Seq<usize>,
    pub cohort: Seq<usize>,
    pub cuts: Seq<bool>,
}

/// `s` lists the children of `i`, each once, in ascending order.
pub open spec fn lists_children(s: Seq<usize>, g: Graph, i: int) -> bool {
    &&& ascending(s)
    &&& forall|j: int| 0 <= j < s.len() ==> is_parent(g, i, (#[trigger] s[j]) as int)
    &&& forall|c: int| is_parent(g, i, c) ==> holds(s, c)
}

/// `s` lists the siblings of `i`, each once, in ascending order.
pub open spec fn lists_siblings(s: Seq<usize>, g: Graph, i: int) -> bool {
    &&& ascending(s)
    &&& forall|j: int| 0 <= j < s.len() ==> siblings(g, i, (#[trigger] s[j]) as int)
    &&& forall|x: int| siblings(g, i, x) ==> holds(s, x)
}

/// `t` lists the children of every node of `g`.
pub open spec fn children_mirror(t: Seq<Seq<usize>>, g: Graph) -> bool {
    &&& t.len() == g.len()
    &&& forall|i: int| 0 <= i < g.len() ==> lists_children(#[trigger] t[i], g, i)
}

/// `t` lists the siblings of every node of `g`.
pub open spec fn siblings_mirror(t: Seq<Seq<usize>>, g: Graph) -> bool {
    &&& t.len() == g.len()
    &&& forall|i: int| 0 <= i < g.len() ==> lists_siblings(#[trigger] t[i], g, i)
}

/// `t` gives the generation of every node of `g`.
pub open spec fn generation_mirror(t: Seq<usize>, g: Graph) -> bool {
    &&& t.len() == g.len()
    &&& forall|i: int| 0 <= i < g.len() ==> (#[trigger] t[i]) == generation(g, i)
}

/// `t` gives the cohort height of every node of `g`.
pub open spec fn cohort_mirror(t: Seq<usize>, g: Graph) -> bool {
    &&& t.len() == g.len()
    &&& forall|i: int| 0 <= i < g.len() ==> (#[trigger] t[i]) == cohort_height(g, i)
}

/// There is one cut for each generation but the last, and each is marked
/// as total exactly where it is.
pub open spec fn cuts_mirror(t: Seq<bool>, g: Graph) -> bool {
    &&& forall|i: int| 0 <= i < g.len() ==> #[trigger] generation(g, i) <= t.len()
    &&& g.len() > 0 ==> exists|i: int| 0 <= i < g.len() && #[trigger] generation(g, i) == t.len()
    &&& g.len() == 0 ==> t.len() == 0
    &&& forall|h: int| 0 <= h < t.len() ==> (#[trigger] t[h]) == total_cut(g, h as nat)
}

/// The index holds exactly what the graph `g` determines.
pub open spec fn mirrors(v: IndexView, g: Graph) -> bool {
    &&& children_mirror(v.children, g)
    &&& siblings_mirror(v.siblings, g)
    &&& generation_mirror(v.generation, g)
    &&& cohort_mirror(v.cohort, g)
    &&& cuts_mirror(v.cuts, g)
}

/// How many of the first `h` cuts are marked as total.
pub open spec fn tally(cuts: Seq<bool>, h: nat) -> nat
    decreases h,
{
    if h == 0 {
        0
    } else {
        tally(cuts, (h - 1) as nat) + if h - 1 < cuts.len() && cuts[h - 1] {
            1nat
        } else {
            0nat
        }
    }
}

/// Marks that are set where the cuts are total count the total cuts.
proof fn lemma_tally(cuts: Seq<bool>, g: Graph, h: nat)
    requires
        h <= cuts.len(),
        forall|c: int| 0 <= c < cuts.len() ==> (#[trigger] cuts[c]) == total_cut(g, c as nat),
    ensures
        tally(cuts, h) == cuts_below(g, h),
        tally(cuts, h) <= h,
    decreases h,
{
    if h > 0 {
        lemma_tally(cuts, g, (h - 1) as nat);
        assert(cuts[h - 1] == total_cut(g, (h - 1) as nat));
    }
}

/// What the graph without its last node has in common with the graph.
proof fn lemma_without_last(g: Graph)
    requires
        g.len() >= 1,
        well_formed(g),
    ensures
        well_formed(g.drop_last()),
        agree_upto(g.drop_last(), g, g.len() - 1),
        forall|a: int, b: int|
            #![trigger is_ancestor(g.drop_last(), a, b)]
            #![trigger is_ancestor(g, a, b)]
            0 <= b < g.len() - 1 ==> is_ancestor(g.drop_last(), a, b) == is_ancestor(g, a, b),
        forall|b: int|
            #![trigger generation(g.drop_last(), b)]
            #![trigger generation(g, b)]
            0 <= b < g.len() - 1 ==> generation(g.drop_last(), b) == generation(g, b),
        forall|p: int, c: int|
            #![trigger is_parent(g.drop_last(), p, c)]
            #![trigger is_parent(g, p, c)]
            0 <= c < g.len() - 1 ==> is_parent(g.drop_last(), p, c) == is_parent(g, p, c),
        forall|a: int, b: int|
            #![trigger siblings(g.drop_last(), a, b)]
            #![trigger siblings(g, a, b)]
            0 <= a < g.len() - 1 && 0 <= b < g.len() - 1 ==> siblings(g.drop_last(), a, b)
                == siblings(g, a, b),
        forall|a: int, b: int| a >= g.len() - 1 ==> !#[trigger] is_ancestor(g, a, b),
        forall|p: int, c: int| p >= g.len() - 1 ==> !#[trigger] is_parent(g, p, c),
{
    let g0 = g.drop_last();
    let n = g.len() - 1;
    assert(agree_upto(g0, g, n));
    assert forall|a: int, b: int| 0 <= b < n implies is_ancestor(g0, a, b) == is_ancestor(
        g,
        a,
        b,
    ) by {
        lemma_ancestor_local(g0, g, a, b);
    }
    assert forall|b: int| 0 <= b < n implies generation(g0, b) == generation(g, b) by {
        lemma_generation_local(g0, g, b);
    }
    assert forall|p: int, c: int| 0 <= c < n implies is_parent(g0, p, c) == is_parent(g, p, c) by {
        assert(g0[c] == g[c]);
    }
    assert forall|a: int, b: int| a >= n implies !#[trigger] is_ancestor(g, a, b) by {
        if is_ancestor(g, a, b) {
            lemma_ancestor_precedes(g, a, b);
        }
    }
    assert forall|p: int, c: int| p >= n implies !#[trigger] is_parent(g, p, c) by {
        if is_parent(g, p, c) {
            let k = choose|k: int| 0 <= k < g[c].len() && (#[trigger] g[c][k]) == p;
            assert(g[c][k] < c);
        }
    }
    assert forall|b: int, k: int| 0 <= b < g0.len() && 0 <= k < g0[b].len() implies (
    #[trigger] g0[b][k]) < b by {
        assert(g0[b] == g[b]);
        assert(g[b][k] < b);
    }
    assert forall|b: int, k: int, l: int|
        0 <= b < g0.len() && 0 <= k < l < g0[b].len() implies g0[b][k] != g0[b][l] by {
        assert(g0[b] == g[b]);
        assert(g[b][k] != g[b][l]);
    }
}

/// The last node's generation exceeds the greatest before it by one at
/// most.
proof fn lemma_top_bound(g: Graph, cuts: Seq<bool>)
    requires
        g.len() >= 1,
        well_formed(g),
        cuts_mirror(cuts, g.drop_last()),
    ensures
        generation(g, g.len() - 1) <= cuts.len() + 1,
{
    let n = g.len() - 1;
    lemma_without_last(g);
    lemma_generation(g, n);
    if g[n].len() > 0 {
        let p = choose|p: int| #[trigger]
            is_parent(g, p, n) && generation(g, p) + 1 == generation(g, n);
        let k = choose|k: int| 0 <= k < g[n].len() && (#[trigger] g[n][k]) == p;
        assert(g[n][k] < n);
        assert(generation(g.drop_last(), p) <= cuts.len());
    }
}

/// The cuts after the last node has come: those below `low` are as they
/// were, and none from `low` on is total.
proof fn lemma_cuts_extended(g: Graph, low: nat, cuts0: Seq<bool>, cuts1: Seq<bool>)
    requires
        g.len() >= 1,
        well_formed(g),
        cuts_mirror(cuts0, g.drop_last()),
        low <= generation(g, g.len() - 1),
        forall|a: int|
            0 <= a < g.len() - 1 && generation(g, a) < low ==> is_ancestor(g, a, g.len() - 1),
        low < generation(g, g.len() - 1) ==> exists|a: int|
            0 <= a < g.len() - 1 && generation(g, a) == low && !is_ancestor(g, a, g.len() - 1),
        cuts1.len() == if generation(g, g.len() - 1) > cuts0.len() {
            generation(g, g.len() - 1)
        } else {
            cuts0.len()
        },
        forall|h: int| 0 <= h < low && h < cuts0.len() ==> cuts1[h] == cuts0[h],
        forall|h: int| cuts0.len() <= h < low ==> cuts1[h],
        forall|h: int| low <= h < cuts1.len() ==> !cuts1[h],
    ensures
        cuts_mirror(cuts1, g),
        forall|c: nat| c < low ==> total_cut(g, c) == total_cut(g.drop_last(), c),
{
    let n = g.len() - 1;
    let g0 = g.drop_last();
    let top = generation(g, n);
    lemma_without_last(g);
    lemma_top_bound(g, cuts0);
    assert forall|c: nat| c < low implies total_cut(g, c) == total_cut(g0, c) by {
        if total_cut(g0, c) {
            assert forall|a: int, b: int|
                0 <= a < g.len() && 0 <= b < g.len() && generation(g, a) <= c < generation(
                    g,
                    b,
                ) implies #[trigger] is_ancestor(g, a, b) by {
                if b == n {
                } else {
                    assert(a < n);
                    assert(is_ancestor(g0, a, b));
                }
            }
        }
        if total_cut(g, c) {
            assert forall|a: int, b: int|
                0 <= a < g0.len() && 0 <= b < g0.len() && generation(g0, a) <= c < generation(
                    g0,
                    b,
                ) implies #[trigger] is_ancestor(g0, a, b) by {
                assert(is_ancestor(g, a, b));
            }
        }
    }
    assert forall|h: int| 0 <= h < cuts1.len() implies (#[trigger] cuts1[h]) == total_cut(
        g,
        h as nat,
    ) by {
        if h < low {
            if h < cuts0.len() {
                assert(cuts0[h] == total_cut(g0, h as nat));
            } else {
                assert forall|a: int, b: int|
                    0 <= a < g0.len() && 0 <= b < g0.len() && generation(g0, a) <= h < generation(
                        g0,
                        b,
                    ) implies #[trigger] is_ancestor(g0, a, b) by {
                    assert(generation(g0, b) <= cuts0.len());
                }
                assert(total_cut(g0, h as nat));
            }
        } else if h < top {
            let a = choose|a: int|
                0 <= a < g.len() - 1 && generation(g, a) == low && !is_ancestor(g, a, g.len() - 1);
            assert(!is_ancestor(g, a, n));
            assert(!total_cut(g, h as nat));
        } else {
            assert(n > 0);
            let t = choose|i: int| 0 <= i < g0.len() && #[trigger] generation(g0, i) == cuts0.len();
            assert(generation(g, t) == cuts0.len());
            assert(!is_ancestor(g, n, t));
            assert(!total_cut(g, h as nat));
        }
    }
    assert forall|i: int| 0 <= i < g.len() implies #[trigger] generation(g, i) <= cuts1.len() by {
        if i < n {
            assert(generation(g0, i) <= cuts0.len());
        }
    }
    if top > cuts0.len() {
        assert(generation(g, n) == cuts1.len());
    } else {
        if n > 0 {
            let t = choose|i: int| 0 <= i < g0.len() && #[trigger] generation(g0, i) == cuts0.len();
            assert(generation(g, t) == cuts1.len());
        } else {
            assert(generation(g, n) == cuts1.len());
        }
    }
}

/// The cohort heights after the last node has come.
proof fn lemma_cohort_extended(
    g: Graph,
    low: nat,
    cuts1: Seq<bool>,
    cohort0: Seq<usize>,
    cohort1: Seq<usize>,
)
    requires
        g.len() >= 1,
        well_formed(g),
        cohort_mirror(cohort0, g.drop_last()),
        cuts_mirror(cuts1, g),
        low <= generation(g, g.len() - 1),
        forall|c: nat| c < low ==> total_cut(g, c) == total_cut(g.drop_last(), c),
        forall|h: int| low <= h < cuts1.len() ==> !cuts1[h],
        cohort1.len() == g.len(),
        forall|b: int|
            0 <= b < g.len() - 1 ==> cohort1[b] == if generation(g, b) >= low {
                tally(cuts1, low) as usize
            } else {
                cohort0[b]
            },
        cohort1[g.len() - 1] == tally(cuts1, low),
    ensures
        cohort_mirror(cohort1, g),
{
    let n = g.len() - 1;
    let g0 = g.drop_last();
    lemma_without_last(g);
    lemma_tally(cuts1, g, low);
    assert forall|i: int| 0 <= i < g.len() implies (#[trigger] cohort1[i]) == cohort_height(
        g,
        i,
    ) by {
        let x = generation(g, i);
        assert(x <= cuts1.len());
        if x >= low {
            assert forall|c: nat| low <= c < x implies !total_cut(g, c) by {
                assert(cuts1[c as int] == total_cut(g, c));
            }
            lemma_cuts_below_flat(g, low, x);
        } else {
            assert(i < n);
            assert(generation(g0, i) == x);
            lemma_cuts_below_agree(g, g0, x);
            assert(cohort0[i] == cohort_height(g0, i));
        }
    }
}

/// The children lists after the last node has come.
proof fn lemma_children_extended(g: Graph, t0: Seq<Seq<usize>>, t1: Seq<Seq<usize>>)
    requires
        1 <= g.len() <= usize::MAX,
        well_formed(g),
        children_mirror(t0, g.drop_last()),
        t1.len() == g.len(),
        t1[g.len() - 1].len() == 0,
        forall|i: int|
            0 <= i < g.len() - 1 ==> t1[i] == if holds(g[g.len() - 1], i) {
                t0[i].push((g.len() - 1) as usize)
            } else {
                t0[i]
            },
    ensures
        children_mirror(t1, g),
{
    let n = g.len() - 1;
    let g0 = g.drop_last();
    lemma_without_last(g);
    assert forall|i: int| 0 <= i < g.len() implies lists_children(#[trigger] t1[i], g, i) by {
        if i < n {
            let s0 = t0[i];
            let s1 = t1[i];
            assert(lists_children(s0, g0, i));
            assert forall|j: int| 0 <= j < s0.len() implies (#[trigger] s0[j]) < n by {
                assert(is_parent(g0, i, s0[j] as int));
            }
            assert forall|j: int| 0 <= j < s1.len() implies is_parent(
                g,
                i,
                (#[trigger] s1[j]) as int,
            ) by {
                if j < s0.len() {
                    assert(is_parent(g0, i, s0[j] as int));
                } else {
                    let k = choose|k: int| 0 <= k < g[n].len() && g[n][k] == i;
                    assert(g[n][k] == i);
                }
            }
            assert forall|c: int| is_parent(g, i, c) implies holds(s1, c) by {
                if c < n {
                    assert(is_parent(g0, i, c));
                    assert(holds(s0, c));
                    let j = choose|j: int| 0 <= j < s0.len() && s0[j] == c;
                    assert(s1[j] == c);
                } else {
                    let k = choose|k: int| 0 <= k < g[c].len() && (#[trigger] g[c][k]) == i;
                    assert(holds(g[n], i));
                    assert(s1[s0.len() as int] == n);
                }
            }
        }
    }
}

/// The sibling lists after the last node has come.
proof fn lemma_siblings_extended(
    g: Graph,
    marks: Seq<bool>,
    t0: Seq<Seq<usize>>,
    t1: Seq<Seq<usize>>,
)
    requires
        1 <= g.len() <= usize::MAX,
        well_formed(g),
        siblings_mirror(t0, g.drop_last()),
        marks.len() >= g.len(),
        forall|a: int| 0 <= a < g.len() - 1 ==> marks[a] == is_ancestor(g, a, g.len() - 1),
        t1.len() == g.len(),
        forall|a: int|
            0 <= a < g.len() - 1 ==> t1[a] == if marks[a] {
                t0[a]
            } else {
                t0[a].push((g.len() - 1) as usize)
            },
        ascending(t1[g.len() - 1]),
        forall|j: int|
            0 <= j < t1[g.len() - 1].len() ==> (#[trigger] t1[g.len() - 1][j]) < g.len() - 1
                && !marks[t1[g.len() - 1][j] as int],
        forall|a: int| 0 <= a < g.len() - 1 && !marks[a] ==> holds(t1[g.len() - 1], a),
    ensures
        siblings_mirror(t1, g),
{
    let n = g.len() - 1;
    let g0 = g.drop_last();
    lemma_without_last(g);
    assert forall|i: int| 0 <= i < g.len() implies lists_siblings(#[trigger] t1[i], g, i) by {
        let s1 = t1[i];
        if i < n {
            let s0 = t0[i];
            assert(lists_siblings(s0, g0, i));
            assert forall|j: int| 0 <= j < s0.len() implies (#[trigger] s0[j]) < n by {
                assert(siblings(g0, i, s0[j] as int));
            }
            assert forall|j: int| 0 <= j < s1.len() implies siblings(
                g,
                i,
                (#[trigger] s1[j]) as int,
            ) by {
                if j < s0.len() {
                    assert(siblings(g0, i, s0[j] as int));
                }
            }
            assert(ascending(s1));
            assert forall|x: int| siblings(g, i, x) implies holds(s1, x) by {
                if x < n {
                    assert(siblings(g0, i, x));
                    assert(holds(s0, x));
                    let j = choose|j: int| 0 <= j < s0.len() && s0[j] == x;
                    assert(s1[j] == x);
                } else {
                    assert(s1[s0.len() as int] == n);
                }
            }
        } else {
            assert forall|j: int| 0 <= j < s1.len() implies siblings(
                g,
                i,
                (#[trigger] s1[j]) as int,
            ) by {
                assert(!marks[s1[j] as int]);
            }
            assert forall|x: int| siblings(g, i, x) implies holds(s1, x) by {
                assert(marks[x] == is_ancestor(g, x, n));
                assert(holds(t1[n], x));
            }
            assert(ascending(s1));
        }
    }
}

/// The generation of node `n`, from the generations of the nodes before it.
fn last_generation(g: &Vec<Vec<usize>>, n: usize, generations: &Vec<usize>) -> (top: usize)
    requires
        well_formed(graph_of(g@)),
        n < g.len(),
        generations.len() == n,
        forall|i: int| 0 <= i < n ==> generations[i] == generation(graph_of(g@), i),
    ensures
        top == generation(graph_of(g@), n as int),
{
    let ghost gr = graph_of(g@);
    let mut top: usize = 0;
    let mut k: usize = 0;
    while k < g[n].len()
        invariant
            gr == graph_of(g@),
            well_formed(gr),
            n < g.len(),
            generations.len() == n,
            forall|i: int| 0 <= i < n ==> generations[i] == generation(gr, i),
            k <= g[n as int].len(),
            top == tallest(gr, n as int, k as nat),
            top <= n,
        decreases g[n as int].len() - k,
    {
        let p = g[n][k];
        assert(gr[n as int][k as int] == p);
        assert(p < n);
        proof {
            lemma_generation_bound(gr, p as int);
        }
        let one_more: usize = generations[p] + 1;
        if one_more > top {
            top = one_more;
        }
        k += 1;
    }
    top
}

/// The lowest generation that holds an unmarked node, and `top` where no
/// generation below `top` holds one.
fn lowest_unordered(generations: &Vec<usize>, marks: &Vec<bool>, top: usize) -> (low: usize)
    requires
        marks.len() >= generations.len(),
    ensures
        low <= top,
        forall|a: int| 0 <= a < generations.len() && generations[a] < low ==> marks[a],
        low < top ==> exists|a: int|
            0 <= a < generations.len() && generations[a] == low && !marks[a],
{
    let mut low: usize = top;
    let mut a: usize = 0;
    while a < generations.len()
        invariant
            marks.len() >= generations.len(),
            a <= generations.len(),
            low <= top,
            forall|i: int| 0 <= i < a && generations[i] < low ==> marks[i],
            low < top ==> exists|i: int| 0 <= i < a && generations[i] == low && !marks[i],
        decreases generations.len() - a,
    {
        if !marks[a] && generations[a] < low {
            low = generations[a];
            assert(generations[a as int] == low && !marks[a as int]);
        }
        a += 1;
    }
    low
}

/// Adds the cut below a new top generation, and marks every cut from `low`
/// on as not total.
fn recut(cuts: &mut Vec<bool>, low: usize, top: usize)
    requires
        low <= top,
        top <= old(cuts).len() + 1,
    ensures
        final(cuts).len() == if top > old(cuts).len() {
            top
        } else {
            old(cuts).len()
        },
        forall|h: int| 0 <= h < low && h < old(cuts).len() ==> final(cuts)[h] == old(cuts)[h],
        forall|h: int| old(cuts).len() <= h < low ==> final(cuts)[h],
        forall|h: int| low <= h < final(cuts).len() ==> !final(cuts)[h],
{
    let ghost cuts0 = cuts@;
    if top > cuts.len() {
        cuts.push(true);
    }
    let ghost mid = cuts@;
    let mut h: usize = low;
    while h < cuts.len()
        invariant
            low <= h,
            low <= top,
            cuts.len() == mid.len(),
            mid.len() == if top > cuts0.len() {
                top as nat
            } else {
                cuts0.len()
            },
            forall|c: int| 0 <= c < cuts0.len() ==> mid[c] == cuts0[c],
            forall|c: int| cuts0.len() <= c < mid.len() ==> mid[c],
            forall|c: int| 0 <= c < low && c < mid.len() ==> cuts[c] == mid[c],
            forall|c: int| low <= c < h && c < cuts.len() ==> !cuts[c],
        decreases cuts.len() - h,
    {
        cuts.set(h, false);
        h += 1;
    }
    assert forall|c: int| cuts0.len() <= c < low implies cuts@[c] by {
        assert(cuts@[c] == mid[c]);
    }
}

/// How many of the first `low` cuts are marked as total.
fn count_cuts(cuts: &Vec<bool>, low: usize) -> (r: usize)
    requires
        low <= cuts.len(),
    ensures
        r == tally(cuts@, low as nat),
{
    let mut r: usize = 0;
    let mut h: usize = 0;
    while h < low
        invariant
            h <= low <= cuts.len(),
            r <= h,
            r == tally(cuts@, h as nat),
        decreases low - h,
    {
        if cuts[h] {
            r += 1;
        }
        h += 1;
    }
    r
}

/// Gives every node of generation `low` or more the cohort `height`, and
/// the new node too.
fn relevel(cohort: &mut Vec<usize>, generations: &Vec<usize>, low: usize, height: usize)
    requires
        old(cohort).len() == generations.len(),
    ensures
        final(cohort).len() == old(cohort).len() + 1,
        forall|b: int|
            0 <= b < old(cohort).len() ==> final(cohort)[b] == if generations[b] >= low {
                height
            } else {
                old(cohort)[b]
            },
        final(cohort)[old(cohort).len() as int] == height,
{
    let ghost cohort0 = cohort@;
    let mut b: usize = 0;
    while b < cohort.len()
        invariant
            cohort.len() == cohort0.len(),
            cohort.len() == generations.len(),
            b <= cohort.len(),
            forall|i: int|
                0 <= i < b ==> cohort[i] == if generations[i] >= low {
                    height
                } else {
                    cohort0[i]
                },
            forall|i: int| b <= i < cohort.len() ==> cohort[i] == cohort0[i],
        decreases cohort.len() - b,
    {
        if generations[b] >= low {
            cohort.set(b, height);
        }
        b += 1;
    }
    cohort.push(height);
}

/// Makes the new node `n` and every unmarked node before it siblings of
/// each other.
fn add_siblings(table: &mut Vec<Vec<usize>>, marks: &Vec<bool>)
    requires
        marks.len() > old(table).len(),
    ensures
        final(table).len() == old(table).len() + 1,
        forall|a: int|
            0 <= a < old(table).len() ==> final(table)[a]@ == if marks[a] {
                old(table)[a]@
            } else {
                old(table)[a]@.push(old(table).len())
            },
        ascending(final(table)[old(table).len() as int]@),
        forall|j: int|
            0 <= j < final(table)[old(table).len() as int]@.len() ==> (
            #[trigger] final(table)[old(table).len() as int]@[j]) < old(table).len()
                && !marks[final(table)[old(table).len() as int]@[j] as int],
        forall|a: int|
            0 <= a < old(table).len() && !marks[a] ==> holds(
                final(table)[old(table).len() as int]@,
                a,
            ),
{
    let ghost table0 = table@;
    let n = table.len();
    let mut mine: Vec<usize> = Vec::new();
    let mut a: usize = 0;
    while a < n
        invariant
            n == table0.len(),
            table.len() == n,
            marks.len() > n,
            a <= n,
            forall|i: int|
                0 <= i < a ==> (#[trigger] table[i])@ == if marks[i] {
                    table0[i]@
                } else {
                    table0[i]@.push(n)
                },
            forall|i: int| a <= i < n ==> table[i] == table0[i],
            ascending(mine@),
            forall|j: int|
                0 <= j < mine.len() ==> (#[trigger] mine[j]) < a && !marks[mine[j] as int],
            forall|i: int| 0 <= i < a && !marks[i] ==> holds(mine@, i),
        decreases n - a,
    {
        if !marks[a] {
            let ghost mine0 = mine@;
            table[a].push(n);
            mine.push(a);
            proof {
                assert forall|i: int| 0 <= i < a + 1 && !marks[i] implies holds(mine@, i) by {
                    if i < a {
                        assert(holds(mine0, i));
                        let j = choose|j: int| 0 <= j < mine0.len() && mine0[j] == i;
                        assert(mine@[j] == i);
                    } else {
                        assert(mine@[mine0.len() as int] == i);
                    }
                }
            }
        }
        a += 1;
    }
    table.push(mine);
}

/// Makes the new node `n` a child of each of its parents `ps`.
fn add_children(table: &mut Vec<Vec<usize>>, ps: &Vec<usize>)
    requires
        forall|k: int| 0 <= k < ps.len() ==> ps[k] < old(table).len(),
        forall|k: int, l: int| 0 <= k < l < ps.len() ==> ps[k] != ps[l],
    ensures
        final(table).len() == old(table).len() + 1,
        final(table)[old(table).len() as int]@.len() == 0,
        forall|i: int|
            0 <= i < old(table).len() ==> final(table)[i]@ == if holds(ps@, i) {
                old(table)[i]@.push(old(table).len())
            } else {
                old(table)[i]@
            },
{
    let ghost table0 = table@;
    let n = table.len();
    let mut k: usize = 0;
    while k < ps.len()
        invariant
            n == table0.len(),
            table.len() == n,
            k <= ps.len(),
            forall|j: int| 0 <= j < ps.len() ==> ps[j] < n,
            forall|j: int, l: int| 0 <= j < l < ps.len() ==> ps[j] != ps[l],
            forall|i: int|
                0 <= i < n ==> (#[trigger] table[i])@ == if holds(ps@.take(k as int), i) {
                    table0[i]@.push(n)
                } else {
                    table0[i]@
                },
        decreases ps.len() - k,
    {
        let p = ps[k];
        let ghost before = ps@.take(k as int);
        let ghost after = ps@.take(k + 1);
        proof {
            if holds(before, p as int) {
                let j = choose|j: int| 0 <= j < before.len() && before[j] == p;
                assert(ps[j] != ps[k as int]);
            }
        }
        table[p].push(n);
        proof {
            assert forall|i: int| 0 <= i < n implies holds(after, i) == (i == p || holds(
                before,
                i,
            )) by {
                if holds(after, i) {
                    let j = choose|j: int| 0 <= j < after.len() && after[j] == i;
                    if j < k {
                        assert(before[j] == i);
                    }
                }
                if holds(before, i) {
                    let j = choose|j: int| 0 <= j < before.len() && before[j] == i;
                    assert(after[j] == i);
                }
                if i == p {
                    assert(after[k as int] == i);
                }
            }
        }
        k += 1;
    }
    proof {
        assert(ps@.take(ps.len() as int) =~= ps@);
    }
    table.push(Vec::new());
}

impl View for GraphIndex {
    type V = IndexView;

    closed spec fn view(&self) -> IndexView {
        IndexView {
            children: graph_of(self.children@),
            siblings: graph_of(self.siblings@),
            generation: self.generation@,
            cohort: self.cohort@,
            cuts: self.cuts@,
        }
    }
}

impl GraphIndex {
    /// The index of the graph without nodes.
    pub fn new() -> (r: GraphIndex)
        ensures
            mirrors(r@, Seq::empty()),
            r@.generation.len() == 0,
    {
        GraphIndex {
            children: Vec::new(),
            siblings: Vec::new(),
            generation: Vec::new(),
            cohort: Vec::new(),
            cuts: Vec::new(),
        }
    }

    /// Takes in node `n` of `g`, where the index holds the `n` nodes before
    /// it: finds the node's ancestors and generation, destroys the cuts that
    /// it crosses, moves the nodes above the lowest of these into one
    /// cohort, and records its children and siblings.
    pub fn extend(&mut self, g: &Vec<Vec<usize>>)
        requires
            well_formed(graph_of(g@)),
            old(self)@.generation.len() < g.len(),
            mirrors(old(self)@, graph_of(g@).take(old(self)@.generation.len() as int)),
        ensures
            final(self)@.generation.len() == old(self)@.generation.len() + 1,
            mirrors(final(self)@, graph_of(g@).take(old(self)@.generation.len() as int + 1)),
    {
        let n = self.generation.len();
        let ghost full = graph_of(g@);
        let ghost g1 = full.take(n + 1);
        let ghost g0 = full.take(n as int);
        let ghost v0 = self@;
        proof {
            assert(g0 =~= g1.drop_last());
            assert forall|b: int, k: int| 0 <= b < g1.len() && 0 <= k < g1[b].len() implies (
            #[trigger] g1[b][k]) < b by {
                assert(full[b][k] < b);
            }
            assert forall|b: int, k: int, l: int|
                0 <= b < g1.len() && 0 <= k < l < g1[b].len() implies g1[b][k] != g1[b][l] by {
                assert(full[b][k] != full[b][l]);
            }
            assert(well_formed(g1));
            lemma_without_last(g1);
            assert(agree_upto(g1, full, n + 1));
        }
        let marks = ancestors(g, n);
        proof {
            assert forall|a: int| 0 <= a < n implies marks@[a] == is_ancestor(g1, a, n as int) by {
                lemma_ancestor_local(g1, full, a, n as int);
            }
            assert forall|i: int| 0 <= i < n implies self.generation@[i] == generation(
                full,
                i,
            ) by {
                assert(self.generation@[i] == generation(g0, i));
                lemma_generation_local(g1, full, i);
            }
        }
        let top = last_generation(g, n, &self.generation);
        proof {
            lemma_generation_local(g1, full, n as int);
            lemma_top_bound(g1, self.cuts@);
        }
        let low = lowest_unordered(&self.generation, &marks, top);
        proof {
            if low < top {
                let a = choose|a: int|
                    0 <= a < self.generation@.len() && self.generation@[a] == low && !marks@[a];
                assert(generation(g1, a) == low && !is_ancestor(g1, a, n as int));
            }
            assert forall|a: int| 0 <= a < n && generation(g1, a) < low implies is_ancestor(
                g1,
                a,
                n as int,
            ) by {
                assert(self.generation@[a] == generation(g0, a));
            }
        }
        recut(&mut self.cuts, low, top);
        proof {
            lemma_cuts_extended(g1, low as nat, v0.cuts, self.cuts@);
            lemma_tally(self.cuts@, g1, low as nat);
        }
        let height = count_cuts(&self.cuts, low);
        relevel(&mut self.cohort, &self.generation, low, height);
        proof {
            assert forall|b: int| 0 <= b < n implies self.cohort@[b] == if generation(g1, b)
                >= low {
                tally(self.cuts@, low as nat) as usize
            } else {
                v0.cohort[b]
            } by {
                assert(self.generation@[b] == generation(g0, b));
            }
            lemma_cohort_extended(g1, low as nat, self.cuts@, v0.cohort, self.cohort@);
        }
        add_siblings(&mut self.siblings, &marks);
        add_children(&mut self.children, &g[n]);
        self.generation.push(top);
        proof {
            let c1 = graph_of(self.children@);
            let s1 = graph_of(self.siblings@);
            assert(g1[n as int] == g@[n as int]@);
            lemma_children_extended(g1, v0.children, c1);
            lemma_siblings_extended(g1, marks@, v0.siblings, s1);
            assert forall|i: int| 0 <= i < g1.len() implies (#[trigger] self.generation@[i])
                == generation(g1, i) by {
                if i < n {
                    assert(v0.generation[i] == generation(g0, i));
                }
            }
        }
    }

    /// The index of the graph `g`, made from nothing: the nodes are taken
    /// in one after the other.
    pub fn build(g: &Vec<Vec<usize>>) -> (r: GraphIndex)
        requires
            well_formed(graph_of(g@)),
        ensures
            mirrors(r@, graph_of(g@)),
    {
        let mut r = GraphIndex::new();
        let mut n: usize = 0;
        while n < g.len()
            invariant
                well_formed(graph_of(g@)),
                n <= g.len(),
                r@.generation.len() == n,
                mirrors(r@, graph_of(g@).take(n as int)),
            decreases g.len() - n,
        {
            r.extend(g);
            n += 1;
        }
        proof {
            assert(graph_of(g@).take(g.len() as int) =~= graph_of(g@));
        }
        r
    }

    /// The number of nodes that the index holds.
    pub fn len(&self) -> (r: usize)
        ensures
            r == self@.generation.len(),
    {
        self.generation.len()
    }

    /// The children of node `i`, in ascending order.
    pub fn children(&self, i: usize) -> (r: &Vec<usize>)
        requires
            i < self@.children.len(),
        ensures
            r@ == self@.children[i as int],
    {
        &self.children[i]
    }

    /// The siblings of node `i`, in ascending order.
    pub fn siblings(&self, i: usize) -> (r: &Vec<usize>)
        requires
            i < self@.siblings.len(),
        ensures
            r@ == self@.siblings[i as int],
    {
        &self.siblings[i]
    }

    /// The generation of node `i`.
    pub fn generation(&self, i: usize) -> (r: usize)
        requires
            i < self@.generation.len(),
        ensures
            r == self@.generation[i as int],
    {
        self.generation[i]
    }

    /// The height of the cohort of node `i`.
    pub fn cohort(&self, i: usize) -> (r: usize)
        requires
            i < self@.cohort.len(),
        ensures
            r == self@.cohort[i as int],
    {
        self.cohort[i]
    }
}

/// The derived relations are a function of the graph: two indexes that
/// mirror one graph hold the same.
pub proof fn lemma_index_determined(v: IndexView, w: IndexView, g: Graph)
    requires
        mirrors(v, g),
        mirrors(w, g),
    ensures
        v == w,
{
    assert forall|i: int| 0 <= i < g.len() implies v.children[i] == w.children[i] by {
        let s = v.children[i];
        let t = w.children[i];
        assert(lists_children(s, g, i));
        assert(lists_children(t, g, i));
        assert forall|x: usize| s.contains(x) == t.contains(x) by {
            if s.contains(x) {
                let j = choose|j: int| 0 <= j < s.len() && s[j] == x;
                assert(is_parent(g, i, s[j] as int));
                assert(holds(t, x as int));
                let l = choose|l: int| 0 <= l < t.len() && t[l] == x as int;
                assert(t[l] == x);
            }
            if t.contains(x) {
                let j = choose|j: int| 0 <= j < t.len() && t[j] == x;
                assert(is_parent(g, i, t[j] as int));
                assert(holds(s, x as int));
                let l = choose|l: int| 0 <= l < s.len() && s[l] == x as int;
                assert(s[l] == x);
            }
        }
        lemma_ascending_unique(s, t);
    }
    assert forall|i: int| 0 <= i < g.len() implies v.siblings[i] == w.siblings[i] by {
        let s = v.siblings[i];
        let t = w.siblings[i];
        assert(lists_siblings(s, g, i));
        assert(lists_siblings(t, g, i));
        assert forall|x: usize| s.contains(x) == t.contains(x) by {
            if s.contains(x) {
                let j = choose|j: int| 0 <= j < s.len() && s[j] == x;
                assert(siblings(g, i, s[j] as int));
                assert(holds(t, x as int));
                let l = choose|l: int| 0 <= l < t.len() && t[l] == x as int;
                assert(t[l] == x);
            }
            if t.contains(x) {
                let j = choose|j: int| 0 <= j < t.len() && t[j] == x;
                assert(siblings(g, i, t[j] as int));
                assert(holds(s, x as int));
                let l = choose|l: int| 0 <= l < s.len() && s[l] == x as int;
                assert(s[l] == x);
            }
        }
        lemma_ascending_unique(s, t);
    }
    assert(v.children =~= w.children);
    assert(v.siblings =~= w.siblings);
    assert(v.generation =~= w.generation);
    assert(v.cohort =~= w.cohort);
    if g.len() > 0 {
        let i = choose|i: int| 0 <= i < g.len() && #[trigger] generation(g, i) == v.cuts.len();
        let j = choose|j: int| 0 <= j < g.len() && #[trigger] generation(g, j) == w.cuts.len();
        assert(generation(g, i) <= w.cuts.len());
        assert(generation(g, j) <= v.cuts.len());
    }
    assert(v.cuts =~= w.cuts);
}

} // verus!
