//! Walking the parent relation: the ancestors of a node, found breadth
//! first, and the test that a set of nodes holds no ancestor of a member.

use crate::dag::{
    antichain, graph_of, holds, is_ancestor, is_parent, lemma_ancestor_transitive,
    lemma_parent_is_ancestor, well_formed, Graph,
};
use vstd::prelude::*;

verus! {

/// How many of the marks are set.
pub open spec fn marked(marks: Seq<bool>) -> nat
    decreases marks.len(),
{
    if marks.len() == 0 {
        0
    } else {
        marked(marks.drop_last()) + if marks.last() {
            1nat
        } else {
            0nat
        }
    }
}

/// No more marks are set than there are.
proof fn lemma_marked_bound(marks: Seq<bool>)
    ensures
        marked(marks) <= marks.len(),
    decreases marks.len(),
{
    if marks.len() > 0 {
        lemma_marked_bound(marks.drop_last());
    }
}

/// To set a mark that was not set is to raise the count by one.
proof fn lemma_marked_set(marks: Seq<bool>, i: int)
    requires
        0 <= i < marks.len(),
        !marks[i],
    ensures
        marked(marks.update(i, true)) == marked(marks) + 1,
    decreases marks.len(),
{
    let after = marks.update(i, true);
    if i == marks.len() - 1 {
        assert(after.drop_last() =~= marks.drop_last());
    } else {
        assert(after.drop_last() =~= marks.drop_last().update(i, true));
        lemma_marked_set(marks.drop_last(), i);
    }
}

/// Every parent of `x` is marked.
pub open spec fn expanded(g: Graph, marks: Seq<bool>, x: int) -> bool {
    forall|k: int| 0 <= k < g[x].len() ==> marks[(#[trigger] g[x][k]) as int]
}

/// What holds of the marks and the queue all through a walk from `b`: only
/// ancestors of `b` are marked, and the queue holds each marked node once.
pub open spec fn walking(g: Graph, b: int, marks: Seq<bool>, queue: Seq<usize>) -> bool {
    &&& marks.len() == g.len()
    &&& queue.len() == marked(marks)
    &&& forall|a: int| 0 <= a < g.len() && marks[a] ==> is_ancestor(g, a, b)
    &&& forall|a: int| 0 <= a < g.len() && marks[a] ==> holds(queue, a)
    &&& forall|j: int|
        0 <= j < queue.len() ==> (#[trigger] queue[j]) < g.len() && marks[queue[j] as int]
}

/// Marks that are closed under the step to a parent hold every ancestor.
proof fn lemma_closed_marks(g: Graph, b: int, marks: Seq<bool>, a: int, c: int)
    requires
        marks.len() == g.len(),
        0 <= b < g.len(),
        expanded(g, marks, b),
        forall|x: int| 0 <= x < g.len() && marks[x] ==> expanded(g, marks, x),
        c == b || (0 <= c < g.len() && marks[c]),
        is_ancestor(g, a, c),
    ensures
        0 <= a < g.len(),
        marks[a],
    decreases c,
{
    let k = choose|k: int|
        0 <= k < g[c].len() && (#[trigger] g[c][k]) < c && (g[c][k] == a || is_ancestor(
            g,
            a,
            g[c][k] as int,
        ));
    assert(expanded(g, marks, c));
    assert(marks[g[c][k] as int]);
    if g[c][k] != a {
        lemma_closed_marks(g, b, marks, a, g[c][k] as int);
    }
}

/// Marks each parent of `x` that is not marked yet, and puts it at the end
/// of the queue.
fn visit(g: &Vec<Vec<usize>>, b: usize, x: usize, marks: &mut Vec<bool>, queue: &mut Vec<usize>)
    requires
        well_formed(graph_of(g@)),
        b < g.len(),
        x < g.len(),
        x == b || is_ancestor(graph_of(g@), x as int, b as int),
        walking(graph_of(g@), b as int, old(marks)@, old(queue)@),
    ensures
        walking(graph_of(g@), b as int, final(marks)@, final(queue)@),
        expanded(graph_of(g@), final(marks)@, x as int),
        final(queue)@.len() >= old(queue)@.len(),
        forall|j: int| 0 <= j < old(queue)@.len() ==> final(queue)@[j] == old(queue)@[j],
        forall|a: int| 0 <= a < g.len() && old(marks)@[a] ==> final(marks)@[a],
{
    let ghost gr = graph_of(g@);
    let ghost marks0 = marks@;
    let ghost queue0 = queue@;
    let mut k: usize = 0;
    while k < g[x].len()
        invariant
            gr == graph_of(g@),
            well_formed(gr),
            b < g.len(),
            x < g.len(),
            x == b || is_ancestor(gr, x as int, b as int),
            k <= g[x as int].len(),
            walking(gr, b as int, marks@, queue@),
            queue@.len() >= queue0.len(),
            forall|j: int| 0 <= j < queue0.len() ==> queue@[j] == queue0[j],
            marks0.len() == g.len(),
            forall|a: int| 0 <= a < g.len() && marks0[a] ==> marks@[a],
            forall|j: int| 0 <= j < k ==> marks@[(#[trigger] gr[x as int][j]) as int],
        decreases g[x as int].len() - k,
    {
        let p = g[x][k];
        assert(gr[x as int][k as int] == p);
        assert(p < x);
        if !marks[p] {
            proof {
                lemma_marked_set(marks@, p as int);
                assert(is_parent(gr, p as int, x as int));
                lemma_parent_is_ancestor(gr, p as int, x as int);
                if x != b {
                    lemma_ancestor_transitive(gr, p as int, x as int, b as int);
                }
            }
            let ghost marks1 = marks@;
            let ghost queue1 = queue@;
            marks.set(p, true);
            queue.push(p);
            proof {
                assert(marks@ == marks1.update(p as int, true));
                assert(queue@ == queue1.push(p));
                assert forall|a: int| 0 <= a < g.len() && marks@[a] implies holds(queue@, a) by {
                    if a == p {
                        assert(queue@[queue1.len() as int] == a);
                    } else {
                        assert(holds(queue1, a));
                        let j = choose|j: int| 0 <= j < queue1.len() && queue1[j] == a;
                        assert(queue@[j] == a);
                    }
                }
            }
        }
        k += 1;
    }
}

/// The ancestors of `b`, found by a breadth-first walk over the parent
/// relation: `marks[a]` is set exactly where `a` is an ancestor of `b`.
pub fn ancestors(g: &Vec<Vec<usize>>, b: usize) -> (marks: Vec<bool>)
    requires
        well_formed(graph_of(g@)),
        b < g.len(),
    ensures
        marks.len() == g.len(),
        forall|a: int|
            0 <= a < g.len() ==> marks[a] == is_ancestor(graph_of(g@), a, b as int),
{
    let n = g.len();
    let ghost gr = graph_of(g@);
    let mut marks: Vec<bool> = Vec::new();
    let mut i: usize = 0;
    while i < n
        invariant
            i <= n,
            marks.len() == i,
            marked(marks@) == 0,
            forall|a: int| 0 <= a < i ==> !marks[a],
        decreases n - i,
    {
        let ghost before = marks@;
        marks.push(false);
        assert(marks@.drop_last() =~= before);
        i += 1;
    }
    let mut queue: Vec<usize> = Vec::new();
    visit(g, b, b, &mut marks, &mut queue);
    let mut head: usize = 0;
    while head < queue.len()
        invariant
            gr == graph_of(g@),
            well_formed(gr),
            n == g.len(),
            b < n,
            head <= queue.len(),
            walking(gr, b as int, marks@, queue@),
            expanded(gr, marks@, b as int),
            forall|j: int| 0 <= j < head ==> expanded(gr, marks@, (#[trigger] queue@[j]) as int),
        decreases n - head,
    {
        proof {
            lemma_marked_bound(marks@);
        }
        let x = queue[head];
        let ghost marks1 = marks@;
        let ghost queue1 = queue@;
        visit(g, b, x, &mut marks, &mut queue);
        proof {
            assert forall|j: int| 0 <= j < head + 1 implies expanded(
                gr,
                marks@,
                (#[trigger] queue@[j]) as int,
            ) by {
                if j < head {
                    assert(expanded(gr, marks1, queue1[j] as int));
                    assert(queue@[j] == queue1[j]);
                } else {
                    assert(queue@[j] == x);
                }
            }
            assert(expanded(gr, marks1, b as int));
        }
        head += 1;
    }
    proof {
        assert forall|x: int| 0 <= x < gr.len() && marks@[x] implies expanded(gr, marks@, x) by {
            assert(holds(queue@, x));
            let j = choose|j: int| 0 <= j < queue@.len() && queue@[j] == x;
            assert(expanded(gr, marks@, queue@[j] as int));
        }
        assert forall|a: int| 0 <= a < g.len() implies marks[a] == is_ancestor(
            gr,
            a,
            b as int,
        ) by {
            if is_ancestor(gr, a, b as int) {
                lemma_closed_marks(gr, b as int, marks@, a, b as int);
            }
        }
    }
    marks
}

/// Whether no member of `ps` is an ancestor of another: for each member the
/// ancestors are walked, and the others are looked up among them.
pub fn is_antichain(g: &Vec<Vec<usize>>, ps: &Vec<usize>) -> (r: bool)
    requires
        well_formed(graph_of(g@)),
        forall|k: int| 0 <= k < ps.len() ==> ps[k] < g.len(),
    ensures
        r == antichain(graph_of(g@), ps@),
{
    let ghost gr = graph_of(g@);
    let mut l: usize = 0;
    while l < ps.len()
        invariant
            gr == graph_of(g@),
            well_formed(gr),
            l <= ps.len(),
            forall|k: int| 0 <= k < ps.len() ==> ps[k] < g.len(),
            forall|k: int, m: int|
                0 <= k < ps.len() && 0 <= m < l ==> !is_ancestor(
                    gr,
                    (#[trigger] ps@[k]) as int,
                    (#[trigger] ps@[m]) as int,
                ),
        decreases ps.len() - l,
    {
        let q = ps[l];
        let marks = ancestors(g, q);
        let mut k: usize = 0;
        while k < ps.len()
            invariant
                gr == graph_of(g@),
                k <= ps.len(),
                l < ps.len(),
                q == ps@[l as int],
                marks.len() == g.len(),
                forall|k: int| 0 <= k < ps.len() ==> ps[k] < g.len(),
                forall|a: int| 0 <= a < g.len() ==> marks[a] == is_ancestor(gr, a, q as int),
                forall|j: int|
                    0 <= j < k ==> !is_ancestor(gr, (#[trigger] ps@[j]) as int, q as int),
            decreases ps.len() - k,
        {
            if marks[ps[k]] {
                assert(is_ancestor(gr, ps@[k as int] as int, ps@[l as int] as int));
                return false;
            }
            k += 1;
        }
        l += 1;
    }
    true
}

} // verus!
