//! The braid itself: the beads in the order in which they came, their
//! parent relation, and the relations derived from it.

use crate::ancestry::{ancestors, is_antichain};
use crate::bead::{genesis_bead, hashes_view, Bead};
use crate::dag::{graph_of, holds, is_parent, siblings};
use crate::error::{BeadNotFound, BraidError, ErrorKind};
use crate::hash::{
    compare, genesis_hash, is_genesis, lemma_precedes_irreflexive, lemma_precedes_transitive,
    precedes, sorted, HashOrder,
};
use crate::index::{
    lemma_index_determined, lists_children, lists_siblings, mirrors, GraphIndex, IndexView,
};
use crate::laws::lemma_last_is_tip;
use crate::model::{
    ancestor_of, child_set, cohort_height_of, cohort_set, generation_of, graph, hashes_at, known,
    known_among, known_parents, lemma_graph, lemma_incest, lemma_position, lemma_push,
    lemma_valid_step, listing, marked_set, names_position, names_unknown_parent, parent_of,
    position, resolved, sibling_of, sibling_set, tip_set, valid, verdict, Beads,
};
use vstd::prelude::*;

verus! {

/// A braid. It always holds the genesis bead.
#[derive(Clone, Debug, PartialEq, Eq)]
pub struct Braid {
    beads: Vec<Bead>,
    parents: Vec<Vec<usize>>,
    order: Vec<usize>,
    index: GraphIndex,
}

/// The beads of `v` as plain values.
pub open spec fn views(v: Seq<Bead>) -> Beads {
    Seq::new(v.len(), |i: int| v[i]@)
}

/// The identifiers of the beads of `v`.
pub open spec fn ids(v: Seq<Bead>) -> Seq<Seq<u8>> {
    Seq::new(v.len(), |i: int| v[i]@.hash)
}

/// `order` names every position of `s` once, in the order of the
/// identifiers' bytes.
pub open spec fn by_hash(s: Beads, order: Seq<usize>) -> bool {
    &&& order.len() == s.len()
    &&& forall|k: int| 0 <= k < order.len() ==> (#[trigger] order[k]) < s.len()
    &&& sorted(hashes_at(s, order))
    &&& forall|i: int| 0 <= i < s.len() ==> holds(order, i)
}

/// The order of the identifiers after one more bead has come.
proof fn lemma_order_insert(s: Beads, h: Seq<u8>, order: Seq<usize>, slot: int, t: Beads)
    requires
        by_hash(s, order),
        0 <= slot <= s.len(),
        s.len() < usize::MAX,
        t.len() == s.len() + 1,
        forall|i: int| 0 <= i < s.len() ==> (#[trigger] t[i]).hash == s[i].hash,
        t[s.len() as int].hash == h,
        forall|k: int| 0 <= k < slot ==> precedes(#[trigger] hashes_at(s, order)[k], h),
        forall|k: int| slot <= k < s.len() ==> precedes(h, #[trigger] hashes_at(s, order)[k]),
    ensures
        by_hash(t, order.insert(slot, s.len() as usize)),
{
    let n = s.len() as int;
    let after = order.insert(slot, n as usize);
    let hs = hashes_at(s, order);
    let ht = hashes_at(t, after);
    order.insert_ensures(slot, n as usize);
    assert forall|k: int| 0 <= k < after.len() implies (#[trigger] after[k]) < t.len() by {
        if k < slot {
            assert(after[k] == order[k]);
        } else if k > slot {
            assert(after[(k - 1) + 1] == order[k - 1]);
        }
    }
    assert forall|k: int| 0 <= k < after.len() implies #[trigger] ht[k] == (if k < slot {
        hs[k]
    } else if k == slot {
        h
    } else {
        hs[k - 1]
    }) by {
        if k < slot {
            assert(after[k] == order[k]);
        } else if k > slot {
            assert(after[(k - 1) + 1] == order[k - 1]);
        }
    }
    assert forall|j: int, l: int| 0 <= j < l < ht.len() implies precedes(ht[j], ht[l]) by {
        if l < slot {
            assert(precedes(hs[j], hs[l]));
        } else if l == slot {
            assert(precedes(hs[j], h));
        } else if j < slot {
            assert(precedes(hs[j], hs[l - 1]));
        } else if j == slot {
            assert(precedes(h, hs[l - 1]));
        } else {
            assert(precedes(hs[j - 1], hs[l - 1]));
        }
    }
    assert forall|i: int| 0 <= i < t.len() implies holds(after, i) by {
        if i < n {
            assert(holds(order, i));
            let m = choose|m: int| 0 <= m < order.len() && order[m] == i;
            if m < slot {
                assert(after[m] == i);
            } else {
                assert(after[m + 1] == i);
            }
        } else {
            assert(after[slot] == i);
        }
    }
}

/// The marked beads are the tips where the beads without children are
/// marked.
proof fn lemma_tips(s: Beads, v: IndexView, marks: Seq<bool>)
    requires
        valid(s),
        mirrors(v, graph(s)),
        marks.len() == s.len(),
        forall|i: int| 0 <= i < s.len() ==> marks[i] == (v.children[i].len() == 0),
    ensures
        marked_set(s, marks) == tip_set(s),
{
    let g = graph(s);
    assert forall|h: Seq<u8>| marked_set(s, marks).contains(h) == tip_set(s).contains(h) by {
        if known(s, h) {
            let i = position(s, h);
            assert(lists_children(v.children[i], g, i));
            if marks[i] {
                assert forall|c: Seq<u8>| !parent_of(s, h, c) by {
                    if parent_of(s, h, c) {
                        assert(holds(v.children[i], position(s, c)));
                    }
                }
            } else {
                let c0 = v.children[i][0] as int;
                assert(is_parent(g, i, c0));
                lemma_position(s, c0);
                assert(parent_of(s, h, s[c0].hash));
            }
        }
    }
    assert(marked_set(s, marks) =~= tip_set(s));
}

/// The beads marked from the list of the children of `h` are its children.
proof fn lemma_children(s: Beads, v: IndexView, h: Seq<u8>, marks: Seq<bool>)
    requires
        valid(s),
        mirrors(v, graph(s)),
        known(s, h),
        marks.len() == s.len(),
        forall|i: int|
            0 <= i < s.len() ==> marks[i] == holds(v.children[position(s, h)], i),
    ensures
        marked_set(s, marks) == child_set(s, h),
{
    let g = graph(s);
    let i = position(s, h);
    assert(lists_children(v.children[i], g, i));
    assert forall|x: Seq<u8>| marked_set(s, marks).contains(x) == child_set(s, h).contains(x) by {
        if known(s, x) {
            let j = position(s, x);
            if marks[j] {
                let m = choose|m: int| 0 <= m < v.children[i].len() && v.children[i][m] == j;
                assert(is_parent(g, i, v.children[i][m] as int));
            }
        }
    }
    assert(marked_set(s, marks) =~= child_set(s, h));
}

/// The beads marked from the list of the siblings of `h` are its siblings.
proof fn lemma_siblings(s: Beads, v: IndexView, h: Seq<u8>, marks: Seq<bool>)
    requires
        valid(s),
        mirrors(v, graph(s)),
        known(s, h),
        marks.len() == s.len(),
        forall|i: int|
            0 <= i < s.len() ==> marks[i] == holds(v.siblings[position(s, h)], i),
    ensures
        marked_set(s, marks) == sibling_set(s, h),
{
    let g = graph(s);
    let i = position(s, h);
    assert(lists_siblings(v.siblings[i], g, i));
    assert forall|x: Seq<u8>| marked_set(s, marks).contains(x) == sibling_set(s, h).contains(
        x,
    ) by {
        if known(s, x) {
            let j = position(s, x);
            lemma_position(s, i);
            lemma_position(s, j);
            if marks[j] {
                let m = choose|m: int| 0 <= m < v.siblings[i].len() && v.siblings[i][m] == j;
                assert(siblings(g, i, v.siblings[i][m] as int));
            }
            if sibling_of(s, h, x) {
                assert(siblings(g, i, j));
            }
        }
    }
    assert(marked_set(s, marks) =~= sibling_set(s, h));
}

/// The beads marked as of the cohort height of `h` are its cohort.
proof fn lemma_cohort(s: Beads, v: IndexView, h: Seq<u8>, marks: Seq<bool>)
    requires
        valid(s),
        mirrors(v, graph(s)),
        known(s, h),
        marks.len() == s.len(),
        forall|i: int|
            0 <= i < s.len() ==> marks[i] == (v.cohort[i] == v.cohort[position(s, h)]),
    ensures
        marked_set(s, marks) == cohort_set(s, h),
{
    let i = position(s, h);
    assert forall|x: Seq<u8>| marked_set(s, marks).contains(x) == cohort_set(s, h).contains(x) by {
        if known(s, x) {
            let j = position(s, x);
            assert(v.cohort[j] == cohort_height_of(s, x));
            assert(v.cohort[i] == cohort_height_of(s, h));
        }
    }
    assert(marked_set(s, marks) =~= cohort_set(s, h));
}

/// Marks the positions below `n` that `list` holds.
fn mask_of(list: &Vec<usize>, n: usize) -> (marks: Vec<bool>)
    requires
        forall|j: int| 0 <= j < list.len() ==> list[j] < n,
    ensures
        marks.len() == n,
        forall|i: int| 0 <= i < n ==> marks[i] == holds(list@, i),
{
    let mut marks: Vec<bool> = Vec::new();
    let mut i: usize = 0;
    while i < n
        invariant
            i <= n,
            marks.len() == i,
            forall|a: int| 0 <= a < i ==> !marks[a],
        decreases n - i,
    {
        marks.push(false);
        i += 1;
    }
    let mut j: usize = 0;
    while j < list.len()
        invariant
            j <= list.len(),
            marks.len() == n,
            forall|m: int| 0 <= m < list.len() ==> list[m] < n,
            forall|a: int| 0 <= a < n ==> marks[a] == holds(list@.take(j as int), a),
        decreases list.len() - j,
    {
        let ghost before = list@.take(j as int);
        let ghost after = list@.take(j + 1);
        let x = list[j];
        marks.set(x, true);
        proof {
            assert forall|a: int| 0 <= a < n implies marks[a] == holds(after, a) by {
                if holds(after, a) {
                    let m = choose|m: int| 0 <= m < after.len() && after[m] == a;
                    if m < j {
                        assert(before[m] == a);
                    }
                }
                if holds(before, a) {
                    let m = choose|m: int| 0 <= m < before.len() && before[m] == a;
                    assert(after[m] == a);
                }
                if a == x {
                    assert(after[j as int] == a);
                }
            }
        }
        j += 1;
    }
    proof {
        assert(list@.take(list.len() as int) =~= list@);
    }
    marks
}

impl View for Braid {
    type V = Beads;

    closed spec fn view(&self) -> Beads {
        views(self.beads@)
    }
}

impl Braid {
    /// The beads are a braid, and the braid finds them by their identifiers
    /// and their parents by their positions. Nothing is said of the derived
    /// relations.
    pub closed spec fn sound(&self) -> bool {
        &&& valid(self@)
        &&& graph_of(self.parents@) == graph(self@)
        &&& by_hash(self@, self.order@)
    }

    /// The braid is sound, and its derived relations are those of its
    /// parent relation.
    pub closed spec fn wf(&self) -> bool {
        &&& self.sound()
        &&& mirrors(self.index@, graph(self@))
    }

    /// The derived relations that the braid holds.
    pub closed spec fn derived(&self) -> IndexView {
        self.index@
    }

    /// A well-formed braid is a valid sequence of beads, and its derived
    /// relations are those of its parent relation.
    pub proof fn lemma_wf(&self)
        requires
            self.wf(),
        ensures
            self.sound(),
            valid(self@),
            mirrors(self.derived(), graph(self@)),
    {
    }

    /// The derived relations are a function of the beads: two braids with
    /// the same beads hold the same derived relations.
    pub proof fn lemma_derived_determined(&self, other: &Braid)
        requires
            self.wf(),
            other.wf(),
            self@ == other@,
        ensures
            self.derived() == other.derived(),
    {
        lemma_index_determined(self.index@, other.index@, graph(self@));
    }

    /// The braid that holds `first` alone.
    fn rooted(first: Bead) -> (r: Braid)
        requires
            first@.hash == genesis_hash(),
            first@.parents.len() == 0,
        ensures
            r.wf(),
            r@ == seq![first@],
    {
        let ghost s = seq![first@];
        proof {
            use_type_invariant(&first);
        }
        let mut beads: Vec<Bead> = Vec::new();
        beads.push(first);
        let mut parents: Vec<Vec<usize>> = Vec::new();
        parents.push(Vec::new());
        let mut order: Vec<usize> = Vec::new();
        order.push(0);
        proof {
            assert(views(beads@) =~= s);
            assert(graph(s)[0] =~= Seq::<usize>::empty());
            assert(graph_of(parents@)[0] =~= Seq::<usize>::empty());
            assert(graph_of(parents@) =~= graph(s));
            assert(valid(s));
            lemma_graph(s);
            assert(order@[0] == 0);
            assert(holds(order@, 0));
        }
        let index = GraphIndex::build(&parents);
        Braid { beads, parents, order, index }
    }

    /// A fresh braid: the genesis bead and nothing else.
    pub fn new() -> (r: Braid)
        ensures
            r.wf(),
            r@ == seq![genesis_bead()],
    {
        Braid::rooted(Bead::genesis())
    }

    /// Opens a braid from the beads that a store holds, in the order in
    /// which they came: the beads are the braid's, where they make one.
    pub fn open(records: &Vec<Bead>) -> (r: Result<Braid, BraidError>)
        ensures
            match r {
                Ok(b) => b.wf() && b@ == views(records@),
                Err(e) => e.kind == ErrorKind::StorageInitError && !valid(views(records@)),
            },
    {
        if records.len() == 0 {
            return Err(BraidError::new(ErrorKind::StorageInitError));
        }
        let ghost s = views(records@);
        let first = &records[0];
        let id = first.hash();
        if !is_genesis(&id) || first.parents().len() != 0 {
            return Err(BraidError::new(ErrorKind::StorageInitError));
        }
        let mut braid = Braid::rooted(first.clone());
        assert(braid@ =~= s.take(1));
        let mut i: usize = 1;
        while i < records.len()
            invariant
                s == views(records@),
                1 <= i <= records.len(),
                braid.wf(),
                braid@ == s.take(i as int),
            decreases records.len() - i,
        {
            match braid.insert(records[i].clone()) {
                Ok(()) => {
                    assert(braid@ =~= s.take(i + 1));
                },
                Err(_) => {
                    proof {
                        if valid(s) {
                            lemma_valid_step(s, i as int);
                        }
                    }
                    return Err(BraidError::new(ErrorKind::StorageInitError));
                },
            }
            i += 1;
        }
        assert(s.take(records.len() as int) =~= s);
        Ok(braid)
    }

    /// Looks `h` up among the identifiers in their order: the position of
    /// the bead that has it, or else the place in the order where it would
    /// stand.
    fn find(&self, h: &[u8; 32]) -> (r: Result<usize, usize>)
        requires
            self.wf(),
        ensures
            match r {
                Ok(i) => i < self@.len() && known(self@, h@) && position(self@, h@) == i,
                Err(slot) => !known(self@, h@) && slot <= self@.len() && (forall|k: int|
                    0 <= k < slot ==> precedes(#[trigger] hashes_at(self@, self.order@)[k], h@))
                    && (forall|k: int|
                    slot <= k < self@.len() ==> precedes(
                        h@,
                        #[trigger] hashes_at(self@, self.order@)[k],
                    )),
            },
    {
        let ghost s = self@;
        let ghost hs = hashes_at(s, self.order@);
        let mut lo: usize = 0;
        let mut hi: usize = self.order.len();
        while lo < hi
            invariant
                self.wf(),
                s == self@,
                hs == hashes_at(s, self.order@),
                lo <= hi <= self.order.len(),
                forall|k: int| 0 <= k < lo ==> precedes(#[trigger] hs[k], h@),
                forall|k: int| hi <= k < hs.len() ==> precedes(h@, #[trigger] hs[k]),
            decreases hi - lo,
        {
            let mid = lo + (hi - lo) / 2;
            let i = self.order[mid];
            let here = self.beads[i].hash();
            assert(here@ == hs[mid as int]);
            match compare(&here, h) {
                HashOrder::Same => {
                    proof {
                        lemma_position(s, i as int);
                    }
                    return Ok(i);
                },
                HashOrder::Before => {
                    proof {
                        assert forall|k: int| 0 <= k < mid + 1 implies precedes(
                            #[trigger] hs[k],
                            h@,
                        ) by {
                            if k < mid {
                                assert(precedes(hs[k], hs[mid as int]));
                                lemma_precedes_transitive(hs[k], hs[mid as int], h@);
                            }
                        }
                    }
                    lo = mid + 1;
                },
                HashOrder::After => {
                    proof {
                        assert forall|k: int| mid <= k < hs.len() implies precedes(
                            h@,
                            #[trigger] hs[k],
                        ) by {
                            if k > mid {
                                assert(precedes(hs[mid as int], hs[k]));
                                lemma_precedes_transitive(h@, hs[mid as int], hs[k]);
                            }
                        }
                    }
                    hi = mid;
                },
            }
        }
        proof {
            if known(s, h@) {
                let i = position(s, h@);
                assert(holds(self.order@, i));
                let k = choose|k: int| 0 <= k < self.order@.len() && self.order@[k] == i;
                assert(hs[k] == h@);
                lemma_precedes_irreflexive(h@);
            }
        }
        Err(lo)
    }

    /// The positions of those beads with the identifiers `names` that the
    /// braid holds, and whether it holds them all.
    fn resolve(&self, bead: &Bead) -> (r: (Vec<usize>, bool))
        requires
            self.wf(),
        ensures
            known_parents(self@, bead@, r.0@),
            r.1 == !names_unknown_parent(self@, bead@),
            r.1 ==> r.0@ == resolved(self@, bead@.parents),
            forall|j: int| 0 <= j < r.0.len() ==> (#[trigger] r.0[j]) < self@.len(),
    {
        let names = bead.parents();
        let ghost s = self@;
        let ghost hs = bead@.parents;
        let mut ps: Vec<usize> = Vec::new();
        let mut complete = true;
        let mut k: usize = 0;
        while k < names.len()
            invariant
                self.wf(),
                s == self@,
                hs == hashes_view(names@),
                hs == bead@.parents,
                k <= names.len(),
                forall|j: int| 0 <= j < ps.len() ==> (#[trigger] ps@[j]) < s.len(),
                known_among(s, hs, k as int, ps@),
                complete == (forall|m: int| 0 <= m < k ==> known(s, #[trigger] hs[m])),
                complete ==> ps.len() == k && forall|m: int|
                    0 <= m < k ==> ps@[m] == position(s, #[trigger] hs[m]),
            decreases names.len() - k,
        {
            let ghost ps0 = ps@;
            match self.find(&names[k]) {
                Ok(i) => {
                    ps.push(i);
                    proof {
                        assert(known(s, hs[k as int]));
                    }
                },
                Err(_) => {
                    assert(!known(s, hs[k as int]));
                    complete = false;
                },
            }
            proof {
                assert forall|j: int| 0 <= j < ps@.len() implies names_position(
                    s,
                    hs,
                    k + 1,
                    (#[trigger] ps@[j]) as int,
                ) by {
                    if j < ps0.len() {
                        assert(names_position(s, hs, k as int, ps0[j] as int));
                        let m = choose|m: int|
                            0 <= m < k && m < hs.len() && known(s, #[trigger] hs[m]) && position(
                                s,
                                hs[m],
                            ) == ps0[j];
                        assert(known(s, hs[m]) && position(s, hs[m]) == ps@[j]);
                    } else {
                        assert(known(s, hs[k as int]) && position(s, hs[k as int]) == ps@[j]);
                    }
                }
                assert forall|m: int|
                    0 <= m < k + 1 && m < hs.len() && known(s, #[trigger] hs[m]) implies holds(
                    ps@,
                    position(s, hs[m]),
                ) by {
                    if m < k {
                        assert(holds(ps0, position(s, hs[m])));
                        let j = choose|j: int| 0 <= j < ps0.len() && ps0[j] == position(s, hs[m]);
                        assert(ps@[j] == position(s, hs[m]));
                    } else {
                        assert(ps@[ps0.len() as int] == position(s, hs[m]));
                    }
                }
            }
            k += 1;
        }
        proof {
            if complete {
                assert(ps@ =~= resolved(s, hs));
            } else {
                let m = choose|m: int| 0 <= m < k && !known(s, #[trigger] hs[m]);
                assert(!known(s, hs[m]));
            }
        }
        (ps, complete)
    }

    /// Adds a bead. It is refused, and the braid left as it was, where one
    /// of its parents is an ancestor of another, where it names a parent
    /// that the braid does not hold, and where its identifier is taken.
    pub fn insert(&mut self, bead: Bead) -> (r: Result<(), BraidError>)
        requires
            old(self).wf(),
        ensures
            final(self).wf(),
            r == verdict(old(self)@, bead@),
            r is Ok ==> final(self)@ == old(self)@.push(bead@),
            r is Err ==> *final(self) == *old(self),
    {
        let ghost s = self@;
        let ghost b = bead@;
        let (ps, complete) = self.resolve(&bead);
        proof {
            use_type_invariant(&bead);
            lemma_graph(s);
            lemma_incest(s, b, ps@);
        }
        if !is_antichain(&self.parents, &ps) {
            return Err(BraidError::new(ErrorKind::IncestViolation));
        }
        if !complete {
            return Err(BraidError::new(ErrorKind::UnknownParent));
        }
        let id = bead.hash();
        let slot = match self.find(&id) {
            Ok(_) => {
                return Err(BraidError::new(ErrorKind::DuplicateBead));
            },
            Err(slot) => slot,
        };
        let n = self.beads.len();
        let ghost order0 = self.order@;
        let ghost table0 = self.parents@;
        self.beads.push(bead);
        self.parents.push(ps);
        self.order.insert(slot, n);
        let count = self.beads.len();
        proof {
            let t = self@;
            assert(count == s.len() + 1);
            assert(t =~= s.push(b));
            lemma_push(s, b);
            lemma_graph(t);
            assert forall|i: int| 0 <= i < t.len() implies #[trigger] graph_of(self.parents@)[i]
                == graph(t)[i] by {
                if i < n {
                    assert(graph_of(table0)[i] == graph(s)[i]);
                }
            }
            assert(graph_of(self.parents@) =~= graph(t));
            assert(graph_of(self.parents@).take(n as int) =~= graph(s));
            lemma_order_insert(s, b.hash, order0, slot as int, t);
        }
        self.index.extend(&self.parents);
        proof {
            assert(graph_of(self.parents@).take(n + 1) =~= graph_of(self.parents@));
        }
        Ok(())
    }

    /// Discards the derived relations and makes them again from the parent
    /// relation: whatever they held before, they are then those of the
    /// parent relation. Of a well-formed braid nothing changes by it.
    pub fn reindex(&mut self)
        requires
            old(self).sound(),
        ensures
            final(self).wf(),
            final(self)@ == old(self)@,
            old(self).wf() ==> final(self).derived() == old(self).derived(),
    {
        proof {
            lemma_graph(self@);
        }
        let index = GraphIndex::build(&self.parents);
        proof {
            if self.wf() {
                lemma_index_determined(index@, self.index@, graph(self@));
            }
        }
        self.index = index;
    }

    /// The number of beads.
    pub fn len(&self) -> (r: usize)
        requires
            self.wf(),
        ensures
            r == self@.len(),
            r >= 1,
    {
        self.beads.len()
    }

    /// Whether the braid holds a bead with this identifier.
    pub fn contains(&self, hash: [u8; 32]) -> (r: bool)
        requires
            self.wf(),
        ensures
            r == known(self@, hash@),
    {
        self.find(&hash).is_ok()
    }

    /// Where the bead with this identifier stands in the order in which the
    /// beads came.
    pub fn position_of(&self, hash: [u8; 32]) -> (r: Result<usize, BeadNotFound>)
        requires
            self.wf(),
        ensures
            match r {
                Ok(i) => known(self@, hash@) && i == position(self@, hash@),
                Err(_) => !known(self@, hash@),
            },
    {
        match self.find(&hash) {
            Ok(i) => Ok(i),
            Err(_) => Err(BeadNotFound),
        }
    }

    /// The bead with this identifier.
    pub fn get_bead(&self, hash: [u8; 32]) -> (r: Result<Bead, BraidError>)
        requires
            self.wf(),
        ensures
            match r {
                Ok(b) => known(self@, hash@) && b@ == self@[position(self@, hash@)],
                Err(e) => !known(self@, hash@) && e.kind == ErrorKind::BeadNotFound,
            },
    {
        match self.position_of(hash) {
            Ok(i) => Ok(self.beads[i].clone()),
            Err(e) => Err(BraidError::from(e)),
        }
    }

    /// The marked positions, in the order of the identifiers' bytes.
    fn select(&self, marks: &Vec<bool>) -> (r: Vec<usize>)
        requires
            self.wf(),
            marks.len() == self@.len(),
        ensures
            forall|j: int| 0 <= j < r.len() ==> (#[trigger] r[j]) < self@.len(),
            listing(hashes_at(self@, r@), marked_set(self@, marks@)),
    {
        let ghost s = self@;
        let ghost hs = hashes_at(s, self.order@);
        let mut r: Vec<usize> = Vec::new();
        let mut k: usize = 0;
        while k < self.order.len()
            invariant
                self.wf(),
                s == self@,
                hs == hashes_at(s, self.order@),
                marks.len() == s.len(),
                k <= self.order.len(),
                forall|j: int|
                    0 <= j < r.len() ==> (#[trigger] r[j]) < s.len() && marks[r[j] as int],
                forall|j: int|
                    0 <= j < r.len() ==> exists|m: int|
                        0 <= m < k && self.order@[m] == #[trigger] r[j],
                sorted(hashes_at(s, r@)),
                forall|m: int|
                    0 <= m < k && marks[self.order@[m] as int] ==> holds(
                        r@,
                        (#[trigger] self.order@[m]) as int,
                    ),
            decreases self.order.len() - k,
        {
            let i = self.order[k];
            if marks[i] {
                let ghost r0 = r@;
                proof {
                    assert forall|j: int| 0 <= j < r0.len() implies precedes(
                        hashes_at(s, r0)[j],
                        s[i as int].hash,
                    ) by {
                        let m = choose|m: int| 0 <= m < k && self.order@[m] == r0[j];
                        assert(precedes(hs[m], hs[k as int]));
                    }
                }
                r.push(i);
                proof {
                    let h0 = hashes_at(s, r0);
                    let h1 = hashes_at(s, r@);
                    assert forall|j: int, l: int| 0 <= j < l < h1.len() implies precedes(
                        h1[j],
                        h1[l],
                    ) by {
                        if l < r0.len() {
                            assert(precedes(h0[j], h0[l]));
                        } else {
                            assert(precedes(h0[j], s[i as int].hash));
                        }
                    }
                    assert forall|j: int| 0 <= j < r@.len() implies exists|m: int|
                        0 <= m < k + 1 && self.order@[m] == #[trigger] r@[j] by {
                        if j < r0.len() {
                            let m = choose|m: int| 0 <= m < k && self.order@[m] == r0[j];
                            assert(self.order@[m] == r@[j]);
                        } else {
                            assert(self.order@[k as int] == r@[j]);
                        }
                    }
                    assert forall|m: int|
                        0 <= m < k + 1 && marks[self.order@[m] as int] implies holds(
                        r@,
                        (#[trigger] self.order@[m]) as int,
                    ) by {
                        if m < k {
                            assert(holds(r0, self.order@[m] as int));
                            let j = choose|j: int| 0 <= j < r0.len() && r0[j] == self.order@[m];
                            assert(r@[j] == self.order@[m]);
                        } else {
                            assert(r@[r0.len() as int] == self.order@[m]);
                        }
                    }
                }
            }
            k += 1;
        }
        proof {
            let hr = hashes_at(s, r@);
            let set = marked_set(s, marks@);
            assert forall|j: int| 0 <= j < hr.len() implies set.contains(#[trigger] hr[j]) by {
                lemma_position(s, r@[j] as int);
            }
            assert forall|h: Seq<u8>| set.contains(h) implies hr.contains(h) by {
                let i = position(s, h);
                assert(holds(self.order@, i));
                let m = choose|m: int| 0 <= m < self.order@.len() && self.order@[m] == i;
                assert(holds(r@, self.order@[m] as int));
                let j = choose|j: int| 0 <= j < r@.len() && r@[j] == i;
                assert(hr[j] == h);
            }
        }
        r
    }

    /// The identifiers of the beads at the positions `ps`.
    fn ids_at(&self, ps: &Vec<usize>) -> (r: Vec<[u8; 32]>)
        requires
            forall|j: int| 0 <= j < ps.len() ==> (#[trigger] ps[j]) < self@.len(),
        ensures
            hashes_view(r@) == hashes_at(self@, ps@),
    {
        let mut r: Vec<[u8; 32]> = Vec::new();
        let mut j: usize = 0;
        while j < ps.len()
            invariant
                j <= ps.len(),
                r.len() == j,
                forall|m: int| 0 <= m < ps.len() ==> (#[trigger] ps[m]) < self@.len(),
                forall|m: int| 0 <= m < j ==> r@[m]@ == self@[ps[m] as int].hash,
            decreases ps.len() - j,
        {
            r.push(self.beads[ps[j]].hash());
            j += 1;
        }
        assert(hashes_view(r@) =~= hashes_at(self@, ps@));
        r
    }

    /// The tips: the beads without children, which a new bead may name as
    /// its parents. They come in the order of their identifiers' bytes.
    pub fn tips(&self) -> (r: Vec<Bead>)
        requires
            self.wf(),
        ensures
            listing(ids(r@), tip_set(self@)),
            forall|j: int|
                0 <= j < r.len() ==> (#[trigger] r[j])@ == self@[position(self@, r[j]@.hash)],
            r.len() >= 1,
    {
        let ghost s = self@;
        let n = self.beads.len();
        let mut marks: Vec<bool> = Vec::new();
        let mut i: usize = 0;
        while i < n
            invariant
                self.wf(),
                n == self@.len(),
                i <= n,
                marks.len() == i,
                forall|a: int|
                    0 <= a < i ==> marks[a] == (self.index@.children[a].len() == 0),
            decreases n - i,
        {
            marks.push(self.index.children(i).len() == 0);
            i += 1;
        }
        proof {
            lemma_tips(s, self.index@, marks@);
        }
        let ps = self.select(&marks);
        let mut r: Vec<Bead> = Vec::new();
        let mut j: usize = 0;
        while j < ps.len()
            invariant
                self.wf(),
                s == self@,
                j <= ps.len(),
                r.len() == j,
                forall|m: int| 0 <= m < ps.len() ==> (#[trigger] ps[m]) < s.len(),
                forall|m: int| 0 <= m < j ==> (#[trigger] r[m])@ == s[ps[m] as int],
            decreases ps.len() - j,
        {
            r.push(self.beads[ps[j]].clone());
            j += 1;
        }
        proof {
            assert(ids(r@) =~= hashes_at(s, ps@));
            assert forall|j: int| 0 <= j < r.len() implies (#[trigger] r[j])@ == s[position(
                s,
                r[j]@.hash,
            )] by {
                lemma_position(s, ps[j] as int);
            }
            lemma_last_is_tip(s);
            assert(ids(r@).contains(s.last().hash));
        }
        r
    }

    /// The cohort of the bead with this identifier: the identifiers of the
    /// beads of its cohort height, in the order of their bytes.
    pub fn cohort_of(&self, hash: [u8; 32]) -> (r: Result<Vec<[u8; 32]>, BraidError>)
        requires
            self.wf(),
        ensures
            match r {
                Ok(v) => known(self@, hash@) && listing(
                    hashes_view(v@),
                    cohort_set(self@, hash@),
                ),
                Err(e) => !known(self@, hash@) && e.kind == ErrorKind::BeadNotFound,
            },
    {
        let at = match self.find(&hash) {
            Ok(i) => i,
            Err(_) => {
                return Err(BraidError::new(ErrorKind::BeadNotFound));
            },
        };
        let height = self.index.cohort(at);
        let n = self.beads.len();
        let mut marks: Vec<bool> = Vec::new();
        let mut i: usize = 0;
        while i < n
            invariant
                self.wf(),
                n == self@.len(),
                at < n,
                height == self.index@.cohort[at as int],
                i <= n,
                marks.len() == i,
                forall|a: int| 0 <= a < i ==> marks[a] == (self.index@.cohort[a] == height),
            decreases n - i,
        {
            marks.push(self.index.cohort(i) == height);
            i += 1;
        }
        proof {
            lemma_cohort(self@, self.index@, hash@, marks@);
        }
        let ps = self.select(&marks);
        Ok(self.ids_at(&ps))
    }

    /// The children of the bead with this identifier, in the order of
    /// their identifiers' bytes.
    pub fn children(&self, hash: [u8; 32]) -> (r: Result<Vec<[u8; 32]>, BraidError>)
        requires
            self.wf(),
        ensures
            match r {
                Ok(v) => known(self@, hash@) && listing(hashes_view(v@), child_set(self@, hash@)),
                Err(e) => !known(self@, hash@) && e.kind == ErrorKind::BeadNotFound,
            },
    {
        let at = match self.find(&hash) {
            Ok(i) => i,
            Err(_) => {
                return Err(BraidError::new(ErrorKind::BeadNotFound));
            },
        };
        let list = self.index.children(at);
        proof {
            assert(lists_children(self.index@.children[at as int], graph(self@), at as int));
            assert forall|j: int| 0 <= j < list.len() implies list[j] < self.beads.len() by {
                assert(is_parent(graph(self@), at as int, list@[j] as int));
            }
        }
        let marks = mask_of(list, self.beads.len());
        proof {
            lemma_children(self@, self.index@, hash@, marks@);
        }
        let ps = self.select(&marks);
        Ok(self.ids_at(&ps))
    }

    /// The siblings of the bead with this identifier, in the order of
    /// their identifiers' bytes.
    pub fn siblings(&self, hash: [u8; 32]) -> (r: Result<Vec<[u8; 32]>, BraidError>)
        requires
            self.wf(),
        ensures
            match r {
                Ok(v) => known(self@, hash@) && listing(
                    hashes_view(v@),
                    sibling_set(self@, hash@),
                ),
                Err(e) => !known(self@, hash@) && e.kind == ErrorKind::BeadNotFound,
            },
    {
        let at = match self.find(&hash) {
            Ok(i) => i,
            Err(_) => {
                return Err(BraidError::new(ErrorKind::BeadNotFound));
            },
        };
        let list = self.index.siblings(at);
        proof {
            assert(lists_siblings(self.index@.siblings[at as int], graph(self@), at as int));
            assert forall|j: int| 0 <= j < list.len() implies list[j] < self.beads.len() by {
                assert(siblings(graph(self@), at as int, list@[j] as int));
            }
        }
        let marks = mask_of(list, self.beads.len());
        proof {
            lemma_siblings(self@, self.index@, hash@, marks@);
        }
        let ps = self.select(&marks);
        Ok(self.ids_at(&ps))
    }

    /// Whether the bead `a` is an ancestor of the bead `b`.
    pub fn is_ancestor(&self, a: [u8; 32], b: [u8; 32]) -> (r: Result<bool, BraidError>)
        requires
            self.wf(),
        ensures
            match r {
                Ok(x) => known(self@, a@) && known(self@, b@) && x == ancestor_of(self@, a@, b@),
                Err(e) => !(known(self@, a@) && known(self@, b@)) && e.kind
                    == ErrorKind::BeadNotFound,
            },
    {
        let i = match self.find(&a) {
            Ok(i) => i,
            Err(_) => {
                return Err(BraidError::new(ErrorKind::BeadNotFound));
            },
        };
        let j = match self.find(&b) {
            Ok(j) => j,
            Err(_) => {
                return Err(BraidError::new(ErrorKind::BeadNotFound));
            },
        };
        proof {
            lemma_graph(self@);
        }
        let marks = ancestors(&self.parents, j);
        Ok(marks[i])
    }

    /// The generation of the bead with this identifier.
    pub fn generation(&self, hash: [u8; 32]) -> (r: Result<usize, BraidError>)
        requires
            self.wf(),
        ensures
            match r {
                Ok(x) => known(self@, hash@) && x == generation_of(self@, hash@),
                Err(e) => !known(self@, hash@) && e.kind == ErrorKind::BeadNotFound,
            },
    {
        match self.find(&hash) {
            Ok(i) => Ok(self.index.generation(i)),
            Err(_) => Err(BraidError::new(ErrorKind::BeadNotFound)),
        }
    }

    /// The height of the cohort of the bead with this identifier.
    pub fn cohort_height(&self, hash: [u8; 32]) -> (r: Result<usize, BraidError>)
        requires
            self.wf(),
        ensures
            match r {
                Ok(x) => known(self@, hash@) && x == cohort_height_of(self@, hash@),
                Err(e) => !known(self@, hash@) && e.kind == ErrorKind::BeadNotFound,
            },
    {
        match self.find(&hash) {
            Ok(i) => Ok(self.index.cohort(i)),
            Err(_) => Err(BraidError::new(ErrorKind::BeadNotFound)),
        }
    }
}

} // verus!
