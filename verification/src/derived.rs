//! The derived relations of one bead as a store keeps them beside the
//! beads: a copy that can be made again, and that is checked when read.

use crate::bead::hashes_view;
use crate::braid::Braid;
use crate::error::{BraidError, ErrorKind};
use crate::hash::{lemma_sorted_unique, same};
use crate::model::{child_set, cohort_height_of, known, listing, sibling_set, Beads};
use vstd::prelude::*;

verus! {

/// The children, the siblings and the cohort height of one bead.
#[derive(Debug, PartialEq, Eq)]
pub struct Derived {
    pub children: Vec<[u8; 32]>,
    pub siblings: Vec<[u8; 32]>,
    pub cohort: usize,
}

/// A derived record as plain values.
pub struct DerivedView {
    pub children: Seq<Seq<u8>>,
    pub siblings: Seq<Seq<u8>>,
    pub cohort: usize,
}

impl View for Derived {
    type V = DerivedView;

    open spec fn view(&self) -> DerivedView {
        DerivedView {
            children: hashes_view(self.children@),
            siblings: hashes_view(self.siblings@),
            cohort: self.cohort,
        }
    }
}

/// The record `d` is that of the bead `h`: it lists the children and the
/// siblings of `h` in the order of their bytes, and gives its cohort height.
pub open spec fn agrees(s: Beads, h: Seq<u8>, d: DerivedView) -> bool {
    &&& listing(d.children, child_set(s, h))
    &&& listing(d.siblings, sibling_set(s, h))
    &&& d.cohort == cohort_height_of(s, h)
}

/// A set has one listing.
proof fn lemma_listing_unique(r: Seq<Seq<u8>>, t: Seq<Seq<u8>>, set: Set<Seq<u8>>)
    requires
        listing(r, set),
        listing(t, set),
    ensures
        r == t,
{
    assert forall|h: Seq<u8>| r.contains(h) == t.contains(h) by {
        if r.contains(h) {
            let j = choose|j: int| 0 <= j < r.len() && r[j] == h;
            assert(set.contains(r[j]));
        }
        if t.contains(h) {
            let j = choose|j: int| 0 <= j < t.len() && t[j] == h;
            assert(set.contains(t[j]));
        }
    }
    lemma_sorted_unique(r, t);
}

/// Whether the two lists hold the same identifiers in the same order.
fn same_list(a: &Vec<[u8; 32]>, b: &Vec<[u8; 32]>) -> (r: bool)
    ensures
        r == (hashes_view(a@) == hashes_view(b@)),
{
    if a.len() != b.len() {
        assert(hashes_view(a@).len() != hashes_view(b@).len());
        return false;
    }
    let mut i: usize = 0;
    while i < a.len()
        invariant
            a.len() == b.len(),
            i <= a.len(),
            forall|j: int| 0 <= j < i ==> hashes_view(a@)[j] == hashes_view(b@)[j],
        decreases a.len() - i,
    {
        if !same(&a[i], &b[i]) {
            assert(hashes_view(a@)[i as int] != hashes_view(b@)[i as int]);
            return false;
        }
        i += 1;
    }
    assert(hashes_view(a@) =~= hashes_view(b@));
    true
}

impl Braid {
    /// The derived record of the bead with this identifier, as the braid
    /// holds it.
    pub fn derived_of(&self, hash: [u8; 32]) -> (r: Result<Derived, BraidError>)
        requires
            self.wf(),
        ensures
            match r {
                Ok(d) => known(self@, hash@) && agrees(self@, hash@, d@),
                Err(e) => !known(self@, hash@) && e.kind == ErrorKind::BeadNotFound,
            },
    {
        let children = match self.children(hash) {
            Ok(v) => v,
            Err(e) => {
                return Err(e);
            },
        };
        let siblings = match self.siblings(hash) {
            Ok(v) => v,
            Err(e) => {
                return Err(e);
            },
        };
        let cohort = match self.cohort_height(hash) {
            Ok(v) => v,
            Err(e) => {
                return Err(e);
            },
        };
        Ok(Derived { children, siblings, cohort })
    }

    /// Holds a derived record that was read from a store against the
    /// braid: the record is refused as corrupt unless it is the derived
    /// record of the bead.
    pub fn check_derived(&self, hash: [u8; 32], stored: &Derived) -> (r: Result<(), BraidError>)
        requires
            self.wf(),
        ensures
            match r {
                Ok(()) => known(self@, hash@) && agrees(self@, hash@, stored@),
                Err(e) => if known(self@, hash@) {
                    e.kind == ErrorKind::CorruptIndex && !agrees(self@, hash@, stored@)
                } else {
                    e.kind == ErrorKind::BeadNotFound
                },
            },
    {
        let mine = match self.derived_of(hash) {
            Ok(d) => d,
            Err(e) => {
                return Err(e);
            },
        };
        proof {
            if agrees(self@, hash@, stored@) {
                lemma_listing_unique(stored@.children, mine@.children, child_set(self@, hash@));
                lemma_listing_unique(stored@.siblings, mine@.siblings, sibling_set(self@, hash@));
            }
        }
        if same_list(&mine.children, &stored.children) && same_list(
            &mine.siblings,
            &stored.siblings,
        ) && mine.cohort == stored.cohort {
            Ok(())
        } else {
            Err(BraidError::new(ErrorKind::CorruptIndex))
        }
    }
}

} // verus!
