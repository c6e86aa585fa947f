use braid::{Bead, Braid, ErrorKind, Payload};

fn id(n: u8) -> [u8; 32] {
    let mut h = [0u8; 32];
    h[31] = n;
    h
}

fn bead(n: u8, parents: &[u8]) -> Bead {
    let parents: Vec<[u8; 32]> = parents.iter().map(|p| id(*p)).collect();
    Bead::new(id(n), parents, Payload::empty(), 1).unwrap()
}

fn hashes(beads: &[Bead]) -> Vec<[u8; 32]> {
    beads.iter().map(|b| b.hash()).collect()
}

#[test]
fn empty_braid_holds_only_genesis() {
    let braid = Braid::new();
    assert_eq!(braid.len(), 1);
    assert!(braid.contains([0u8; 32]));
    let tips = braid.tips();
    assert_eq!(tips.len(), 1);
    assert_eq!(tips[0].hash(), [0u8; 32]);
    assert_eq!(tips[0].parents().len(), 0);
    assert_eq!(tips[0].difficulty(), 0);
    let genesis = braid.get_bead([0u8; 32]).unwrap();
    assert_eq!(genesis, Bead::genesis());
    assert_eq!(braid.cohort_of([0u8; 32]).unwrap(), vec![[0u8; 32]]);
    assert_eq!(braid.generation([0u8; 32]).unwrap(), 0);
    assert_eq!(braid.cohort_height([0u8; 32]).unwrap(), 0);
}

#[test]
fn one_child_of_genesis() {
    let mut braid = Braid::new();
    assert_eq!(braid.insert(bead(1, &[0])), Ok(()));
    assert_eq!(hashes(&braid.tips()), vec![id(1)]);
    assert_eq!(braid.cohort_of(id(0)).unwrap(), vec![id(0)]);
    assert_eq!(braid.cohort_of(id(1)).unwrap(), vec![id(1)]);
    assert_eq!(braid.children(id(0)).unwrap(), vec![id(1)]);
    assert_eq!(braid.generation(id(1)).unwrap(), 1);
    assert_eq!(braid.cohort_height(id(1)).unwrap(), 1);
}

#[test]
fn concurrent_tips_are_siblings_of_one_cohort() {
    let mut braid = Braid::new();
    braid.insert(bead(1, &[0])).unwrap();
    braid.insert(bead(2, &[0])).unwrap();
    assert_eq!(braid.siblings(id(1)).unwrap(), vec![id(2)]);
    assert_eq!(braid.siblings(id(2)).unwrap(), vec![id(1)]);
    assert_eq!(braid.is_ancestor(id(1), id(2)), Ok(false));
    assert_eq!(braid.is_ancestor(id(2), id(1)), Ok(false));
    assert_eq!(braid.cohort_height(id(1)).unwrap(), 1);
    assert_eq!(braid.cohort_height(id(2)).unwrap(), 1);
    assert_eq!(braid.cohort_of(id(1)).unwrap(), vec![id(1), id(2)]);
    assert_eq!(braid.cohort_of(id(2)).unwrap(), vec![id(1), id(2)]);
    assert_eq!(hashes(&braid.tips()), vec![id(1), id(2)]);
}

#[test]
fn joining_two_siblings_succeeds() {
    let mut braid = Braid::new();
    braid.insert(bead(1, &[0])).unwrap();
    braid.insert(bead(2, &[0])).unwrap();
    assert_eq!(braid.insert(bead(3, &[1, 2])), Ok(()));
    assert_eq!(hashes(&braid.tips()), vec![id(3)]);
    // every bead before the new one is its ancestor: the cut below it is total
    assert_eq!(braid.cohort_of(id(0)).unwrap(), vec![id(0)]);
    assert_eq!(braid.cohort_of(id(1)).unwrap(), vec![id(1), id(2)]);
    assert_eq!(braid.cohort_of(id(3)).unwrap(), vec![id(3)]);
    assert_eq!(braid.cohort_height(id(3)).unwrap(), 2);
    assert_eq!(braid.generation(id(3)).unwrap(), 2);
    assert_eq!(braid.siblings(id(3)).unwrap(), Vec::<[u8; 32]>::new());
}

#[test]
fn unknown_parent_is_refused_and_nothing_changes() {
    let mut braid = Braid::new();
    braid.insert(bead(1, &[0])).unwrap();
    let before = braid.clone();
    let r = braid.insert(bead(2, &[7]));
    assert_eq!(r.unwrap_err().kind(), ErrorKind::UnknownParent);
    assert_eq!(braid, before);
    assert!(!braid.contains(id(2)));
    assert_eq!(braid.len(), 2);
}

#[test]
fn parent_that_is_ancestor_of_another_parent_is_incest() {
    let mut braid = Braid::new();
    braid.insert(bead(1, &[0])).unwrap();
    braid.insert(bead(2, &[1])).unwrap();
    let before = braid.clone();
    let r = braid.insert(bead(3, &[0, 2]));
    assert_eq!(r.unwrap_err().kind(), ErrorKind::IncestViolation);
    assert_eq!(braid, before);
    let r = braid.insert(bead(3, &[2, 1]));
    assert_eq!(r.unwrap_err().kind(), ErrorKind::IncestViolation);
    assert_eq!(braid, before);
    assert_eq!(hashes(&braid.tips()), vec![id(2)]);
}

#[test]
fn incest_is_reported_before_the_other_errors() {
    let mut braid = Braid::new();
    braid.insert(bead(1, &[0])).unwrap();
    braid.insert(bead(2, &[1])).unwrap();
    let before = braid.clone();
    // an unknown parent beside the incestuous pair
    let r = braid.insert(bead(3, &[9, 0, 2]));
    assert_eq!(r.unwrap_err().kind(), ErrorKind::IncestViolation);
    // an identifier that is taken, with an incestuous pair
    let r = braid.insert(bead(2, &[0, 1]));
    assert_eq!(r.unwrap_err().kind(), ErrorKind::IncestViolation);
    // an identifier that is taken, with an unknown parent
    let r = braid.insert(bead(2, &[9]));
    assert_eq!(r.unwrap_err().kind(), ErrorKind::UnknownParent);
    assert_eq!(braid, before);
}

#[test]
fn the_same_bead_twice_is_a_duplicate() {
    let mut braid = Braid::new();
    braid.insert(bead(1, &[0])).unwrap();
    let before = braid.clone();
    let r = braid.insert(bead(1, &[0]));
    assert_eq!(r.unwrap_err().kind(), ErrorKind::DuplicateBead);
    assert_eq!(braid, before);
    let r = braid.insert(Bead::genesis());
    assert_eq!(r.unwrap_err().kind(), ErrorKind::DuplicateBead);
    assert_eq!(braid, before);
}

#[test]
fn a_bead_that_names_itself_has_an_unknown_parent() {
    let mut braid = Braid::new();
    let r = braid.insert(bead(1, &[1]));
    assert_eq!(r.unwrap_err().kind(), ErrorKind::UnknownParent);
    assert_eq!(braid.len(), 1);
}

#[test]
fn lookup_of_an_absent_bead_fails() {
    let braid = Braid::new();
    assert_eq!(braid.get_bead(id(5)).unwrap_err().kind(), ErrorKind::BeadNotFound);
    assert_eq!(braid.cohort_of(id(5)).unwrap_err().kind(), ErrorKind::BeadNotFound);
    assert_eq!(braid.children(id(5)).unwrap_err().kind(), ErrorKind::BeadNotFound);
    assert_eq!(braid.siblings(id(5)).unwrap_err().kind(), ErrorKind::BeadNotFound);
    assert_eq!(braid.generation(id(5)).unwrap_err().kind(), ErrorKind::BeadNotFound);
    assert_eq!(braid.cohort_height(id(5)).unwrap_err().kind(), ErrorKind::BeadNotFound);
    assert_eq!(braid.is_ancestor(id(0), id(5)).unwrap_err().kind(), ErrorKind::BeadNotFound);
    assert_eq!(braid.is_ancestor(id(5), id(0)).unwrap_err().kind(), ErrorKind::BeadNotFound);
    assert_eq!(braid.position_of(id(5)), Err(braid::BeadNotFound));
    assert_eq!(braid.get_bead(id(5)).unwrap_err().message(), "Bead not found");
}

#[test]
fn get_bead_returns_what_was_inserted() {
    let mut braid = Braid::new();
    let payload = Payload {
        blockheader: vec![1, 2, 3],
        coinbase: vec![4],
        payout: vec![5, 6],
        metadata: vec![],
        ucmetadata: vec![7],
    };
    let b = Bead::new(id(9), vec![id(0)], payload, 42).unwrap();
    braid.insert(b.clone()).unwrap();
    let got = braid.get_bead(id(9)).unwrap();
    assert_eq!(got, b);
    assert_eq!(got.hash(), id(9));
    assert_eq!(got.parents(), &vec![id(0)]);
    assert_eq!(got.payload().blockheader, vec![1, 2, 3]);
    assert_eq!(got.payload().ucmetadata, vec![7]);
    assert_eq!(got.difficulty(), 42);
    assert_eq!(braid.position_of(id(9)), Ok(1));
    assert_eq!(braid.position_of(id(0)), Ok(0));
}

#[test]
fn a_stored_derived_record_is_checked() {
    let mut braid = Braid::new();
    braid.insert(bead(1, &[0])).unwrap();
    braid.insert(bead(2, &[0])).unwrap();
    braid.insert(bead(3, &[1])).unwrap();
    let good = braid.derived_of(id(1)).unwrap();
    assert_eq!(good.children, vec![id(3)]);
    assert_eq!(good.siblings, vec![id(2)]);
    assert_eq!(good.cohort, 1);
    assert_eq!(braid.check_derived(id(1), &good), Ok(()));
    let corrupt = |d: braid::Derived| braid.check_derived(id(1), &d).unwrap_err().kind();
    let wrong_height = braid::Derived { children: vec![id(3)], siblings: vec![id(2)], cohort: 2 };
    assert_eq!(corrupt(wrong_height), ErrorKind::CorruptIndex);
    let lost_child = braid::Derived { children: vec![], siblings: vec![id(2)], cohort: 1 };
    assert_eq!(corrupt(lost_child), ErrorKind::CorruptIndex);
    let extra = braid::Derived { children: vec![id(3)], siblings: vec![id(2), id(3)], cohort: 1 };
    assert_eq!(corrupt(extra), ErrorKind::CorruptIndex);
    let unsorted = braid.derived_of(id(0)).unwrap();
    assert_eq!(unsorted.children, vec![id(1), id(2)]);
    let swapped = braid::Derived { children: vec![id(2), id(1)], siblings: vec![], cohort: 0 };
    assert_eq!(braid.check_derived(id(0), &swapped).unwrap_err().kind(), ErrorKind::CorruptIndex);
    assert_eq!(braid.check_derived(id(9), &good).unwrap_err().kind(), ErrorKind::BeadNotFound);
    assert_eq!(braid.derived_of(id(9)).unwrap_err().kind(), ErrorKind::BeadNotFound);
}
