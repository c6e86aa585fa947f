use braid::hash::{compare, genesis_id, is_genesis, same, HashOrder};
use braid::{Bead, BeadNotFound, Braid, BraidError, ErrorKind, Payload};

fn tag(n: u8) -> [u8; 32] {
    let mut h = [0u8; 32];
    h[5] = n;
    h
}

#[test]
fn genesis_bead_has_zero_hash_and_nothing_else() {
    let g = Bead::genesis();
    assert_eq!(g.hash(), [0u8; 32]);
    assert!(g.parents().is_empty());
    assert_eq!(g.difficulty(), 0);
    assert_eq!(g.payload(), &Payload::empty());
    assert_eq!(genesis_id(), [0u8; 32]);
    assert!(is_genesis(&[0u8; 32]));
    assert!(!is_genesis(&tag(1)));
}

#[test]
fn a_bead_cannot_name_a_parent_twice() {
    assert!(Bead::new(tag(1), vec![tag(2), tag(3), tag(2)], Payload::empty(), 0).is_none());
    assert!(Bead::new(tag(1), vec![tag(2), tag(2)], Payload::empty(), 0).is_none());
    assert!(Bead::new(tag(1), vec![tag(2), tag(3)], Payload::empty(), 0).is_some());
}

#[test]
fn only_the_genesis_identifier_goes_without_parents() {
    assert!(Bead::new(tag(1), vec![], Payload::empty(), 0).is_none());
    assert!(Bead::new([0u8; 32], vec![], Payload::empty(), 0).is_some());
    let mut last = [0u8; 32];
    last[31] = 1;
    assert!(Bead::new(last, vec![], Payload::empty(), 0).is_none());
}

#[test]
fn a_bead_keeps_its_parts() {
    let payload = Payload {
        blockheader: vec![9, 9],
        coinbase: vec![1],
        payout: vec![2],
        metadata: vec![3],
        ucmetadata: vec![4],
    };
    let b = Bead::new(tag(1), vec![tag(3), tag(2)], payload.clone(), 7).unwrap();
    assert_eq!(b.hash(), tag(1));
    assert_eq!(b.parents(), &vec![tag(3), tag(2)]);
    assert_eq!(b.payload(), &payload);
    assert_eq!(b.difficulty(), 7);
    let c = b.clone();
    assert_eq!(c, b);
    assert_eq!(c.payload().blockheader, vec![9, 9]);
}

#[test]
fn identifiers_are_compared_byte_by_byte() {
    let mut a = [0u8; 32];
    let mut b = [0u8; 32];
    a[3] = 1;
    b[3] = 2;
    assert_eq!(compare(&a, &b), HashOrder::Before);
    assert_eq!(compare(&b, &a), HashOrder::After);
    assert_eq!(compare(&a, &a), HashOrder::Same);
    // the first byte that differs decides
    a[10] = 200;
    assert_eq!(compare(&a, &b), HashOrder::Before);
    b[0] = 0;
    a[0] = 1;
    assert_eq!(compare(&a, &b), HashOrder::After);
    let mut c = [255u8; 32];
    let d = [255u8; 32];
    assert!(same(&c, &d));
    c[31] = 254;
    assert!(!same(&c, &d));
    assert_eq!(compare(&c, &d), HashOrder::Before);
}

#[test]
fn every_kind_of_error_has_its_text() {
    assert_eq!(BraidError::new(ErrorKind::BeadNotFound).message(), "Bead not found");
    assert_eq!(BraidError::new(ErrorKind::UnknownParent).message(), "Unknown parent");
    assert_eq!(BraidError::new(ErrorKind::IncestViolation).message(), "Incest violation");
    assert_eq!(BraidError::new(ErrorKind::DuplicateBead).message(), "Duplicate bead");
    assert_eq!(BraidError::new(ErrorKind::StorageInitError).message(), "Storage cannot be opened");
    assert_eq!(BraidError::new(ErrorKind::CorruptIndex).message(), "Corrupt index");
    assert_eq!(BraidError::new(ErrorKind::CorruptIndex).kind(), ErrorKind::CorruptIndex);
    assert_eq!(BraidError::from(BeadNotFound).kind(), ErrorKind::BeadNotFound);
}

#[test]
fn open_without_records_is_refused() {
    assert_eq!(Braid::open(&vec![]).unwrap_err().kind(), ErrorKind::StorageInitError);
    assert_eq!(Braid::open(&vec![Bead::genesis()]).unwrap(), Braid::new());
}

#[test]
fn open_takes_the_records_in_their_order() {
    let records = vec![
        Bead::genesis(),
        Bead::new(tag(1), vec![[0u8; 32]], Payload::empty(), 3).unwrap(),
        Bead::new(tag(2), vec![[0u8; 32]], Payload::empty(), 4).unwrap(),
        Bead::new(tag(3), vec![tag(2), tag(1)], Payload::empty(), 5).unwrap(),
    ];
    let braid = Braid::open(&records).unwrap();
    assert_eq!(braid.len(), 4);
    assert_eq!(braid.get_bead(tag(3)).unwrap(), records[3]);
    assert_eq!(braid.position_of(tag(2)), Ok(2));
    assert_eq!(braid.cohort_height(tag(3)), Ok(2));
    let mut same = Braid::new();
    for r in &records[1..] {
        same.insert(r.clone()).unwrap();
    }
    assert_eq!(braid, same);
}

#[test]
fn open_refuses_records_that_are_no_braid() {
    let child = Bead::new(tag(1), vec![[0u8; 32]], Payload::empty(), 3).unwrap();
    let grandchild = Bead::new(tag(2), vec![tag(1)], Payload::empty(), 3).unwrap();
    let incest = Bead::new(tag(3), vec![tag(1), tag(2)], Payload::empty(), 3).unwrap();
    let storage = |records: Vec<Bead>| Braid::open(&records).unwrap_err().kind();
    // no genesis at the start
    assert_eq!(storage(vec![child.clone()]), ErrorKind::StorageInitError);
    // a parent that comes later
    assert_eq!(
        storage(vec![Bead::genesis(), grandchild.clone(), child.clone()]),
        ErrorKind::StorageInitError
    );
    // an identifier twice
    assert_eq!(
        storage(vec![Bead::genesis(), child.clone(), child.clone()]),
        ErrorKind::StorageInitError
    );
    assert_eq!(storage(vec![Bead::genesis(), Bead::genesis()]), ErrorKind::StorageInitError);
    // incest
    assert_eq!(
        storage(vec![Bead::genesis(), child.clone(), grandchild.clone(), incest]),
        ErrorKind::StorageInitError
    );
    assert!(Braid::open(&vec![Bead::genesis(), child, grandchild]).is_ok());
}

#[test]
fn open_keeps_the_payload_of_a_stored_genesis() {
    let payload = Payload {
        blockheader: vec![1],
        coinbase: vec![],
        payout: vec![],
        metadata: vec![],
        ucmetadata: vec![],
    };
    let first = Bead::new([0u8; 32], vec![], payload, 0).unwrap();
    let braid = Braid::open(&vec![first.clone()]).unwrap();
    assert_eq!(braid.get_bead([0u8; 32]).unwrap(), first);
}
