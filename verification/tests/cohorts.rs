use braid::{Bead, Braid, Payload};

fn name(n: u8) -> [u8; 32] {
    let mut h = [0u8; 32];
    h[0] = n;
    h
}

fn make(n: u8, parents: &[u8]) -> Bead {
    let parents: Vec<[u8; 32]> = parents.iter().map(|p| name(*p)).collect();
    Bead::new(name(n), parents, Payload::empty(), 1).unwrap()
}

fn names(ns: &[u8]) -> Vec<[u8; 32]> {
    ns.iter().map(|n| name(*n)).collect()
}

/// genesis <- 1, 2;  1 <- 3;  2 <- 4;  3, 4 <- 5
fn ladder() -> Braid {
    let mut braid = Braid::new();
    braid.insert(make(1, &[0])).unwrap();
    braid.insert(make(2, &[0])).unwrap();
    braid.insert(make(3, &[1])).unwrap();
    braid.insert(make(4, &[2])).unwrap();
    braid.insert(make(5, &[3, 4])).unwrap();
    braid
}

#[test]
fn generations_are_longest_paths() {
    let braid = ladder();
    assert_eq!(braid.generation(name(0)), Ok(0));
    assert_eq!(braid.generation(name(1)), Ok(1));
    assert_eq!(braid.generation(name(2)), Ok(1));
    assert_eq!(braid.generation(name(3)), Ok(2));
    assert_eq!(braid.generation(name(4)), Ok(2));
    assert_eq!(braid.generation(name(5)), Ok(3));
}

#[test]
fn generation_takes_the_longest_of_two_paths() {
    let mut braid = Braid::new();
    braid.insert(make(1, &[0])).unwrap();
    braid.insert(make(2, &[1])).unwrap();
    braid.insert(make(3, &[0])).unwrap();
    braid.insert(make(4, &[2, 3])).unwrap();
    assert_eq!(braid.generation(name(3)), Ok(1));
    assert_eq!(braid.generation(name(4)), Ok(3));
}

#[test]
fn a_cut_that_is_not_total_merges_two_generations() {
    let braid = ladder();
    // 1 is no ancestor of 4: generations 1 and 2 are one cohort
    assert_eq!(braid.cohort_height(name(0)), Ok(0));
    assert_eq!(braid.cohort_height(name(1)), Ok(1));
    assert_eq!(braid.cohort_height(name(2)), Ok(1));
    assert_eq!(braid.cohort_height(name(3)), Ok(1));
    assert_eq!(braid.cohort_height(name(4)), Ok(1));
    assert_eq!(braid.cohort_height(name(5)), Ok(2));
    assert_eq!(braid.cohort_of(name(0)).unwrap(), names(&[0]));
    assert_eq!(braid.cohort_of(name(3)).unwrap(), names(&[1, 2, 3, 4]));
    assert_eq!(braid.cohort_of(name(5)).unwrap(), names(&[5]));
}

#[test]
fn a_late_bead_merges_the_cohorts_that_it_crosses() {
    let mut braid = ladder();
    braid.insert(make(6, &[1])).unwrap();
    // 6 has generation 2 and is no ancestor of 5, and 2 is no ancestor of 6
    assert_eq!(braid.generation(name(6)), Ok(2));
    assert_eq!(braid.cohort_height(name(5)), Ok(1));
    assert_eq!(braid.cohort_height(name(6)), Ok(1));
    assert_eq!(braid.cohort_of(name(6)).unwrap(), names(&[1, 2, 3, 4, 5, 6]));
    assert_eq!(braid.cohort_of(name(0)).unwrap(), names(&[0]));
    // a bead above all tips closes the cohort again
    braid.insert(make(7, &[5, 6])).unwrap();
    assert_eq!(braid.cohort_height(name(7)), Ok(2));
    assert_eq!(braid.cohort_of(name(7)).unwrap(), names(&[7]));
    assert_eq!(braid.cohort_of(name(2)).unwrap(), names(&[1, 2, 3, 4, 5, 6]));
}

#[test]
fn siblings_are_the_unordered_beads() {
    let braid = ladder();
    assert_eq!(braid.siblings(name(1)).unwrap(), names(&[2, 4]));
    assert_eq!(braid.siblings(name(3)).unwrap(), names(&[2, 4]));
    assert_eq!(braid.siblings(name(4)).unwrap(), names(&[1, 3]));
    assert_eq!(braid.siblings(name(0)).unwrap(), names(&[]));
    assert_eq!(braid.siblings(name(5)).unwrap(), names(&[]));
}

#[test]
fn siblings_are_symmetric_and_apart_from_ancestors() {
    let braid = ladder();
    for a in 0..6u8 {
        let sibs = braid.siblings(name(a)).unwrap();
        for b in 0..6u8 {
            let is_sib = sibs.contains(&name(b));
            let back = braid.siblings(name(b)).unwrap().contains(&name(a));
            assert_eq!(is_sib, back);
            let up = braid.is_ancestor(name(b), name(a)).unwrap();
            let down = braid.is_ancestor(name(a), name(b)).unwrap();
            assert_eq!(is_sib, a != b && !up && !down);
            if is_sib {
                assert_eq!(braid.cohort_height(name(a)), braid.cohort_height(name(b)));
            }
        }
    }
}

#[test]
fn genesis_is_an_ancestor_of_every_other_bead() {
    let braid = ladder();
    for b in 1..6u8 {
        assert_eq!(braid.is_ancestor(name(0), name(b)), Ok(true));
        assert_eq!(braid.is_ancestor(name(b), name(0)), Ok(false));
        assert!(!braid.get_bead(name(b)).unwrap().parents().is_empty());
    }
    assert!(braid.get_bead(name(0)).unwrap().parents().is_empty());
    assert_eq!(braid.is_ancestor(name(0), name(0)), Ok(false));
}

#[test]
fn ancestry_follows_the_parents() {
    let braid = ladder();
    assert_eq!(braid.is_ancestor(name(1), name(3)), Ok(true));
    assert_eq!(braid.is_ancestor(name(1), name(5)), Ok(true));
    assert_eq!(braid.is_ancestor(name(2), name(5)), Ok(true));
    assert_eq!(braid.is_ancestor(name(1), name(4)), Ok(false));
    assert_eq!(braid.is_ancestor(name(3), name(1)), Ok(false));
    assert_eq!(braid.is_ancestor(name(5), name(5)), Ok(false));
}

#[test]
fn a_bead_is_a_tip_exactly_without_children() {
    let mut braid = ladder();
    braid.insert(make(6, &[1])).unwrap();
    let tips: Vec<[u8; 32]> = braid.tips().iter().map(|b| b.hash()).collect();
    assert_eq!(tips, names(&[5, 6]));
    for b in 0..7u8 {
        let childless = braid.children(name(b)).unwrap().is_empty();
        assert_eq!(tips.contains(&name(b)), childless);
    }
    assert_eq!(braid.children(name(1)).unwrap(), names(&[3, 6]));
    assert_eq!(braid.children(name(0)).unwrap(), names(&[1, 2]));
}

#[test]
fn cohort_heights_do_not_fall_along_ancestry() {
    let mut braid = ladder();
    braid.insert(make(6, &[1])).unwrap();
    braid.insert(make(7, &[5, 6])).unwrap();
    let mut count = 0;
    for a in 0..8u8 {
        let mine = braid.cohort_of(name(a)).unwrap();
        assert!(mine.contains(&name(a)));
        count += if mine[0] == name(a) { mine.len() } else { 0 };
        for b in 0..8u8 {
            if braid.is_ancestor(name(a), name(b)).unwrap() {
                let below = braid.cohort_height(name(a)).unwrap();
                assert!(below <= braid.cohort_height(name(b)).unwrap());
                assert!(braid.generation(name(a)).unwrap() < braid.generation(name(b)).unwrap());
            }
            let same = braid.cohort_height(name(a)) == braid.cohort_height(name(b));
            assert_eq!(mine.contains(&name(b)), same);
        }
    }
    // the cohorts cover every bead once
    assert_eq!(count, 8);
}

#[test]
fn results_come_in_the_order_of_the_identifiers() {
    let mut braid = Braid::new();
    // inserted against the order of their bytes
    braid.insert(make(9, &[0])).unwrap();
    braid.insert(make(4, &[0])).unwrap();
    braid.insert(make(7, &[0])).unwrap();
    let mut low = [0u8; 32];
    low[31] = 200;
    braid.insert(Bead::new(low, vec![name(0)], Payload::empty(), 1).unwrap()).unwrap();
    let tips: Vec<[u8; 32]> = braid.tips().iter().map(|b| b.hash()).collect();
    assert_eq!(tips, vec![low, name(4), name(7), name(9)]);
    assert_eq!(braid.cohort_of(name(9)).unwrap(), vec![low, name(4), name(7), name(9)]);
    assert_eq!(braid.siblings(name(7)).unwrap(), vec![low, name(4), name(9)]);
    assert_eq!(braid.children(name(0)).unwrap(), vec![low, name(4), name(7), name(9)]);
    assert_eq!(braid.position_of(name(4)), Ok(2));
    assert_eq!(braid.position_of(low), Ok(4));
}

#[test]
fn reindex_changes_nothing_and_can_be_repeated() {
    let mut braid = ladder();
    braid.insert(make(6, &[1])).unwrap();
    let before = braid.clone();
    braid.reindex();
    assert_eq!(braid, before);
    let once = braid.clone();
    braid.reindex();
    assert_eq!(braid, once);
    assert_eq!(braid.cohort_of(name(6)).unwrap(), names(&[1, 2, 3, 4, 5, 6]));
}

#[test]
fn the_order_of_arrival_of_siblings_does_not_change_the_relations() {
    let mut one = Braid::new();
    one.insert(make(1, &[0])).unwrap();
    one.insert(make(2, &[0])).unwrap();
    one.insert(make(3, &[1, 2])).unwrap();
    let mut other = Braid::new();
    other.insert(make(2, &[0])).unwrap();
    other.insert(make(1, &[0])).unwrap();
    other.insert(make(3, &[2, 1])).unwrap();
    for b in 0..4u8 {
        assert_eq!(one.cohort_of(name(b)), other.cohort_of(name(b)));
        assert_eq!(one.siblings(name(b)), other.siblings(name(b)));
        assert_eq!(one.children(name(b)), other.children(name(b)));
        assert_eq!(one.generation(name(b)), other.generation(name(b)));
    }
}
