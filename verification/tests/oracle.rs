use braid::{Bead, Braid, ErrorKind, Payload};
use std::collections::BTreeSet;

fn key(k: usize) -> [u8; 32] {
    let mut h = [0u8; 32];
    if k > 0 {
        h[0] = ((k * 37) % 251) as u8;
        h[1] = k as u8;
        h[31] = 1;
    }
    h
}

fn step(x: &mut u64) -> usize {
    *x = x.wrapping_mul(6364136223846793005).wrapping_add(1442695040888963407);
    (*x >> 33) as usize
}

/// The relations of a graph, each worked out from its definition.
struct Oracle {
    parents: Vec<Vec<usize>>,
    ancestors: Vec<BTreeSet<usize>>,
    generation: Vec<usize>,
}

impl Oracle {
    fn new() -> Oracle {
        Oracle { parents: vec![vec![]], ancestors: vec![BTreeSet::new()], generation: vec![0] }
    }

    fn incest(&self, ps: &[usize]) -> bool {
        ps.iter().any(|p| ps.iter().any(|q| self.ancestors[*q].contains(p)))
    }

    fn push(&mut self, ps: Vec<usize>) {
        let mut up = BTreeSet::new();
        let mut generation = 0;
        for p in &ps {
            up.insert(*p);
            up.extend(self.ancestors[*p].iter().copied());
            generation = generation.max(self.generation[*p] + 1);
        }
        self.parents.push(ps);
        self.ancestors.push(up);
        self.generation.push(generation);
    }

    fn len(&self) -> usize {
        self.parents.len()
    }

    fn total_cut(&self, h: usize) -> bool {
        (0..self.len()).all(|a| {
            (0..self.len()).all(|b| {
                !(self.generation[a] <= h && h < self.generation[b])
                    || self.ancestors[b].contains(&a)
            })
        })
    }

    fn cohort(&self, i: usize) -> usize {
        (0..self.generation[i]).filter(|h| self.total_cut(*h)).count()
    }

    fn sorted(&self, members: impl Iterator<Item = usize>) -> Vec<[u8; 32]> {
        let mut v: Vec<[u8; 32]> = members.map(key).collect();
        v.sort();
        v
    }

    fn children(&self, i: usize) -> Vec<[u8; 32]> {
        self.sorted((0..self.len()).filter(|c| self.parents[*c].contains(&i)))
    }

    fn siblings(&self, i: usize) -> Vec<[u8; 32]> {
        self.sorted((0..self.len()).filter(|j| {
            *j != i && !self.ancestors[i].contains(j) && !self.ancestors[*j].contains(&i)
        }))
    }

    fn cohort_of(&self, i: usize) -> Vec<[u8; 32]> {
        let mine = self.cohort(i);
        self.sorted((0..self.len()).filter(|j| self.cohort(*j) == mine))
    }

    fn tips(&self) -> Vec<[u8; 32]> {
        self.sorted((0..self.len()).filter(|i| self.children(*i).is_empty()))
    }
}

fn agree(braid: &Braid, oracle: &Oracle) {
    assert_eq!(braid.len(), oracle.len());
    let tips: Vec<[u8; 32]> = braid.tips().iter().map(|b| b.hash()).collect();
    assert_eq!(tips, oracle.tips());
    for i in 0..oracle.len() {
        assert_eq!(braid.position_of(key(i)), Ok(i));
        assert_eq!(braid.generation(key(i)), Ok(oracle.generation[i]));
        assert_eq!(braid.cohort_height(key(i)), Ok(oracle.cohort(i)));
        assert_eq!(braid.children(key(i)).unwrap(), oracle.children(i));
        assert_eq!(braid.siblings(key(i)).unwrap(), oracle.siblings(i));
        assert_eq!(braid.cohort_of(key(i)).unwrap(), oracle.cohort_of(i));
        let kept = braid.derived_of(key(i)).unwrap();
        assert_eq!(braid.check_derived(key(i), &kept), Ok(()));
        for j in 0..oracle.len() {
            assert_eq!(braid.is_ancestor(key(j), key(i)), Ok(oracle.ancestors[i].contains(&j)));
        }
    }
}

fn grow(seed: u64, beads: usize, fan: usize) {
    let mut x = seed;
    let mut braid = Braid::new();
    let mut oracle = Oracle::new();
    let mut refused = 0;
    while oracle.len() < beads {
        let k = oracle.len();
        let mut ps: Vec<usize> = Vec::new();
        for _ in 0..1 + step(&mut x) % fan {
            // mostly late beads, now and then any bead
            let p = if step(&mut x) % 4 == 0 {
                step(&mut x) % k
            } else {
                k - 1 - step(&mut x) % k.min(4)
            };
            if !ps.contains(&p) {
                ps.push(p);
            }
        }
        let names: Vec<[u8; 32]> = ps.iter().map(|p| key(*p)).collect();
        let bead = Bead::new(key(k), names, Payload::empty(), k as u64).unwrap();
        let before = braid.clone();
        let r = braid.insert(bead);
        if oracle.incest(&ps) {
            assert_eq!(r.unwrap_err().kind(), ErrorKind::IncestViolation);
            assert_eq!(braid, before);
            refused += 1;
            assert!(refused < 10_000);
            continue;
        }
        assert_eq!(r, Ok(()));
        oracle.push(ps);
        if k % 5 == 0 || k + 1 == beads {
            agree(&braid, &oracle);
            let mut again = braid.clone();
            again.reindex();
            assert_eq!(again, braid);
        }
    }
    let records: Vec<Bead> = (0..beads).map(|i| braid.get_bead(key(i)).unwrap()).collect();
    assert_eq!(Braid::open(&records).unwrap(), braid);
}

#[test]
fn a_grown_braid_agrees_with_the_definitions() {
    grow(1, 40, 3);
}

#[test]
fn a_wide_braid_agrees_with_the_definitions() {
    grow(7, 35, 1);
}

#[test]
fn a_tangled_braid_agrees_with_the_definitions() {
    grow(12345, 30, 4);
}
