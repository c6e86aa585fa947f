//! A bead: one unit of a braid, with its identifier, the identifiers of its
//! parents, and a payload that the braid carries and does not read.

use crate::hash::{genesis_hash, genesis_id, is_genesis, same};
use vstd::prelude::*;

verus! {

/// What a bead carries besides its place in the braid.
#[derive(Debug, PartialEq, Eq)]
pub struct Payload {
    pub blockheader: Vec<u8>,
    pub coinbase: Vec<u8>,
    pub payout: Vec<u8>,
    pub metadata: Vec<u8>,
    pub ucmetadata: Vec<u8>,
}

/// A payload as plain sequences of bytes.
pub struct PayloadView {
    pub blockheader: Seq<u8>,
    pub coinbase: Seq<u8>,
    pub payout: Seq<u8>,
    pub metadata: Seq<u8>,
    pub ucmetadata: Seq<u8>,
}

/// A bead. Its parents are a set: none is named twice, and only a bead with
/// the genesis identifier has none.
#[derive(Debug, PartialEq, Eq)]
pub struct Bead {
    hash: [u8; 32],
    parents: Vec<[u8; 32]>,
    payload: Payload,
    difficulty: u64,
}

/// A bead as plain values.
pub struct BeadView {
    pub hash: Seq<u8>,
    pub parents: Seq<Seq<u8>>,
    pub payload: PayloadView,
    pub difficulty: u64,
}

/// The identifiers of `v`, each as a sequence of bytes.
pub open spec fn hashes_view(v: Seq<[u8; 32]>) -> Seq<Seq<u8>> {
    Seq::new(v.len(), |k: int| v[k]@)
}

/// No two items of `s` are the same.
pub open spec fn distinct(s: Seq<Seq<u8>>) -> bool {
    forall|k: int, l: int| 0 <= k < l < s.len() ==> s[k] != s[l]
}

/// What holds of every bead: identifiers have 32 bytes, no parent is named
/// twice, and a bead without parents has the genesis identifier.
pub open spec fn valid_bead(b: BeadView) -> bool {
    &&& b.hash.len() == 32
    &&& forall|k: int| 0 <= k < b.parents.len() ==> (#[trigger] b.parents[k]).len() == 32
    &&& distinct(b.parents)
    &&& b.parents.len() == 0 ==> b.hash == genesis_hash()
}

/// The payload without content.
pub open spec fn empty_payload() -> PayloadView {
    PayloadView {
        blockheader: Seq::empty(),
        coinbase: Seq::empty(),
        payout: Seq::empty(),
        metadata: Seq::empty(),
        ucmetadata: Seq::empty(),
    }
}

/// The genesis bead: the genesis identifier, no parents, no content and no
/// difficulty.
pub open spec fn genesis_bead() -> BeadView {
    BeadView {
        hash: genesis_hash(),
        parents: Seq::empty(),
        payload: empty_payload(),
        difficulty: 0,
    }
}

impl View for Payload {
    type V = PayloadView;

    open spec fn view(&self) -> PayloadView {
        PayloadView {
            blockheader: self.blockheader@,
            coinbase: self.coinbase@,
            payout: self.payout@,
            metadata: self.metadata@,
            ucmetadata: self.ucmetadata@,
        }
    }
}

impl Payload {
    /// The payload without content.
    pub fn empty() -> (r: Payload)
        ensures
            r@ == empty_payload(),
    {
        Payload {
            blockheader: Vec::new(),
            coinbase: Vec::new(),
            payout: Vec::new(),
            metadata: Vec::new(),
            ucmetadata: Vec::new(),
        }
    }
}

impl Clone for Payload {
    /// A payload with the same content.
    fn clone(&self) -> (r: Payload)
        ensures
            r@ == self@,
    {
        Payload {
            blockheader: self.blockheader.clone(),
            coinbase: self.coinbase.clone(),
            payout: self.payout.clone(),
            metadata: self.metadata.clone(),
            ucmetadata: self.ucmetadata.clone(),
        }
    }
}

/// Whether no identifier stands twice in `v`.
fn all_distinct(v: &Vec<[u8; 32]>) -> (r: bool)
    ensures
        r == distinct(hashes_view(v@)),
{
    let ghost s = hashes_view(v@);
    let mut l: usize = 0;
    while l < v.len()
        invariant
            s == hashes_view(v@),
            l <= v.len(),
            forall|i: int, j: int| 0 <= i < j < l ==> s[i] != s[j],
        decreases v.len() - l,
    {
        let mut k: usize = 0;
        while k < l
            invariant
                s == hashes_view(v@),
                l < v.len(),
                k <= l,
                forall|i: int| 0 <= i < k ==> s[i] != s[l as int],
            decreases l - k,
        {
            if same(&v[k], &v[l]) {
                assert(s[k as int] == s[l as int]);
                return false;
            }
            k += 1;
        }
        l += 1;
    }
    true
}

/// A list with the same identifiers.
fn copy_hashes(v: &Vec<[u8; 32]>) -> (r: Vec<[u8; 32]>)
    ensures
        r@ == v@,
{
    let mut r: Vec<[u8; 32]> = Vec::new();
    let mut i: usize = 0;
    while i < v.len()
        invariant
            i <= v.len(),
            r.len() == i,
            forall|j: int| 0 <= j < i ==> r@[j] == v@[j],
        decreases v.len() - i,
    {
        r.push(v[i]);
        i += 1;
    }
    assert(r@ =~= v@);
    r
}

impl View for Bead {
    type V = BeadView;

    closed spec fn view(&self) -> BeadView {
        BeadView {
            hash: self.hash@,
            parents: hashes_view(self.parents@),
            payload: self.payload@,
            difficulty: self.difficulty,
        }
    }
}

impl Bead {
    /// What holds of every bead that there is.
    #[verifier::type_invariant]
    pub open spec fn inv(&self) -> bool {
        valid_bead(self@)
    }

    /// The bead with these parts, where they make a bead: `None` where a
    /// parent is named twice, or where no parent is named and `hash` is not
    /// the genesis identifier.
    pub fn new(hash: [u8; 32], parents: Vec<[u8; 32]>, payload: Payload, difficulty: u64) -> (r:
        Option<Bead>)
        ensures
            r is Some <==> valid_bead(
                BeadView {
                    hash: hash@,
                    parents: hashes_view(parents@),
                    payload: payload@,
                    difficulty,
                },
            ),
            r is Some ==> r.unwrap()@ == (BeadView {
                hash: hash@,
                parents: hashes_view(parents@),
                payload: payload@,
                difficulty,
            }),
    {
        if parents.len() == 0 && !is_genesis(&hash) {
            return None;
        }
        if !all_distinct(&parents) {
            return None;
        }
        Some(Bead { hash, parents, payload, difficulty })
    }

    /// The genesis bead: the genesis identifier, no parents, no content and
    /// no difficulty.
    pub fn genesis() -> (r: Bead)
        ensures
            r@ == genesis_bead(),
    {
        let parents: Vec<[u8; 32]> = Vec::new();
        assert(hashes_view(parents@) =~= Seq::empty());
        Bead { hash: genesis_id(), parents, payload: Payload::empty(), difficulty: 0 }
    }

    /// The bead's identifier.
    pub fn hash(&self) -> (r: [u8; 32])
        ensures
            r@ == self@.hash,
    {
        self.hash
    }

    /// The identifiers of the bead's parents, in the order given.
    pub fn parents(&self) -> (r: &Vec<[u8; 32]>)
        ensures
            hashes_view(r@) == self@.parents,
    {
        &self.parents
    }

    /// What the bead carries.
    pub fn payload(&self) -> (r: &Payload)
        ensures
            r@ == self@.payload,
    {
        &self.payload
    }

    /// The work that the bead stands for.
    pub fn difficulty(&self) -> (r: u64)
        ensures
            r == self@.difficulty,
    {
        self.difficulty
    }
}

impl Clone for Bead {
    /// A bead with the same parts.
    fn clone(&self) -> (r: Bead)
        ensures
            r@ == self@,
    {
        proof {
            use_type_invariant(self);
        }
        Bead {
            hash: self.hash,
            parents: copy_hashes(&self.parents),
            payload: self.payload.clone(),
            difficulty: self.difficulty,
        }
    }
}

} // verus!
