//! Bead identifiers: 32 bytes, compared byte by byte.

use vstd::prelude::*;

verus! {

/// How one identifier stands to another in the order of their bytes.
#[derive(Clone, Copy, Debug, PartialEq, Eq, Structural)]
pub enum HashOrder {
    Before,
    Same,
    After,
}

/// The identifier of the genesis bead: 32 zero bytes.
pub open spec fn genesis_hash() -> Seq<u8> {
    Seq::new(32, |i: int| 0u8)
}

/// `a` and `b` are alike in every byte before byte `i`, which both have.
pub open spec fn agree_before(a: Seq<u8>, b: Seq<u8>, i: int) -> bool {
    &&& 0 <= i < a.len()
    &&& i < b.len()
    &&& forall|j: int| 0 <= j < i ==> a[j] == b[j]
}

/// `a` comes before `b`: at the first byte in which they differ, that of `a`
/// is the smaller.
pub open spec fn precedes(a: Seq<u8>, b: Seq<u8>) -> bool {
    exists|i: int| #[trigger] agree_before(a, b, i) && a[i] < b[i]
}

/// The items of `s` ascend strictly in the order of their bytes.
pub open spec fn sorted(s: Seq<Seq<u8>>) -> bool {
    forall|j: int, l: int| 0 <= j < l < s.len() ==> precedes(s[j], s[l])
}

/// No identifier comes before itself.
pub proof fn lemma_precedes_irreflexive(a: Seq<u8>)
    ensures
        !precedes(a, a),
{
}

/// What comes before an identifier comes before all that it comes before.
pub proof fn lemma_precedes_transitive(a: Seq<u8>, b: Seq<u8>, c: Seq<u8>)
    requires
        precedes(a, b),
        precedes(b, c),
    ensures
        precedes(a, c),
{
    let i = choose|i: int| #[trigger] agree_before(a, b, i) && a[i] < b[i];
    let j = choose|j: int| #[trigger] agree_before(b, c, j) && b[j] < c[j];
    let m = if i <= j {
        i
    } else {
        j
    };
    assert(agree_before(a, c, m));
    assert(a[m] < c[m]);
}

/// Of two identifiers at most one comes before the other, and then they
/// differ.
pub proof fn lemma_precedes_asymmetric(a: Seq<u8>, b: Seq<u8>)
    requires
        precedes(a, b),
    ensures
        !precedes(b, a),
        a != b,
{
    if precedes(b, a) {
        lemma_precedes_transitive(a, b, a);
    }
}

/// Two sorted sequences with the same items are one sequence.
pub proof fn lemma_sorted_unique(s: Seq<Seq<u8>>, t: Seq<Seq<u8>>)
    requires
        sorted(s),
        sorted(t),
        forall|h: Seq<u8>| s.contains(h) == t.contains(h),
    ensures
        s == t,
    decreases s.len(),
{
    if s.len() == 0 {
        if t.len() > 0 {
            assert(t.contains(t[0]));
            assert(s.contains(t[0]));
        }
        assert(s =~= t);
    } else {
        let m = s.last();
        assert(s.contains(m));
        assert(t.contains(m));
        let j = choose|j: int| 0 <= j < t.len() && t[j] == m;
        assert(t.contains(t.last()));
        assert(s.contains(t.last()));
        let i = choose|i: int| 0 <= i < s.len() && s[i] == t.last();
        if t.last() != m {
            assert(precedes(s[i], s[s.len() - 1]));
            assert(precedes(t[j], t[t.len() - 1]));
            lemma_precedes_asymmetric(m, t.last());
        }
        let s0 = s.drop_last();
        let t0 = t.drop_last();
        assert forall|h: Seq<u8>| s0.contains(h) == t0.contains(h) by {
            lemma_precedes_irreflexive(h);
            if s0.contains(h) {
                let i0 = choose|i0: int| 0 <= i0 < s0.len() && s0[i0] == h;
                assert(s[i0] == h);
                assert(precedes(s[i0], s[s.len() - 1]));
                assert(s.contains(h));
                let j0 = choose|j0: int| 0 <= j0 < t.len() && t[j0] == h;
                assert(t0[j0] == h);
            }
            if t0.contains(h) {
                let j0 = choose|j0: int| 0 <= j0 < t0.len() && t0[j0] == h;
                assert(t[j0] == h);
                assert(precedes(t[j0], t[t.len() - 1]));
                assert(t.contains(h));
                let i0 = choose|i0: int| 0 <= i0 < s.len() && s[i0] == h;
                assert(s0[i0] == h);
            }
        }
        assert(sorted(s0)) by {
            assert forall|a: int, b: int| 0 <= a < b < s0.len() implies precedes(s0[a], s0[b]) by {
                assert(precedes(s[a], s[b]));
            }
        }
        assert(sorted(t0)) by {
            assert forall|a: int, b: int| 0 <= a < b < t0.len() implies precedes(t0[a], t0[b]) by {
                assert(precedes(t[a], t[b]));
            }
        }
        lemma_sorted_unique(s0, t0);
        assert(s =~= s0.push(m));
        assert(t =~= t0.push(m));
    }
}

/// The genesis identifier.
pub fn genesis_id() -> (r: [u8; 32])
    ensures
        r@ == genesis_hash(),
{
    let r = [0u8;32];
    assert(r@ =~= genesis_hash());
    r
}

/// Whether `h` is the genesis identifier.
pub fn is_genesis(h: &[u8; 32]) -> (r: bool)
    ensures
        r == (h@ == genesis_hash()),
{
    let mut i: usize = 0;
    while i < 32
        invariant
            i <= 32,
            forall|j: int| 0 <= j < i ==> h@[j] == 0,
        decreases 32 - i,
    {
        if h[i] != 0 {
            assert(genesis_hash()[i as int] == 0);
            return false;
        }
        i += 1;
    }
    assert(h@ =~= genesis_hash());
    true
}

/// Whether the two identifiers are the same.
pub fn same(a: &[u8; 32], b: &[u8; 32]) -> (r: bool)
    ensures
        r == (a@ == b@),
{
    let mut i: usize = 0;
    while i < 32
        invariant
            i <= 32,
            forall|j: int| 0 <= j < i ==> a@[j] == b@[j],
        decreases 32 - i,
    {
        if a[i] != b[i] {
            return false;
        }
        i += 1;
    }
    assert(a@ =~= b@);
    true
}

/// Compares two identifiers in the order of their bytes.
pub fn compare(a: &[u8; 32], b: &[u8; 32]) -> (r: HashOrder)
    ensures
        r is Before <==> precedes(a@, b@),
        r is Same <==> a@ == b@,
        r is After <==> precedes(b@, a@),
{
    let mut i: usize = 0;
    while i < 32
        invariant
            i <= 32,
            forall|j: int| 0 <= j < i ==> a@[j] == b@[j],
        decreases 32 - i,
    {
        if a[i] < b[i] {
            proof {
                assert(agree_before(a@, b@, i as int));
                lemma_precedes_asymmetric(a@, b@);
            }
            return HashOrder::Before;
        }
        if a[i] > b[i] {
            proof {
                assert(agree_before(b@, a@, i as int));
                lemma_precedes_asymmetric(b@, a@);
            }
            return HashOrder::After;
        }
        i += 1;
    }
    proof {
        assert(a@ =~= b@);
        lemma_precedes_irreflexive(a@);
    }
    HashOrder::Same
}

} // verus!
