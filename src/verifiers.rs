//! Fixed-list stand-ins for the proof and root checks of the registry.
use crate::hash_set::same_item;
use vstd::prelude::*;

verus! {

/// 32 copies of one byte.
pub open spec fn filled(b: u8) -> Seq<u8> {
    Seq::new(32, |i: int| b)
}

/// Accepts a proof whose first 32 bytes are on a fixed list.
pub struct Groth16Verifier {
    accepted_proofs: Vec<[u8; 32]>,
}

impl Groth16Verifier {
    /// The accepted prefixes.
    pub closed spec fn accepted(&self) -> Seq<Seq<u8>> {
        self.accepted_proofs@.map_values(|a: [u8; 32]| a@)
    }

    /// A verifier accepting the prefixes of all ones, all twos and all threes.
    pub fn new() -> (r: Groth16Verifier)
        ensures
            r.accepted() == seq![filled(1), filled(2), filled(3)],
    {
        let a = [1u8; 32];
        let b = [2u8; 32];
        let c = [3u8; 32];
        let v = Groth16Verifier { accepted_proofs: vec![a, b, c] };
        assert(a@ =~= filled(1));
        assert(b@ =~= filled(2));
        assert(c@ =~= filled(3));
        assert(v.accepted() =~= seq![filled(1), filled(2), filled(3)]);
        v
    }

    /// Whether the first 32 bytes of the proof are accepted. The proof must
    /// hold at least 32 bytes.
    pub fn verify(&self, proof: &[u8]) -> (r: bool)
        requires
            proof@.len() >= 32,
        ensures
            r == self.accepted().contains(proof@.subrange(0, 32)),
    {
        let mut head = [0u8; 32];
        let mut i: usize = 0;
        while i < 32
            invariant
                i <= 32,
                proof@.len() >= 32,
                forall|k: int| 0 <= k < i ==> head@[k] == proof@[k],
            decreases 32 - i,
        {
            head[i] = proof[i];
            i = i + 1;
        }
        assert(head@ =~= proof@.subrange(0, 32));
        let mut j: usize = 0;
        while j < self.accepted_proofs.len()
            invariant
                j <= self.accepted_proofs@.len(),
                head@ == proof@.subrange(0, 32),
                forall|k: int| 0 <= k < j ==> self.accepted_proofs@[k] != head,
            decreases self.accepted_proofs@.len() - j,
        {
            if same_item(&self.accepted_proofs[j], &head) {
                assert(self.accepted()[j as int] == head@);
                return true;
            }
            j = j + 1;
        }
        proof {
            if self.accepted().contains(head@) {
                let k = choose|k: int| 0 <= k < self.accepted().len() && self.accepted()[k] == head@;
                assert(self.accepted_proofs@[k]@ == head@);
                assert(self.accepted_proofs@[k] =~= head);
            }
        }
        false
    }
}

/// Accepts a root on a fixed list.
pub struct MerkleTreeVerifier {
    valid_roots: Vec<[u8; 32]>,
}

impl MerkleTreeVerifier {
    /// The accepted roots.
    pub closed spec fn valid(&self) -> Seq<Seq<u8>> {
        self.valid_roots@.map_values(|a: [u8; 32]| a@)
    }

    /// A verifier accepting the roots of all tens, all twenties and all
    /// thirties.
    pub fn new() -> (r: MerkleTreeVerifier)
        ensures
            r.valid() == seq![filled(10), filled(20), filled(30)],
    {
        let a = [10u8; 32];
        let b = [20u8; 32];
        let c = [30u8; 32];
        let v = MerkleTreeVerifier { valid_roots: vec![a, b, c] };
        assert(a@ =~= filled(10));
        assert(b@ =~= filled(20));
        assert(c@ =~= filled(30));
        assert(v.valid() =~= seq![filled(10), filled(20), filled(30)]);
        v
    }

    /// Whether the root is accepted.
    pub fn verify(&self, root: &[u8; 32]) -> (r: bool)
        ensures
            r == self.valid().contains(root@),
    {
        let mut j: usize = 0;
        while j < self.valid_roots.len()
            invariant
                j <= self.valid_roots@.len(),
                forall|k: int| 0 <= k < j ==> self.valid_roots@[k] != *root,
            decreases self.valid_roots@.len() - j,
        {
            if same_item(&self.valid_roots[j], root) {
                assert(self.valid()[j as int] == root@);
                return true;
            }
            j = j + 1;
        }
        proof {
            if self.valid().contains(root@) {
                let k = choose|k: int| 0 <= k < self.valid().len() && self.valid()[k] == root@;
                assert(self.valid_roots@[k]@ == root@);
                assert(self.valid_roots@[k] =~= *root);
            }
        }
        false
    }
}

} // verus!
