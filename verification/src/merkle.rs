//! Merkle commitment over a block's transactions: leaves are transaction
//! hashes, an odd element pairs with itself, two children hash as the
//! canonical encoding of a two-element hash list, not as a bare
//! concatenation.
use crate::hash::sha256_of;
use crate::types::transaction::{tx_hash, Transaction, TxV};
use vstd::prelude::*;

verus! {

/// The parent of two child hashes: the hash of the pair encoded as a
/// two-element list in the canonical format.
pub open spec fn pair_hash(a: Seq<u8>, b: Seq<u8>) -> Seq<u8> {
    sha256_of(crate::codec::enc_u64(2) + (a + b))
}

/// One level of pairing, left to right; an odd last element pairs with
/// itself.
pub open spec fn pair_up(l: Seq<Seq<u8>>) -> Seq<Seq<u8>> {
    Seq::new(
        ((l.len() + 1) / 2) as nat,
        |i: int|
            if 2 * i + 1 < l.len() {
                pair_hash(l[2 * i], l[2 * i + 1])
            } else {
                pair_hash(l[2 * i], l[2 * i])
            },
    )
}

/// The root of a non-empty layer of hashes.
pub open spec fn merkle_of(l: Seq<Seq<u8>>) -> Seq<u8>
    decreases l.len(),
{
    if l.len() == 0 {
        Seq::empty()
    } else if l.len() == 1 {
        l[0]
    } else {
        merkle_of(pair_up(l))
    }
}

/// The Merkle root of a transaction list.
pub open spec fn merkle_root_of(txs: Seq<TxV>) -> Seq<u8> {
    merkle_of(txs.map_values(|t: TxV| tx_hash(t)))
}

/// The root hash of the Merkle tree over a block's transactions.
pub struct MerkleRoot {
    root: crate::hash::Hash,
}

impl View for MerkleRoot {
    type V = Seq<u8>;

    closed spec fn view(&self) -> Seq<u8> {
        self.root@
    }
}

impl MerkleRoot {
    pub open spec fn wf(&self) -> bool {
        self@.len() == 32
    }

    /// Wraps 32 hash bytes read back from an encoding.
    pub fn from_hash(h: crate::hash::Hash) -> (r: MerkleRoot)
        ensures
            r@ == h@,
    {
        MerkleRoot { root: h }
    }

    /// The root as a hash value.
    pub fn as_hash(&self) -> (r: &crate::hash::Hash)
        ensures
            r@ == self@,
    {
        &self.root
    }

    /// Equality of root bytes.
    pub fn equals(&self, other: &MerkleRoot) -> (r: bool)
        ensures
            r == (self@ == other@),
    {
        self.root.equals(&other.root)
    }

    /// Computes the Merkle root of a non-empty transaction list. Callers
    /// must never pass an empty list; block validation rejects empty
    /// blocks separately.
    pub fn calculate(transactions: &Vec<Transaction>) -> (r: MerkleRoot)
        requires
            transactions@.len() > 0,
        ensures
            r@ == merkle_root_of(transactions@.map_values(|t: Transaction| t@)),
            r.wf(),
    {
        let ghost txs = transactions@.map_values(|t: Transaction| t@);
        let mut layer: Vec<crate::hash::Hash> = Vec::new();
        let mut i: usize = 0;
        while i < transactions.len()
            invariant
                i <= transactions@.len(),
                txs == transactions@.map_values(|t: Transaction| t@),
                layer@.len() == i,
                forall|j: int|
                    0 <= j < i ==> (#[trigger] layer@[j])@ == tx_hash(txs[j]) && layer@[j]@.len()
                        == 32,
            decreases transactions@.len() - i,
        {
            layer.push(transactions[i].hash());
            i = i + 1;
        }
        proof {
            assert(layer@.map_values(|h: crate::hash::Hash| h@) =~= txs.map_values(
                |t: TxV| tx_hash(t),
            ));
        }
        while layer.len() > 1
            invariant
                layer@.len() >= 1,
                forall|j: int| 0 <= j < layer@.len() ==> (#[trigger] layer@[j])@.len() == 32,
                merkle_of(layer@.map_values(|h: crate::hash::Hash| h@)) == merkle_root_of(txs),
            decreases layer@.len(),
        {
            let ghost cur = layer@.map_values(|h: crate::hash::Hash| h@);
            let mut next: Vec<crate::hash::Hash> = Vec::new();
            let n = layer.len();
            let mut j: usize = 0;
            while j < n - j
                invariant
                    n == layer@.len(),
                    1 < n,
                    cur == layer@.map_values(|h: crate::hash::Hash| h@),
                    forall|k: int| 0 <= k < layer@.len() ==> (#[trigger] layer@[k])@.len() == 32,
                    j <= (n + 1) / 2,
                    j <= n,
                    next@.len() == j,
                    forall|k: int|
                        0 <= k < j ==> (#[trigger] next@[k])@ == pair_up(cur)[k] && next@[k]@.len()
                            == 32,
                decreases n - j,
            {
                let left = &layer[2 * j];
                let mut bytes: Vec<u8> = Vec::new();
                crate::codec::encode_u64(&mut bytes, 2);
                crate::types::block::push_all(&mut bytes, left.as_be_bytes());
                let right_index: usize = if 2 * j + 1 < n {
                    2 * j + 1
                } else {
                    2 * j
                };
                let right = &layer[right_index];
                let rb = right.as_be_bytes();
                crate::types::block::push_all(&mut bytes, rb);
                proof {
                    assert(bytes@ =~= crate::codec::enc_u64(2) + (left@ + rb@));
                }
                next.push(crate::hash::Hash::of_bytes(&bytes));
                proof {
                    assert(next@[j as int]@ == pair_hash(cur[2 * j], cur[right_index as int]));
                }
                j = j + 1;
            }
            proof {
                assert(next@.map_values(|h: crate::hash::Hash| h@) =~= pair_up(cur));
                assert(merkle_of(cur) == merkle_of(pair_up(cur)));
            }
            layer = next;
        }
        proof {
            let cur = layer@.map_values(|h: crate::hash::Hash| h@);
            assert(merkle_of(cur) == cur[0]);
        }
        let root = layer[0].clone();
        MerkleRoot { root }
    }
}

impl Clone for MerkleRoot {
    fn clone(&self) -> (r: Self)
        ensures
            r@ == self@,
    {
        MerkleRoot { root: self.root.clone() }
    }
}

impl PartialEq for MerkleRoot {
    fn eq(&self, other: &Self) -> (r: bool) {
        self.root.equals(&other.root)
    }
}

impl vstd::std_specs::cmp::PartialEqSpecImpl for MerkleRoot {
    open spec fn obeys_eq_spec() -> bool {
        true
    }

    open spec fn eq_spec(&self, other: &Self) -> bool {
        self@ == other@
    }
}

} // verus!
