//! SHA-256 hashing of canonically encoded values.
use crate::numeric::nat_of;
use crate::u256::U256;
use vstd::prelude::*;

verus! {

/// The 32 SHA-256 digest bytes of a byte string. The digest is a function
/// of the input alone; its value is not further specified here.
pub uninterp spec fn sha256_of(data: Seq<u8>) -> Seq<u8>;

/// Relies on sha256::digest for the SHA-256 digest (as a hex string) and on
/// hex::decode to turn that string back into the 32 raw digest bytes; the
/// digest is a function of the input bytes alone.
#[verifier::external_body]
fn sha256_digest(data: &Vec<u8>) -> (r: Vec<u8>)
    ensures
        r@ == sha256_of(data@),
        r@.len() == 32,
{
    hex::decode(sha256::digest(data)).expect("digest is valid hex")
}

/// The number denoted by the SHA-256 digest of a byte string.
pub open spec fn hash_value_of(data: Seq<u8>) -> nat {
    nat_of(sha256_of(data))
}

/// A SHA-256 commitment, read as a 256-bit number for target comparison.
pub struct Hash {
    value: U256,
}

impl View for Hash {
    type V = Seq<u8>;

    closed spec fn view(&self) -> Seq<u8> {
        self.value@
    }
}

impl Hash {
    /// A hash is well formed when it consists of exactly 32 bytes.
    pub open spec fn wf(&self) -> bool {
        self@.len() == 32
    }

    /// The number these bytes denote.
    pub open spec fn value(&self) -> nat {
        nat_of(self@)
    }

    /// The SHA-256 hash of a byte string.
    pub fn of_bytes(data: &Vec<u8>) -> (r: Hash)
        ensures
            r.wf(),
            r@ == sha256_of(data@),
            r.value() == hash_value_of(data@),
    {
        let digest = sha256_digest(data);
        Hash { value: U256::from_be_bytes(digest) }
    }

    /// Wraps 32 big-endian bytes read back from an encoding.
    pub fn from_be_bytes(bytes: Vec<u8>) -> (r: Hash)
        requires
            bytes@.len() == 32,
        ensures
            r.wf(),
            r@ == bytes@,
    {
        Hash { value: U256::from_be_bytes(bytes) }
    }

    /// The all-zero hash, the previous-block link of a genesis block.
    pub fn zero() -> (r: Hash)
        ensures
            r.wf(),
            r.value() == 0,
            r@ == Seq::new(32, |i: int| 0u8),
    {
        Hash { value: U256::zero() }
    }

    /// True when this hash, read as a number, does not exceed the target.
    pub fn matches_target(&self, target: &U256) -> (r: bool)
        requires
            self.wf(),
            target.wf(),
        ensures
            r == (self.value() <= target.value()),
    {
        self.value.le(target)
    }

    /// The hash as little-endian bytes, the form that is signed.
    pub fn as_bytes(&self) -> (r: Vec<u8>)
        ensures
            r@ == self@.reverse(),
            r@.len() == self@.len(),
    {
        let be = self.value.as_be_bytes();
        let n = be.len();
        let mut out: Vec<u8> = Vec::new();
        let mut i: usize = n;
        while i > 0
            invariant
                i <= n,
                n == be@.len(),
                be@ == self@,
                out@ == self@.reverse().take(n - i),
            decreases i,
        {
            i = i - 1;
            out.push(be[i]);
            proof {
                assert(out@ =~= self@.reverse().take(n - i));
            }
        }
        proof {
            assert(self@.reverse().take(self@.len() as int) =~= self@.reverse());
        }
        out
    }

    /// The 32 big-endian bytes.
    pub fn as_be_bytes(&self) -> (r: &Vec<u8>)
        ensures
            r@ == self@,
    {
        self.value.as_be_bytes()
    }

    /// Equality of hash values.
    pub fn equals(&self, other: &Hash) -> (r: bool)
        ensures
            r == (self@ == other@),
    {
        self.value.equals(&other.value)
    }
}

impl Clone for Hash {
    fn clone(&self) -> (r: Self)
        ensures
            r@ == self@,
    {
        Hash { value: self.value.clone() }
    }
}

impl PartialEq for Hash {
    fn eq(&self, other: &Self) -> (r: bool) {
        self.value.equals(&other.value)
    }
}

impl vstd::std_specs::cmp::PartialEqSpecImpl for Hash {
    open spec fn obeys_eq_spec() -> bool {
        true
    }

    open spec fn eq_spec(&self, other: &Self) -> bool {
        self@ == other@
    }
}

} // verus!
