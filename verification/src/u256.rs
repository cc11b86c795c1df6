//! An unsigned 256-bit integer, kept as 32 big-endian bytes.
use crate::numeric::{
    bytes_eq, le_bytes, lemma_nat_of_bound, lemma_nat_of_injective, nat_of, pow256,
};
use vstd::prelude::*;

verus! {

/// An unsigned 256-bit integer. Difficulty targets and hash values are
/// numbers of this type; lower targets are harder to match.
pub struct U256 {
    bytes: Vec<u8>,
}

impl View for U256 {
    type V = Seq<u8>;

    closed spec fn view(&self) -> Seq<u8> {
        self.bytes@
    }
}

/// The byte pattern of the easiest allowed difficulty target: 16 zero bits
/// followed by ones (high limb 0x0000_FFFF_FFFF_FFFF, all lower bits set).
pub open spec fn min_target_spec() -> Seq<u8> {
    Seq::new(32, |i: int| if i < 2 { 0u8 } else { 0xFFu8 })
}

impl U256 {
    /// A value is well formed when it consists of exactly 32 bytes.
    pub open spec fn wf(&self) -> bool {
        self@.len() == 32
    }

    /// The number these bytes denote.
    pub open spec fn value(&self) -> nat {
        nat_of(self@)
    }

    /// The number zero.
    pub fn zero() -> (r: U256)
        ensures
            r.wf(),
            r.value() == 0,
            r@ == Seq::new(32, |i: int| 0u8),
    {
        let mut bytes: Vec<u8> = Vec::new();
        let mut i: usize = 0;
        while i < 32
            invariant
                i <= 32,
                bytes@ =~= Seq::new(i as nat, |j: int| 0u8),
            decreases 32 - i,
        {
            bytes.push(0u8);
            proof {
                assert(bytes@ =~= Seq::new((i + 1) as nat, |j: int| 0u8));
            }
            i = i + 1;
        }
        proof {
            lemma_zero_bytes_value(bytes@);
        }
        U256 { bytes }
    }

    /// Wraps 32 big-endian bytes.
    pub fn from_be_bytes(bytes: Vec<u8>) -> (r: U256)
        requires
            bytes@.len() == 32,
        ensures
            r.wf(),
            r@ == bytes@,
    {
        U256 { bytes }
    }

    /// The 32 big-endian bytes.
    pub fn as_be_bytes(&self) -> (r: &Vec<u8>)
        ensures
            r@ == self@,
    {
        &self.bytes
    }

    /// Numeric comparison.
    pub fn le(&self, other: &U256) -> (r: bool)
        requires
            self.wf(),
            other.wf(),
        ensures
            r == (self.value() <= other.value()),
    {
        le_bytes(&self.bytes, &other.bytes)
    }

    /// Equality of values.
    pub fn equals(&self, other: &U256) -> (r: bool)
        ensures
            r == (self@ == other@),
    {
        bytes_eq(&self.bytes, &other.bytes)
    }

    /// The easiest allowed difficulty target.
    pub fn min_target() -> (r: U256)
        ensures
            r.wf(),
            r@ == min_target_spec(),
    {
        let mut bytes: Vec<u8> = Vec::new();
        let mut i: usize = 0;
        while i < 32
            invariant
                i <= 32,
                bytes@ =~= min_target_spec().take(i as int),
            decreases 32 - i,
        {
            if i < 2 {
                bytes.push(0u8);
            } else {
                bytes.push(0xFFu8);
            }
            proof {
                assert(bytes@ =~= min_target_spec().take(i + 1));
            }
            i = i + 1;
        }
        proof {
            assert(min_target_spec().take(32) =~= min_target_spec());
        }
        U256 { bytes }
    }
}

impl Clone for U256 {
    fn clone(&self) -> (r: Self)
        ensures
            r@ == self@,
    {
        U256 { bytes: crate::numeric::copy_bytes(&self.bytes) }
    }
}

impl PartialEq for U256 {
    fn eq(&self, other: &Self) -> (r: bool) {
        bytes_eq(&self.bytes, &other.bytes)
    }
}

impl vstd::std_specs::cmp::PartialEqSpecImpl for U256 {
    open spec fn obeys_eq_spec() -> bool {
        true
    }

    open spec fn eq_spec(&self, other: &Self) -> bool {
        self@ == other@
    }
}

impl Eq for U256 {

}

/// A string of zero bytes denotes zero.
pub proof fn lemma_zero_bytes_value(s: Seq<u8>)
    requires
        forall|i: int| 0 <= i < s.len() ==> s[i] == 0u8,
    ensures
        nat_of(s) == 0,
    decreases s.len(),
{
    if s.len() > 0 {
        lemma_zero_bytes_value(s.drop_last());
    }
}

/// Two well-formed values with the same number are the same bytes.
pub proof fn lemma_u256_value_injective(a: Seq<u8>, b: Seq<u8>)
    requires
        a.len() == b.len(),
        nat_of(a) == nat_of(b),
    ensures
        a == b,
{
    lemma_nat_of_injective(a, b);
}

/// A 32-byte value is below 256^32.
pub proof fn lemma_u256_bound(s: Seq<u8>)
    ensures
        nat_of(s) < pow256(s.len()),
{
    lemma_nat_of_bound(s);
}

} // verus!
