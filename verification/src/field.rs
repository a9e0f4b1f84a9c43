//! The BN254 scalar field.
//!
//! A [`Scalar`] holds the canonical 32-byte little-endian encoding of a
//! residue modulo [`fr_order`](crate::fr_order); its view is that residue.
//! The arithmetic itself is delegated to `ark_ff`, behind wrappers whose
//! contracts state the exact effect on residues.

use vstd::prelude::*;
use crate::fr_order;
use ark_bn254::Fr;
use ark_serialize::{CanonicalSerialize, CanonicalDeserialize};

verus! {

/// The integer value encoded by a byte string read little-endian.
pub open spec fn le_val(b: Seq<u8>) -> int
    decreases b.len(),
{
    if b.len() == 0 {
        0
    } else {
        b[0] + 256 * le_val(b.drop_first())
    }
}

pub proof fn lemma_le_val_nonneg(b: Seq<u8>)
    ensures
        0 <= le_val(b),
    decreases b.len(),
{
    if b.len() > 0 {
        lemma_le_val_nonneg(b.drop_first());
    }
}

/// Two byte strings of equal length with the same little-endian value
/// are equal byte for byte.
pub proof fn lemma_le_val_injective(a: Seq<u8>, b: Seq<u8>)
    requires
        a.len() == b.len(),
        le_val(a) == le_val(b),
    ensures
        a =~= b,
    decreases a.len(),
{
    if a.len() > 0 {
        let ta = a.drop_first();
        let tb = b.drop_first();
        assert(a[0] + 256 * le_val(ta) == b[0] + 256 * le_val(tb));
        lemma_le_val_nonneg(ta);
        lemma_le_val_nonneg(tb);
        if le_val(ta) == le_val(tb) {
            assert(a[0] == b[0]);
            lemma_le_val_injective(ta, tb);
            assert forall|i: int| 0 <= i < a.len() implies a[i] == b[i] by {
                if i > 0 {
                    assert(ta[i - 1] == tb[i - 1]);
                }
            }
        } else {
            assert(a[0] - b[0] == 256 * (le_val(tb) - le_val(ta)));
            assert(false);
        }
    }
}

/// A scalar-field element: the canonical little-endian encoding of a
/// residue in `[0, fr_order())`.
#[derive(Debug)]
pub struct Scalar {
    pub(crate) bytes: Vec<u8>,
}

impl View for Scalar {
    type V = int;

    closed spec fn view(&self) -> int {
        le_val(self.bytes@)
    }
}

impl Scalar {
    #[verifier::type_invariant]
    pub(crate) open spec fn type_inv(self) -> bool {
        self.bytes@.len() == 32 && 0 <= self@ < fr_order()
    }

    /// Relies on `ark_ff::Fp::from` (the `From<u64>` impl) and
    /// `CanonicalSerialize`: embeds an integer into the field.
    #[verifier::external_body]
    pub fn from_u64(x: u64) -> (r: Scalar)
        ensures
            r@ == x as int,
    {
        let f = Fr::from(x);
        let mut bytes: Vec<u8> = Vec::new();
        f.serialize_uncompressed(&mut bytes).unwrap();
        Scalar { bytes }
    }

    /// Relies on `ark_ff::Fp`'s `Add` impl: addition of residues modulo
    /// the field order.
    #[verifier::external_body]
    pub fn add(&self, rhs: &Scalar) -> (r: Scalar)
        ensures
            r@ == (self@ + rhs@) % fr_order(),
    {
        let a = Fr::deserialize_uncompressed(&self.bytes[..]).unwrap();
        let b = Fr::deserialize_uncompressed(&rhs.bytes[..]).unwrap();
        let mut bytes: Vec<u8> = Vec::new();
        (a + b).serialize_uncompressed(&mut bytes).unwrap();
        Scalar { bytes }
    }

    /// Relies on `ark_ff::Fp`'s `Sub` impl: subtraction of residues
    /// modulo the field order.
    #[verifier::external_body]
    pub fn sub(&self, rhs: &Scalar) -> (r: Scalar)
        ensures
            r@ == (self@ - rhs@) % fr_order(),
    {
        let a = Fr::deserialize_uncompressed(&self.bytes[..]).unwrap();
        let b = Fr::deserialize_uncompressed(&rhs.bytes[..]).unwrap();
        let mut bytes: Vec<u8> = Vec::new();
        (a - b).serialize_uncompressed(&mut bytes).unwrap();
        Scalar { bytes }
    }

    /// Relies on `ark_ff::Fp`'s `Mul` impl: multiplication of residues
    /// modulo the field order.
    #[verifier::external_body]
    pub fn mul(&self, rhs: &Scalar) -> (r: Scalar)
        ensures
            r@ == (self@ * rhs@) % fr_order(),
    {
        let a = Fr::deserialize_uncompressed(&self.bytes[..]).unwrap();
        let b = Fr::deserialize_uncompressed(&rhs.bytes[..]).unwrap();
        let mut bytes: Vec<u8> = Vec::new();
        (a * b).serialize_uncompressed(&mut bytes).unwrap();
        Scalar { bytes }
    }

    /// Relies on `ark_ff::Field::inverse`: the multiplicative inverse of
    /// a non-zero element, and `None` exactly for zero.
    #[verifier::external_body]
    pub fn inverse(&self) -> (r: Option<Scalar>)
        ensures
            self@ == 0 <==> r is None,
            r matches Some(s) ==> (s@ * self@) % fr_order() == 1,
    {
        let a = Fr::deserialize_uncompressed(&self.bytes[..]).unwrap();
        match <Fr as ark_ff::Field>::inverse(&a) {
            Some(f) => {
                let mut bytes: Vec<u8> = Vec::new();
                f.serialize_uncompressed(&mut bytes).unwrap();
                Some(Scalar { bytes })
            },
            None => None,
        }
    }

    /// Relies on `ark_std::UniformRand` for `Fp`, driven by `rand`'s
    /// `OsRng`: a field element drawn from the operating system's
    /// entropy source. Nothing is known of the value drawn.
    #[verifier::external_body]
    pub fn sample() -> (r: Scalar)
        ensures
            0 <= r@ < fr_order(),
    {
        let mut rng = rand::rngs::OsRng;
        let f = <Fr as ark_std::UniformRand>::rand(&mut rng);
        let mut bytes: Vec<u8> = Vec::new();
        f.serialize_uncompressed(&mut bytes).unwrap();
        Scalar { bytes }
    }

    /// Residue equality, decided on the canonical encodings.
    pub fn equals(&self, rhs: &Scalar) -> (r: bool)
        ensures
            r == (self@ == rhs@),
    {
        proof {
            use_type_invariant(self);
            use_type_invariant(rhs);
        }
        let mut i: usize = 0;
        while i < 32
            invariant
                0 <= i <= 32,
                self.bytes@.len() == 32,
                rhs.bytes@.len() == 32,
                forall|j: int| 0 <= j < i ==> self.bytes@[j] == rhs.bytes@[j],
            decreases 32 - i,
        {
            if self.bytes[i] != rhs.bytes[i] {
                proof {
                    if self@ == rhs@ {
                        lemma_le_val_injective(self.bytes@, rhs.bytes@);
                    }
                }
                return false;
            }
            i += 1;
        }
        proof {
            assert(self.bytes@ =~= rhs.bytes@);
        }
        true
    }
}

impl Clone for Scalar {
    /// The clone stands for the same residue as the original.
    fn clone(&self) -> (r: Self)
        ensures
            r@ == self@,
    {
        proof {
            use_type_invariant(self);
        }
        let bytes = clone_byte_vec(&self.bytes);
        Scalar { bytes }
    }
}

/// Byte-for-byte copy of a byte vector.
pub(crate) fn clone_byte_vec(v: &Vec<u8>) -> (r: Vec<u8>)
    ensures
        r@ =~= v@,
{
    let mut r: Vec<u8> = Vec::new();
    let mut i: usize = 0;
    while i < v.len()
        invariant
            0 <= i <= v.len(),
            r@ =~= v@.subrange(0, i as int),
        decreases v.len() - i,
    {
        r.push(v[i]);
        i += 1;
    }
    r
}

} // verus!
