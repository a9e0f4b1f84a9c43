//! The two pairing groups of BN254 and their target group.
//!
//! A group element is carried as the concatenation of the canonical
//! little-endian encodings of its three projective coordinates: 96
//! bytes for G1 (base-field coordinates) and 192 bytes for G2
//! (quadratic-extension coordinates, real part first). The group
//! operations themselves are delegated to `ark_ec`; what each returns
//! is named by an uninterpreted function of the operand encodings,
//! which is sound because the operations are deterministic functions
//! of their inputs.

use vstd::prelude::*;
use vstd::arithmetic::power::pow;
use crate::fr_order;
use crate::field::{le_val, Scalar, clone_byte_vec};
use ark_bn254::{Bn254, Fq, Fq2, Fr, G1Projective, G2Projective};
use ark_ec::pairing::Pairing;
use ark_serialize::{CanonicalSerialize, CanonicalDeserialize};

verus! {

/// The order of the BN254 base field, in which G1 coordinates live.
pub open spec fn fq_order() -> int {
    0x30644E72E131A029B85045B68181585D97816A916871CA8D3C208C16D87CFD47int
}

/// The 32-byte little-endian encoding of an integer.
pub open spec fn fe_le(v: int) -> Seq<u8> {
    Seq::new(32, |i: int| ((v / pow(256, i as nat)) % 256) as u8)
}

/// Three canonical 32-byte base-field coordinate encodings.
pub open spec fn g1_coords_ok(x: Seq<u8>, y: Seq<u8>, z: Seq<u8>) -> bool {
    x.len() == 32 && y.len() == 32 && z.len() == 32 && le_val(x) < fq_order() && le_val(y)
        < fq_order() && le_val(z) < fq_order()
}

/// Three canonical 64-byte quadratic-extension coordinate encodings.
pub open spec fn g2_coords_ok(x: Seq<u8>, y: Seq<u8>, z: Seq<u8>) -> bool {
    x.len() == 64 && y.len() == 64 && z.len() == 64 && le_val(x.subrange(0, 32)) < fq_order()
        && le_val(x.subrange(32, 64)) < fq_order() && le_val(y.subrange(0, 32)) < fq_order()
        && le_val(y.subrange(32, 64)) < fq_order() && le_val(z.subrange(0, 32)) < fq_order()
        && le_val(z.subrange(32, 64)) < fq_order()
}

/// A byte window of a point encoding holds a canonical coordinate.
pub open spec fn coord_ok(b: Seq<u8>, k: int) -> bool {
    le_val(b.subrange(32 * k, 32 * k + 32)) < fq_order()
}

/// A well-formed G1 encoding: three canonical base-field coordinates.
pub open spec fn g1_wf(b: Seq<u8>) -> bool {
    b.len() == 96 && coord_ok(b, 0) && coord_ok(b, 1) && coord_ok(b, 2)
}

/// A well-formed G2 encoding: three canonical quadratic-extension
/// coordinates of two base-field components each.
pub open spec fn g2_wf(b: Seq<u8>) -> bool {
    b.len() == 192 && coord_ok(b, 0) && coord_ok(b, 1) && coord_ok(b, 2) && coord_ok(b, 3)
        && coord_ok(b, 4) && coord_ok(b, 5)
}

/// The encoding of the sum of the two G1 points the operands encode.
pub uninterp spec fn g1_add_of(a: Seq<u8>, b: Seq<u8>) -> Seq<u8>;

/// The encoding of the G1 point scaled by the residue `k`.
pub uninterp spec fn g1_smul_of(p: Seq<u8>, k: int) -> Seq<u8>;

/// The encoding of the sum of the two G2 points the operands encode.
pub uninterp spec fn g2_add_of(a: Seq<u8>, b: Seq<u8>) -> Seq<u8>;

/// The encoding of the G2 point scaled by the residue `k`.
pub uninterp spec fn g2_smul_of(p: Seq<u8>, k: int) -> Seq<u8>;

/// The encoding of the pairing of the two points the operands encode.
pub uninterp spec fn pairing_of(a: Seq<u8>, b: Seq<u8>) -> Seq<u8>;

/// The encoding of the product, in the target group, of the two
/// elements the operands encode.
pub uninterp spec fn gt_add_of(a: Seq<u8>, b: Seq<u8>) -> Seq<u8>;

/// The encoding of the fixed G1 generator `(1, 2, 1)`.
pub open spec fn g1_generator_enc() -> Seq<u8> {
    fe_le(1) + fe_le(2) + fe_le(1)
}

/// The encoding of the fixed G2 generator, whose affine coordinates are
/// the four published base-field constants, with projective `z = 1`.
pub open spec fn g2_generator_enc() -> Seq<u8> {
    fe_le(10857046999023057135944570762232829481370756359578518086990519993285655852781int)
        + fe_le(11559732032986387107991004021392285783925812861821192530917403151452391805634int)
        + fe_le(8495653923123431417604973247489272438418190587263600148770280649306958101930int)
        + fe_le(4082367875863433681332203403145435568316851327593401208105741076214120093531int)
        + fe_le(1) + fe_le(0)
}

/// A point of the first pairing group, as its coordinate encoding.
#[derive(Debug)]
pub struct G1Elem {
    pub(crate) bytes: Vec<u8>,
}

impl View for G1Elem {
    type V = Seq<u8>;

    closed spec fn view(&self) -> Seq<u8> {
        self.bytes@
    }
}

impl G1Elem {
    #[verifier::type_invariant]
    pub(crate) open spec fn type_inv(self) -> bool {
        g1_wf(self@)
    }

    /// The 96 encoding bytes, coordinate by coordinate.
    pub fn to_bytes(&self) -> (r: Vec<u8>)
        ensures
            r@ == self@,
            g1_wf(self@),
    {
        proof {
            use_type_invariant(self);
        }
        clone_byte_vec(&self.bytes)
    }

    /// A point from its three 32-byte coordinate encodings; rejects a
    /// coordinate that is not a canonical base-field value.
    pub fn from_coords(x: &Vec<u8>, y: &Vec<u8>, z: &Vec<u8>) -> (r: Option<G1Elem>)
        ensures
            (r is Some) <==> g1_coords_ok(x@, y@, z@),
            r matches Some(p) ==> p@ == x@ + y@ + z@,
    {
        if x.len() != 32 || y.len() != 32 || z.len() != 32 {
            return None;
        }
        if !fq_bytes_valid(x) || !fq_bytes_valid(y) || !fq_bytes_valid(z) {
            return None;
        }
        let mut bytes = clone_byte_vec(x);
        let mut ytail = clone_byte_vec(y);
        let mut ztail = clone_byte_vec(z);
        bytes.append(&mut ytail);
        bytes.append(&mut ztail);
        proof {
            assert(bytes@ =~= x@ + y@ + z@);
            lemma_concat3_chunks(x@, y@, z@);
        }
        Some(G1Elem { bytes })
    }
}

impl Clone for G1Elem {
    /// The clone encodes the same point as the original.
    fn clone(&self) -> (r: Self)
        ensures
            r@ == self@,
    {
        proof {
            use_type_invariant(self);
        }
        G1Elem { bytes: clone_byte_vec(&self.bytes) }
    }
}

/// A point of the second pairing group, as its coordinate encoding.
#[derive(Debug)]
pub struct G2Elem {
    pub(crate) bytes: Vec<u8>,
}

impl View for G2Elem {
    type V = Seq<u8>;

    closed spec fn view(&self) -> Seq<u8> {
        self.bytes@
    }
}

impl G2Elem {
    #[verifier::type_invariant]
    pub(crate) open spec fn type_inv(self) -> bool {
        g2_wf(self@)
    }

    /// The 192 encoding bytes, coordinate by coordinate.
    pub fn to_bytes(&self) -> (r: Vec<u8>)
        ensures
            r@ == self@,
            g2_wf(self@),
    {
        proof {
            use_type_invariant(self);
        }
        clone_byte_vec(&self.bytes)
    }

    /// A point from its three 64-byte coordinate encodings; rejects a
    /// component that is not a canonical base-field value.
    pub fn from_coords(x: &Vec<u8>, y: &Vec<u8>, z: &Vec<u8>) -> (r: Option<G2Elem>)
        ensures
            (r is Some) <==> g2_coords_ok(x@, y@, z@),
            r matches Some(p) ==> p@ == x@ + y@ + z@,
    {
        if x.len() != 64 || y.len() != 64 || z.len() != 64 {
            return None;
        }
        let (x0, x1) = split_64(x);
        let (y0, y1) = split_64(y);
        let (z0, z1) = split_64(z);
        let ok = fq_bytes_valid(&x0) && fq_bytes_valid(&x1) && fq_bytes_valid(&y0)
            && fq_bytes_valid(&y1) && fq_bytes_valid(&z0) && fq_bytes_valid(&z1);
        proof {
            lemma_concat3_chunks64(x@, y@, z@);
        }
        if !ok {
            return None;
        }
        let mut bytes = clone_byte_vec(x);
        let mut ytail = clone_byte_vec(y);
        let mut ztail = clone_byte_vec(z);
        bytes.append(&mut ytail);
        bytes.append(&mut ztail);
        proof {
            assert(bytes@ =~= x@ + y@ + z@);
        }
        Some(G2Elem { bytes })
    }
}

impl Clone for G2Elem {
    /// The clone encodes the same point as the original.
    fn clone(&self) -> (r: Self)
        ensures
            r@ == self@,
    {
        proof {
            use_type_invariant(self);
        }
        G2Elem { bytes: clone_byte_vec(&self.bytes) }
    }
}

/// An element of the pairing target group, as its canonical encoding.
#[derive(Debug)]
pub struct GtElem {
    pub(crate) bytes: Vec<u8>,
}

impl View for GtElem {
    type V = Seq<u8>;

    closed spec fn view(&self) -> Seq<u8> {
        self.bytes@
    }
}

impl GtElem {
    /// Equality of target-group elements, decided on the canonical
    /// encodings.
    pub fn equals(&self, rhs: &GtElem) -> (r: bool)
        ensures
            r == (self@ == rhs@),
    {
        bytes_eq(&self.bytes, &rhs.bytes)
    }
}

/// Byte-for-byte equality of two vectors.
fn bytes_eq(a: &Vec<u8>, b: &Vec<u8>) -> (r: bool)
    ensures
        r == (a@ == b@),
{
    if a.len() != b.len() {
        proof {
            assert(a@.len() != b@.len());
        }
        return false;
    }
    let mut i: usize = 0;
    while i < a.len()
        invariant
            i <= a@.len(),
            a@.len() == b@.len(),
            forall|j: int| 0 <= j < i ==> a@[j] == b@[j],
        decreases a@.len() - i,
    {
        if a[i] != b[i] {
            return false;
        }
        i += 1;
    }
    proof {
        assert(a@ =~= b@);
    }
    true
}

/// The halves of a 64-byte coordinate encoding.
fn split_64(v: &Vec<u8>) -> (r: (Vec<u8>, Vec<u8>))
    requires
        v@.len() == 64,
    ensures
        r.0@ == v@.subrange(0, 32),
        r.1@ == v@.subrange(32, 64),
{
    let mut lo: Vec<u8> = Vec::new();
    let mut hi: Vec<u8> = Vec::new();
    let mut i: usize = 0;
    while i < 32
        invariant
            i <= 32,
            v@.len() == 64,
            lo@ =~= v@.subrange(0, i as int),
        decreases 32 - i,
    {
        lo.push(v[i]);
        proof {
            assert(lo@ =~= v@.subrange(0, i as int + 1));
        }
        i += 1;
    }
    let mut j: usize = 32;
    while j < 64
        invariant
            32 <= j <= 64,
            v@.len() == 64,
            hi@ =~= v@.subrange(32, j as int),
        decreases 64 - j,
    {
        hi.push(v[j]);
        proof {
            assert(hi@ =~= v@.subrange(32, j as int + 1));
        }
        j += 1;
    }
    (lo, hi)
}

/// A 96-byte concatenation of 32-byte pieces has those pieces as its
/// coordinate windows.
proof fn lemma_concat3_chunks(x: Seq<u8>, y: Seq<u8>, z: Seq<u8>)
    requires
        x.len() == 32,
        y.len() == 32,
        z.len() == 32,
    ensures
        (x + y + z).subrange(0, 32) =~= x,
        (x + y + z).subrange(32, 64) =~= y,
        (x + y + z).subrange(64, 96) =~= z,
{
}

/// A 192-byte concatenation of 64-byte pieces has the six 32-byte
/// component windows of its pieces.
proof fn lemma_concat3_chunks64(x: Seq<u8>, y: Seq<u8>, z: Seq<u8>)
    requires
        x.len() == 64,
        y.len() == 64,
        z.len() == 64,
    ensures
        (x + y + z).subrange(0, 32) =~= x.subrange(0, 32),
        (x + y + z).subrange(32, 64) =~= x.subrange(32, 64),
        (x + y + z).subrange(64, 96) =~= y.subrange(0, 32),
        (x + y + z).subrange(96, 128) =~= y.subrange(32, 64),
        (x + y + z).subrange(128, 160) =~= z.subrange(0, 32),
        (x + y + z).subrange(160, 192) =~= z.subrange(32, 64),
{
}

/// Relies on `ark_ff::Fp::deserialize_uncompressed`: reading 32
/// little-endian bytes succeeds exactly when the value is below the
/// base-field order.
#[verifier::external_body]
fn fq_bytes_valid(b: &Vec<u8>) -> (r: bool)
    requires
        b@.len() == 32,
    ensures
        r == (le_val(b@) < fq_order()),
{
    Fq::deserialize_uncompressed(&b[..]).is_ok()
}

/// Relies on `ark_ec`'s `Group::generator` for `G1Projective` and on
/// `CanonicalSerialize` for `Fp`: the fixed G1 generator is the affine
/// point `(1, 2)` carried to projective coordinates.
#[verifier::external_body]
pub fn g1_generator() -> (r: G1Elem)
    ensures
        r@ == g1_generator_enc(),
{
    let g = <G1Projective as ark_ec::Group>::generator();
    let mut bytes: Vec<u8> = Vec::new();
    (g.x, g.y, g.z).serialize_uncompressed(&mut bytes).unwrap();
    G1Elem { bytes }
}

/// Relies on `ark_ec`'s `Group::generator` for `G2Projective` and on
/// `CanonicalSerialize` for `QuadExtField`: the fixed G2 generator is
/// the published affine point carried to projective coordinates, each
/// coordinate serialized as its real component then its imaginary one.
#[verifier::external_body]
pub fn g2_generator() -> (r: G2Elem)
    ensures
        r@ == g2_generator_enc(),
{
    let g = <G2Projective as ark_ec::Group>::generator();
    let mut bytes: Vec<u8> = Vec::new();
    (g.x, g.y, g.z).serialize_uncompressed(&mut bytes).unwrap();
    G2Elem { bytes }
}

/// Relies on `ark_ec`'s projective point addition for BN254 G1; the sum
/// is a deterministic function of the operand encodings.
#[verifier::external_body]
pub fn g1_add(a: &G1Elem, b: &G1Elem) -> (r: G1Elem)
    ensures
        r@ == g1_add_of(a@, b@),
{
    let pa = <(Fq, Fq, Fq)>::deserialize_uncompressed(&a.bytes[..]).unwrap();
    let pb = <(Fq, Fq, Fq)>::deserialize_uncompressed(&b.bytes[..]).unwrap();
    let s = G1Projective::new_unchecked(pa.0, pa.1, pa.2)
        + G1Projective::new_unchecked(pb.0, pb.1, pb.2);
    let mut bytes: Vec<u8> = Vec::new();
    (s.x, s.y, s.z).serialize_uncompressed(&mut bytes).unwrap();
    G1Elem { bytes }
}

/// Relies on `ark_ec`'s scalar multiplication for BN254 G1; the result
/// is a deterministic function of the point encoding and the scalar
/// residue.
#[verifier::external_body]
pub fn g1_smul(p: &G1Elem, k: &Scalar) -> (r: G1Elem)
    ensures
        r@ == g1_smul_of(p@, k@),
{
    let f = Fr::deserialize_uncompressed(&k.bytes[..]).unwrap();
    let pp = <(Fq, Fq, Fq)>::deserialize_uncompressed(&p.bytes[..]).unwrap();
    let s = G1Projective::new_unchecked(pp.0, pp.1, pp.2) * f;
    let mut bytes: Vec<u8> = Vec::new();
    (s.x, s.y, s.z).serialize_uncompressed(&mut bytes).unwrap();
    G1Elem { bytes }
}

/// Relies on `ark_ec`'s projective point addition for BN254 G2; the sum
/// is a deterministic function of the operand encodings.
#[verifier::external_body]
pub fn g2_add(a: &G2Elem, b: &G2Elem) -> (r: G2Elem)
    ensures
        r@ == g2_add_of(a@, b@),
{
    let pa = <(Fq2, Fq2, Fq2)>::deserialize_uncompressed(&a.bytes[..]).unwrap();
    let pb = <(Fq2, Fq2, Fq2)>::deserialize_uncompressed(&b.bytes[..]).unwrap();
    let s = G2Projective::new_unchecked(pa.0, pa.1, pa.2)
        + G2Projective::new_unchecked(pb.0, pb.1, pb.2);
    let mut bytes: Vec<u8> = Vec::new();
    (s.x, s.y, s.z).serialize_uncompressed(&mut bytes).unwrap();
    G2Elem { bytes }
}

/// Relies on `ark_ec`'s scalar multiplication for BN254 G2; the result
/// is a deterministic function of the point encoding and the scalar
/// residue.
#[verifier::external_body]
pub fn g2_smul(p: &G2Elem, k: &Scalar) -> (r: G2Elem)
    ensures
        r@ == g2_smul_of(p@, k@),
{
    let f = Fr::deserialize_uncompressed(&k.bytes[..]).unwrap();
    let pp = <(Fq2, Fq2, Fq2)>::deserialize_uncompressed(&p.bytes[..]).unwrap();
    let s = G2Projective::new_unchecked(pp.0, pp.1, pp.2) * f;
    let mut bytes: Vec<u8> = Vec::new();
    (s.x, s.y, s.z).serialize_uncompressed(&mut bytes).unwrap();
    G2Elem { bytes }
}

/// Relies on `ark_ec::pairing::Pairing::pairing` for BN254 and on
/// `CanonicalSerialize` for the target field: the bilinear pairing of
/// the two points, as the canonical encoding of the result.
#[verifier::external_body]
pub fn pairing(a: &G1Elem, b: &G2Elem) -> (r: GtElem)
    ensures
        r@ == pairing_of(a@, b@),
{
    let pa = <(Fq, Fq, Fq)>::deserialize_uncompressed(&a.bytes[..]).unwrap();
    let pb = <(Fq2, Fq2, Fq2)>::deserialize_uncompressed(&b.bytes[..]).unwrap();
    let e = Bn254::pairing(
        G1Projective::new_unchecked(pa.0, pa.1, pa.2),
        G2Projective::new_unchecked(pb.0, pb.1, pb.2),
    );
    let mut bytes: Vec<u8> = Vec::new();
    e.serialize_uncompressed(&mut bytes).unwrap();
    GtElem { bytes }
}

/// Relies on the `Add` impl of `ark_ec`'s `PairingOutput`: the group
/// operation of the pairing target group, as a deterministic function
/// of the operand encodings.
#[verifier::external_body]
pub fn gt_add(a: &GtElem, b: &GtElem) -> (r: GtElem)
    ensures
        r@ == gt_add_of(a@, b@),
{
    let x = ark_ec::pairing::PairingOutput::<Bn254>::deserialize_uncompressed(&a.bytes[..]).unwrap();
    let y = ark_ec::pairing::PairingOutput::<Bn254>::deserialize_uncompressed(&b.bytes[..]).unwrap();
    let mut bytes: Vec<u8> = Vec::new();
    (x + y).serialize_uncompressed(&mut bytes).unwrap();
    GtElem { bytes }
}

/// A point of either pairing group, as the codec carries them.
#[derive(Debug)]
pub enum GroupElem {
    One(G1Elem),
    Two(G2Elem),
}

/// The mathematical content of a tagged group element.
pub enum GroupElemView {
    One(Seq<u8>),
    Two(Seq<u8>),
}

impl View for GroupElem {
    type V = GroupElemView;

    open spec fn view(&self) -> GroupElemView {
        match self {
            GroupElem::One(p) => GroupElemView::One(p@),
            GroupElem::Two(p) => GroupElemView::Two(p@),
        }
    }
}

impl GroupElem {
    /// The held G1 point, or `None` on the other variant.
    pub fn as_g1(&self) -> (r: Option<&G1Elem>)
        ensures
            (r is Some) <==> (self@ is One),
            r matches Some(p) ==> self@ == GroupElemView::One(p@),
    {
        match self {
            GroupElem::One(p) => Some(p),
            GroupElem::Two(_) => None,
        }
    }

    /// The held G2 point, or `None` on the other variant.
    pub fn as_g2(&self) -> (r: Option<&G2Elem>)
        ensures
            (r is Some) <==> (self@ is Two),
            r matches Some(p) ==> self@ == GroupElemView::Two(p@),
    {
        match self {
            GroupElem::One(_) => None,
            GroupElem::Two(p) => Some(p),
        }
    }
}

} // verus!
