//! Proof verification.
//!
//! The verifier decodes the proof token and the verification key and
//! runs the fixed battery of bilinear-pairing equality checks: one
//! knowledge-of-exponent check per channel, a generator cross-check,
//! the QAP divisibility check, the variable-consistency check, and the
//! right-channel group-consistency check. All must hold; any failure
//! means an invalid proof, never a crash.

use vstd::prelude::*;
use crate::group::{
    g1_add, g1_add_of, g1_generator, g1_generator_enc, g2_generator, g2_generator_enc, gt_add,
    gt_add_of, pairing, pairing_of, G1Elem, G2Elem, GroupElem, GroupElemView, GtElem,
};
use crate::codec::{
    decode_key, dec_key, gev_bytes, gev_views, key_views, parse_proof, spec_parse_proof,
    CodecError, Proof, ProofView,
};

verus! {

/// The verification key, destructured into its named elements.
pub struct VerifKey {
    /// The G1 baseline generator.
    pub g1: G1Elem,
    /// The output channel's `t(s)` element.
    pub go_t: G1Elem,
    /// The `alpha_r` exponentiation in G1, for the cross-group check.
    pub g_alphar_g1: G1Elem,
    /// The G2 baseline generator.
    pub g2: G2Elem,
    /// The `alpha_l` exponentiation in G2.
    pub alphal2: G2Elem,
    /// The `alpha_r` exponentiation in G2.
    pub alphar2: G2Elem,
    /// The `alpha_o` exponentiation in G2.
    pub alphao2: G2Elem,
    /// The `gamma` exponentiation in G2.
    pub gamma2: G2Elem,
    /// The `beta·gamma` exponentiation in G2.
    pub betagamma2: G2Elem,
}

/// The encodings of a verification key's nine elements.
pub struct VkView {
    pub g1: Seq<u8>,
    pub go_t: Seq<u8>,
    pub g_alphar_g1: Seq<u8>,
    pub g2: Seq<u8>,
    pub alphal2: Seq<u8>,
    pub alphar2: Seq<u8>,
    pub alphao2: Seq<u8>,
    pub gamma2: Seq<u8>,
    pub betagamma2: Seq<u8>,
}

impl View for VerifKey {
    type V = VkView;

    open spec fn view(&self) -> VkView {
        VkView {
            g1: self.g1@,
            go_t: self.go_t@,
            g_alphar_g1: self.g_alphar_g1@,
            g2: self.g2@,
            alphal2: self.alphal2@,
            alphar2: self.alphar2@,
            alphao2: self.alphao2@,
            gamma2: self.gamma2@,
            betagamma2: self.betagamma2@,
        }
    }
}

/// The shape of a decoded verification key: a single G1 baseline, the
/// `t(s)`/`alpha_r` pair in G1, and the six G2 elements.
pub open spec fn vk_shape_ok(kv: Seq<Seq<GroupElemView>>) -> bool {
    &&& kv.len() == 3
    &&& kv[0].len() == 1
    &&& !(kv[0][0] is Two)
    &&& kv[1].len() == 2
    &&& !(kv[1][0] is Two)
    &&& !(kv[1][1] is Two)
    &&& kv[2].len() == 6
    &&& (kv[2][0] is Two)
    &&& (kv[2][1] is Two)
    &&& (kv[2][2] is Two)
    &&& (kv[2][3] is Two)
    &&& (kv[2][4] is Two)
    &&& (kv[2][5] is Two)
}

/// The named elements a well-shaped verification key carries.
pub open spec fn spec_vk_view(kv: Seq<Seq<GroupElemView>>) -> VkView {
    VkView {
        g1: gev_bytes(kv[0][0]),
        go_t: gev_bytes(kv[1][0]),
        g_alphar_g1: gev_bytes(kv[1][1]),
        g2: gev_bytes(kv[2][0]),
        alphal2: gev_bytes(kv[2][1]),
        alphar2: gev_bytes(kv[2][2]),
        alphao2: gev_bytes(kv[2][3]),
        gamma2: gev_bytes(kv[2][4]),
        betagamma2: gev_bytes(kv[2][5]),
    }
}

/// The verifier's decision: all pairing checks over the proof and the
/// verification key.
pub open spec fn spec_verify(p: ProofView, k: VkView) -> bool {
    // left-channel knowledge-of-exponent check
    &&& pairing_of(p.lop, k.alphal2) == pairing_of(p.lop_shift, k.g2)
    // right-channel knowledge-of-exponent check, across the groups
    &&& pairing_of(k.g_alphar_g1, p.rop2) == pairing_of(k.g1, p.rop2_shift)
    // output-channel knowledge-of-exponent check
    &&& pairing_of(p.oop, k.alphao2) == pairing_of(p.oop_shift, k.g2)
    // generator cross-check
    &&& pairing_of(k.g1, g2_generator_enc()) == pairing_of(g1_generator_enc(), k.g2)
    // QAP divisibility check: L(s)·R(s) = t(s)·h(s) + O(s) in the exponent
    &&& pairing_of(p.lop, p.rop2) == gt_add_of(
        pairing_of(k.go_t, p.h),
        pairing_of(p.oop, k.g2),
    )
    // variable-consistency check
    &&& pairing_of(g1_add_of(g1_add_of(p.lop, p.rop), p.oop), k.betagamma2) == pairing_of(
        p.z,
        k.gamma2,
    )
    // right-channel group-consistency check
    &&& pairing_of(p.rop, g2_generator_enc()) == pairing_of(g1_generator_enc(), p.rop2)
}

/// Destructures a decoded verification key, checking its shape; a
/// mismatched variant or length is an invalid key.
pub fn vk_parts(vk: &Vec<Vec<GroupElem>>) -> (r: Result<VerifKey, CodecError>)
    ensures
        (r is Ok) <==> vk_shape_ok(key_views(vk@)),
        r matches Ok(k) ==> k@ == spec_vk_view(key_views(vk@)),
        r matches Err(e) ==> e == CodecError::InvalidPointEncoding,
{
    let ghost kv = key_views(vk@);
    if vk.len() != 3 {
        return Err(CodecError::InvalidPointEncoding);
    }
    let row0 = &vk[0];
    let row1 = &vk[1];
    let row2 = &vk[2];
    proof {
        assert(*row0 == vk@[0]);
        assert(*row1 == vk@[1]);
        assert(*row2 == vk@[2]);
        assert(kv[0] == gev_views(vk@[0]@));
        assert(kv[1] == gev_views(vk@[1]@));
        assert(kv[2] == gev_views(vk@[2]@));
    }
    if row0.len() != 1 || row1.len() != 2 || row2.len() != 6 {
        return Err(CodecError::InvalidPointEncoding);
    }
    proof {
        assert forall|j: int| 0 <= j < 1 implies kv[0][j] == vk@[0]@[j]@ by {}
        assert forall|j: int| 0 <= j < 2 implies kv[1][j] == vk@[1]@[j]@ by {}
        assert forall|j: int| 0 <= j < 6 implies kv[2][j] == vk@[2]@[j]@ by {}
    }
    let g1 = match row0[0].as_g1() {
        Some(p) => p.clone(),
        None => {
            return Err(CodecError::InvalidPointEncoding);
        },
    };
    let go_t = match row1[0].as_g1() {
        Some(p) => p.clone(),
        None => {
            return Err(CodecError::InvalidPointEncoding);
        },
    };
    let g_alphar_g1 = match row1[1].as_g1() {
        Some(p) => p.clone(),
        None => {
            return Err(CodecError::InvalidPointEncoding);
        },
    };
    let g2 = match row2[0].as_g2() {
        Some(p) => p.clone(),
        None => {
            return Err(CodecError::InvalidPointEncoding);
        },
    };
    let alphal2 = match row2[1].as_g2() {
        Some(p) => p.clone(),
        None => {
            return Err(CodecError::InvalidPointEncoding);
        },
    };
    let alphar2 = match row2[2].as_g2() {
        Some(p) => p.clone(),
        None => {
            return Err(CodecError::InvalidPointEncoding);
        },
    };
    let alphao2 = match row2[3].as_g2() {
        Some(p) => p.clone(),
        None => {
            return Err(CodecError::InvalidPointEncoding);
        },
    };
    let gamma2 = match row2[4].as_g2() {
        Some(p) => p.clone(),
        None => {
            return Err(CodecError::InvalidPointEncoding);
        },
    };
    let betagamma2 = match row2[5].as_g2() {
        Some(p) => p.clone(),
        None => {
            return Err(CodecError::InvalidPointEncoding);
        },
    };
    Ok(VerifKey { g1, go_t, g_alphar_g1, g2, alphal2, alphar2, alphao2, gamma2, betagamma2 })
}

/// Runs the fixed pairing battery on a decoded proof against a
/// decoded verification key.
pub fn verify(proof: &Proof, vk: &VerifKey) -> (r: bool)
    ensures
        r == spec_verify(proof@, vk@),
{
    let g1_gen = g1_generator();
    let g2_gen = g2_generator();
    // per-channel knowledge-of-exponent checks
    let c1l = pairing(&proof.g_lop, &vk.alphal2);
    let c1r = pairing(&proof.g_lop_shift, &vk.g2);
    let c1 = c1l.equals(&c1r);
    let c2l = pairing(&vk.g_alphar_g1, &proof.g2_rop);
    let c2r = pairing(&vk.g1, &proof.g2_rop_shift);
    let c2 = c2l.equals(&c2r);
    let c3l = pairing(&proof.g_oop, &vk.alphao2);
    let c3r = pairing(&proof.g_oop_shift, &vk.g2);
    let c3 = c3l.equals(&c3r);
    // generator cross-check
    let c4l = pairing(&vk.g1, &g2_gen);
    let c4r = pairing(&g1_gen, &vk.g2);
    let c4 = c4l.equals(&c4r);
    // divisibility check
    let c5l = pairing(&proof.g_lop, &proof.g2_rop);
    let c5a = pairing(&vk.go_t, &proof.g2_h);
    let c5b = pairing(&proof.g_oop, &vk.g2);
    let c5r = gt_add(&c5a, &c5b);
    let c5 = c5l.equals(&c5r);
    // variable-consistency check
    let lro = g1_add(&g1_add(&proof.g_lop, &proof.g_rop), &proof.g_oop);
    let c6l = pairing(&lro, &vk.betagamma2);
    let c6r = pairing(&proof.g_z, &vk.gamma2);
    let c6 = c6l.equals(&c6r);
    // right-channel group-consistency check
    let c7l = pairing(&proof.g_rop, &g2_gen);
    let c7r = pairing(&g1_gen, &proof.g2_rop);
    let c7 = c7l.equals(&c7r);
    c1 && c2 && c3 && c4 && c5 && c6 && c7
}

/// What verifying a proof token against verification-key bytes yields:
/// nothing on a malformed token or key, else the verifier's decision.
pub open spec fn spec_verify_token(s: Seq<char>, vk_bytes: Seq<u8>) -> Option<bool> {
    match spec_parse_proof(s) {
        None => None,
        Some(p) => match dec_key(vk_bytes, 1, 4) {
            None => None,
            Some(kv) => if vk_shape_ok(kv) {
                Some(spec_verify(p, spec_vk_view(kv)))
            } else {
                None
            },
        },
    }
}

/// Verifies a base64 proof token against the bytes of a verification
/// key: decodes both and runs the pairing battery. A malformed token
/// or key is an error; an unsatisfied check is a plain rejection.
pub fn verify_proof(proof_str: &str, vk_bytes: &Vec<u8>) -> (r: Result<bool, CodecError>)
    ensures
        (match (r, spec_verify_token(proof_str@, vk_bytes@)) {
            (Ok(b), Some(b2)) => b == b2,
            (Err(_), None) => true,
            _ => false,
        }),
{
    let proof = match parse_proof(proof_str) {
        Err(e) => {
            return Err(e);
        },
        Ok(p) => p,
    };
    let vk_raw = match decode_key(vk_bytes, 4) {
        Err(e) => {
            return Err(e);
        },
        Ok(k) => k,
    };
    let vk = match vk_parts(&vk_raw) {
        Err(e) => {
            return Err(e);
        },
        Ok(k) => k,
    };
    Ok(verify(&proof, &vk))
}

} // verus!
