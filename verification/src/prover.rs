//! Proof generation.
//!
//! The prover re-derives the QAP from the circuit text, weights the
//! selector polynomials with the witness, commits to the quotient of
//! `L·R - O` by the vanishing polynomial, and blinds every channel
//! with fresh random scalars. Each emitted group element is pinned to
//! a fold of the group operations over the proving-key elements, the
//! witness weights and a ghost copy of the blinding scalars.

use vstd::prelude::*;
use crate::fr_order;
use crate::field::Scalar;
use crate::poly::{
    in_range, padd, pcoef, peq, pmul, poly_eval, pscale, psub, ptrim, views_of, Polynomial,
};
use crate::circuit::{parse_circuit, spec_parse_circuit, gate_views, Gate, GateModel, ParseError};
use crate::qap::{
    compile_qap, occ_list, poly_views, spec_qap, str_views, Qap, QapView, WireType,
};
use crate::group::{
    g1_add, g1_add_of, g1_generator, g1_generator_enc, g1_smul, g1_smul_of, g2_add, g2_add_of,
    g2_generator, g2_generator_enc, g2_smul, g2_smul_of, G1Elem, G2Elem, GroupElem, GroupElemView,
};
use crate::codec::{gev_bytes, gev_views, key_views, Proof};

verus! {

/// A failure while weighting the witness into the QAP.
#[derive(Debug, Clone, Copy, PartialEq, Eq, Structural)]
pub enum WitnessError {
    /// A variable occurring in the circuit is absent from the witness.
    MissingVariable,
    /// The witness does not satisfy every gate exactly.
    UnsatisfiedCircuit,
}

/// A failure while generating a proof.
#[derive(Debug, Clone, Copy, PartialEq, Eq, Structural)]
pub enum ProverError {
    /// The circuit text is malformed.
    Circuit(ParseError),
    /// The witness is unusable.
    Witness(WitnessError),
    /// The proving key does not have the expected shape.
    BadKey,
}

/// The name-to-residue pairs a witness denotes, in order.
pub open spec fn wit_views(w: Seq<(String, u64)>) -> Seq<(Seq<char>, int)> {
    Seq::new(w.len(), |i: int| (w[i].0@, w[i].1 as int))
}

/// The value of the first binding of `v`, if any.
pub open spec fn wit_lookup(w: Seq<(Seq<char>, int)>, v: Seq<char>) -> Option<int>
    decreases w.len(),
{
    if w.len() == 0 {
        None
    } else if w[0].0 == v {
        Some(w[0].1)
    } else {
        wit_lookup(w.drop_first(), v)
    }
}

/// The weights of an occurrence list under a witness: one residue per
/// variable, or nothing if any variable is unbound.
pub open spec fn spec_weights(w: Seq<(Seq<char>, int)>, vars: Seq<Seq<char>>) -> Option<Seq<int>>
    decreases vars.len(),
{
    if vars.len() == 0 {
        Some(Seq::<int>::empty())
    } else {
        match spec_weights(w, vars.drop_last()) {
            None => None,
            Some(pre) => match wit_lookup(w, vars.last()) {
                None => None,
                Some(x) => Some(pre.push(x % fr_order())),
            },
        }
    }
}

/// The witness-weighted polynomial `sum ws[j] · polys[j]`, over the
/// first `k` entries.
pub open spec fn fold_wsum(polys: Seq<Seq<int>>, ws: Seq<int>, k: int) -> Seq<int>
    decreases k,
{
    if k <= 0 {
        Seq::<int>::empty()
    } else {
        padd(fold_wsum(polys, ws, k - 1), pscale(ws[k - 1], polys[k - 1]))
    }
}

/// The encoding of the G1 identity, as scaling any point by zero
/// yields it.
pub open spec fn zero1() -> Seq<u8> {
    g1_smul_of(g1_generator_enc(), 0)
}

/// The encoding of the G2 identity.
pub open spec fn zero2() -> Seq<u8> {
    g2_smul_of(g2_generator_enc(), 0)
}

/// The running G1 combination `sum ws[j] · elems[j]`, left to right
/// from the identity.
pub open spec fn g1_comb(elems: Seq<Seq<u8>>, ws: Seq<int>, k: int) -> Seq<u8>
    decreases k,
{
    if k <= 0 {
        zero1()
    } else {
        g1_add_of(g1_comb(elems, ws, k - 1), g1_smul_of(elems[k - 1], ws[k - 1]))
    }
}

/// The running G2 combination, as [`g1_comb`] in the second group.
pub open spec fn g2_comb(elems: Seq<Seq<u8>>, ws: Seq<int>, k: int) -> Seq<u8>
    decreases k,
{
    if k <= 0 {
        zero2()
    } else {
        g2_add_of(g2_comb(elems, ws, k - 1), g2_smul_of(elems[k - 1], ws[k - 1]))
    }
}

/// The encodings of a vector of G1 points, in order.
pub open spec fn g1_views(v: Seq<G1Elem>) -> Seq<Seq<u8>> {
    Seq::new(v.len(), |i: int| v[i]@)
}

/// The encodings of a vector of G2 points, in order.
pub open spec fn g2_views(v: Seq<G2Elem>) -> Seq<Seq<u8>> {
    Seq::new(v.len(), |i: int| v[i]@)
}

/// The first bound value of a variable in the witness.
fn lookup_witness(witness: &Vec<(String, u64)>, var: &String) -> (r: Option<u64>)
    ensures
        (match (r, wit_lookup(wit_views(witness@), var@)) {
            (Some(x), Some(y)) => x as int == y,
            (None, None) => true,
            _ => false,
        }),
{
    let ghost wv = wit_views(witness@);
    let mut i: usize = 0;
    proof {
        assert(wv.skip(0) =~= wv);
    }
    while i < witness.len()
        invariant
            i <= witness@.len(),
            wv == wit_views(witness@),
            (match wit_lookup(wv.skip(i as int), var@) {
                Some(y) => wit_lookup(wv, var@) == Some(y),
                None => wit_lookup(wv, var@) is None,
            }),
        decreases witness@.len() - i,
    {
        let pair = &witness[i];
        proof {
            let tl = wv.skip(i as int);
            assert(tl.len() > 0);
            assert(tl[0] == wv[i as int]);
            assert(tl.drop_first() =~= wv.skip(i as int + 1));
        }
        if pair.0.eq(var) {
            return Some(pair.1);
        }
        i += 1;
    }
    proof {
        assert(wv.skip(witness@.len() as int) =~= Seq::<(Seq<char>, int)>::empty());
    }
    None
}

/// The weights of every occurrence-list variable under the witness;
/// fails with [`WitnessError::MissingVariable`] exactly when one is
/// unbound.
#[verifier::loop_isolation(false)]
pub fn witness_weights(witness: &Vec<(String, u64)>, vars: &Vec<String>) -> (r: Result<
    Vec<Scalar>,
    WitnessError,
>)
    ensures
        (match (r, spec_weights(wit_views(witness@), str_views(vars@))) {
            (Ok(v), Some(ws)) => views_of(v@) == ws && v@.len() == vars@.len(),
            (Err(e), None) => e == WitnessError::MissingVariable,
            _ => false,
        }),
{
    let ghost wv = wit_views(witness@);
    let ghost sv = str_views(vars@);
    let mut out: Vec<Scalar> = Vec::new();
    let mut i: usize = 0;
    proof {
        assert(sv.subrange(0, 0) =~= Seq::<Seq<char>>::empty());
        assert(views_of(out@) =~= Seq::<int>::empty());
    }
    while i < vars.len()
        invariant
            i <= vars@.len(),
            out@.len() == i,
            spec_weights(wv, sv.subrange(0, i as int)) == Some(views_of(out@)),
        decreases vars@.len() - i,
    {
        let var = &vars[i];
        proof {
            let pre = sv.subrange(0, i as int + 1);
            assert(pre.drop_last() =~= sv.subrange(0, i as int));
            assert(pre.last() == sv[i as int]);
            assert(sv[i as int] == vars@[i as int]@);
        }
        match lookup_witness(witness, var) {
            None => {
                proof {
                    assert(spec_weights(wv, sv.subrange(0, i as int + 1)) is None);
                    lemma_weights_prefix_none(wv, sv, i as int + 1);
                }
                return Err(WitnessError::MissingVariable);
            },
            Some(x) => {
                let sc = Scalar::from_u64(x);
                let ghost pre_out = views_of(out@);
                out.push(sc);
                proof {
                    assert(views_of(out@) =~= pre_out.push(sc@));
                    assert(x as int % fr_order() == x as int) by {
                        vstd::arithmetic::div_mod::lemma_small_mod(x as nat, fr_order() as nat);
                    }
                }
            },
        }
        i += 1;
    }
    proof {
        assert(sv.subrange(0, vars@.len() as int) =~= sv);
    }
    Ok(out)
}

/// A missing variable in a prefix keeps the whole weight list missing.
proof fn lemma_weights_prefix_none(w: Seq<(Seq<char>, int)>, vars: Seq<Seq<char>>, k: int)
    requires
        0 <= k <= vars.len(),
        spec_weights(w, vars.subrange(0, k)) is None,
    ensures
        spec_weights(w, vars) is None,
    decreases vars.len() - k,
{
    if k < vars.len() {
        let pre = vars.subrange(0, k + 1);
        assert(pre.drop_last() =~= vars.subrange(0, k));
        assert(spec_weights(w, pre) is None);
        lemma_weights_prefix_none(w, vars, k + 1);
    } else {
        assert(vars.subrange(0, k) =~= vars);
    }
}

/// The witness-weighted polynomial of one wire type: the sum of each
/// selector polynomial scaled by its variable's witness value.
#[verifier::loop_isolation(false)]
pub fn compute_final_polynomial(
    witness: &Vec<(String, u64)>,
    polynomial_array: &Vec<Polynomial>,
    occurance_list: &Vec<String>,
) -> (r: Result<Polynomial, WitnessError>)
    requires
        polynomial_array@.len() == occurance_list@.len(),
    ensures
        (match (r, spec_weights(wit_views(witness@), str_views(occurance_list@))) {
            (Ok(p), Some(ws)) => p@ == fold_wsum(
                poly_views(polynomial_array@),
                ws,
                polynomial_array@.len() as int,
            ),
            (Err(e), None) => e == WitnessError::MissingVariable,
            _ => false,
        }),
{
    let ws = match witness_weights(witness, occurance_list) {
        Err(e) => {
            return Err(e);
        },
        Ok(v) => v,
    };
    let ghost wsv = views_of(ws@);
    let mut acc = Polynomial::zero();
    let mut i: usize = 0;
    proof {
        assert(acc@ =~= fold_wsum(poly_views(polynomial_array@), wsv, 0));
    }
    while i < polynomial_array.len()
        invariant
            i <= polynomial_array@.len(),
            ws@.len() == polynomial_array@.len(),
            acc@ == fold_wsum(poly_views(polynomial_array@), wsv, i as int),
        decreases polynomial_array@.len() - i,
    {
        let p = &polynomial_array[i];
        let w = &ws[i];
        let scaled = p.scalar_multiply(w);
        let next = acc.add(&scaled);
        proof {
            assert(w@ == wsv[i as int]);
            assert(poly_views(polynomial_array@)[i as int] == polynomial_array@[i as int]@);
        }
        acc = next;
        i += 1;
    }
    Ok(acc)
}

/// The witness-weighted combination of one channel's key elements,
/// plus the channel's blinded vanishing term.
#[verifier::loop_isolation(false)]
pub fn compute_encrypted_polynomial_evaluation(
    elems: &Vec<G1Elem>,
    weights: &Vec<Scalar>,
    delta_term: &G1Elem,
) -> (r: G1Elem)
    requires
        elems@.len() == weights@.len(),
    ensures
        r@ == g1_add_of(
            g1_comb(g1_views(elems@), views_of(weights@), elems@.len() as int),
            delta_term@,
        ),
{
    let mut acc = g1_smul(&g1_generator(), &Scalar::from_u64(0));
    let mut i: usize = 0;
    while i < elems.len()
        invariant
            i <= elems@.len(),
            elems@.len() == weights@.len(),
            acc@ == g1_comb(g1_views(elems@), views_of(weights@), i as int),
        decreases elems@.len() - i,
    {
        let term = g1_smul(&elems[i], &weights[i]);
        let next = g1_add(&acc, &term);
        proof {
            assert(g1_views(elems@)[i as int] == elems@[i as int]@);
            assert(views_of(weights@)[i as int] == weights@[i as int]@);
        }
        acc = next;
        i += 1;
    }
    g1_add(&acc, delta_term)
}

/// As [`compute_encrypted_polynomial_evaluation`], in the second
/// group.
#[verifier::loop_isolation(false)]
pub fn compute_encrypted_polynomial_evaluation_g2(
    elems: &Vec<G2Elem>,
    weights: &Vec<Scalar>,
    delta_term: &G2Elem,
) -> (r: G2Elem)
    requires
        elems@.len() == weights@.len(),
    ensures
        r@ == g2_add_of(
            g2_comb(g2_views(elems@), views_of(weights@), elems@.len() as int),
            delta_term@,
        ),
{
    let mut acc = g2_smul(&g2_generator(), &Scalar::from_u64(0));
    let mut i: usize = 0;
    while i < elems.len()
        invariant
            i <= elems@.len(),
            elems@.len() == weights@.len(),
            acc@ == g2_comb(g2_views(elems@), views_of(weights@), i as int),
        decreases elems@.len() - i,
    {
        let term = g2_smul(&elems[i], &weights[i]);
        let next = g2_add(&acc, &term);
        proof {
            assert(g2_views(elems@)[i as int] == elems@[i as int]@);
            assert(views_of(weights@)[i as int] == weights@[i as int]@);
        }
        acc = next;
        i += 1;
    }
    g2_add(&acc, delta_term)
}

/// The witness-weighted combination of one channel's `beta`-shifted
/// key elements, with no extra term.
#[verifier::loop_isolation(false)]
pub fn compute_encrypted_beta_polynomial_evaluation(
    elems: &Vec<G1Elem>,
    weights: &Vec<Scalar>,
) -> (r: G1Elem)
    requires
        elems@.len() == weights@.len(),
    ensures
        r@ == g1_comb(g1_views(elems@), views_of(weights@), elems@.len() as int),
{
    let mut acc = g1_smul(&g1_generator(), &Scalar::from_u64(0));
    let mut i: usize = 0;
    while i < elems.len()
        invariant
            i <= elems@.len(),
            elems@.len() == weights@.len(),
            acc@ == g1_comb(g1_views(elems@), views_of(weights@), i as int),
        decreases elems@.len() - i,
    {
        let term = g1_smul(&elems[i], &weights[i]);
        let next = g1_add(&acc, &term);
        proof {
            assert(g1_views(elems@)[i as int] == elems@[i as int]@);
            assert(views_of(weights@)[i as int] == weights@[i as int]@);
        }
        acc = next;
        i += 1;
    }
    acc
}

/// The encodings carried by a vector of tagged points.
pub open spec fn bytes_of(v: Seq<GroupElemView>) -> Seq<Seq<u8>> {
    Seq::new(v.len(), |i: int| gev_bytes(v[i]))
}

/// Every record is a G1 point.
pub open spec fn all_g1(v: Seq<GroupElemView>) -> bool {
    forall|i: int| 0 <= i < v.len() ==> !(#[trigger] v[i] is Two)
}

/// Every record is a G2 point.
pub open spec fn all_g2(v: Seq<GroupElemView>) -> bool {
    forall|i: int| 0 <= i < v.len() ==> (#[trigger] v[i] is Two)
}

/// The shape a proving key must have: fourteen vectors, G1 channel
/// vectors and the twelve-element fixed block, then the G2 vectors,
/// with the fixed block and the `t(s)` pair of their expected lengths.
pub open spec fn pk_shape_ok(kv: Seq<Seq<GroupElemView>>) -> bool {
    &&& kv.len() == 14
    &&& all_g1(kv[0])
    &&& all_g1(kv[1])
    &&& all_g1(kv[2])
    &&& all_g1(kv[3])
    &&& all_g1(kv[4])
    &&& all_g1(kv[5])
    &&& all_g1(kv[6])
    &&& all_g1(kv[7])
    &&& all_g1(kv[8])
    &&& all_g1(kv[9])
    &&& kv[9].len() == 12
    &&& all_g2(kv[10])
    &&& kv[10].len() == 2
    &&& all_g2(kv[11])
    &&& all_g2(kv[12])
    &&& all_g2(kv[13])
}

/// The G1 points of a vector of records known to be G1.
fn g1_vec_of(v: &Vec<GroupElem>) -> (r: Result<Vec<G1Elem>, ProverError>)
    ensures
        (r is Ok) <==> all_g1(gev_views(v@)),
        r matches Err(e) ==> e == ProverError::BadKey,
        r matches Ok(out) ==> g1_views(out@) == bytes_of(gev_views(v@)),
{
    let mut out: Vec<G1Elem> = Vec::new();
    let mut i: usize = 0;
    while i < v.len()
        invariant
            i <= v@.len(),
            out@.len() == i,
            forall|j: int| 0 <= j < i ==> !(#[trigger] gev_views(v@)[j] is Two),
            forall|j: int| 0 <= j < i ==> g1_views(out@)[j] == bytes_of(gev_views(v@))[j],
        decreases v@.len() - i,
    {
        let e = &v[i];
        match e.as_g1() {
            None => {
                proof {
                    assert(gev_views(v@)[i as int] == v@[i as int]@);
                    assert(gev_views(v@)[i as int] is Two);
                }
                return Err(ProverError::BadKey);
            },
            Some(p) => {
                let pc = p.clone();
                let ghost vpre = out@;
                out.push(pc);
                proof {
                    assert(out@.drop_last() =~= vpre);
                    assert(gev_views(v@)[i as int] == v@[i as int]@);
                    assert(out@[i as int]@ == p@);
                    assert(g1_views(out@)[i as int] == bytes_of(gev_views(v@))[i as int]);
                    assert forall|j: int| 0 <= j < i implies g1_views(out@)[j] == bytes_of(
                        gev_views(v@),
                    )[j] by {
                        assert(out@[j] == vpre[j]);
                        assert(g1_views(out@)[j] == g1_views(vpre)[j]);
                    }
                }
            },
        }
        i += 1;
    }
    proof {
        assert(g1_views(out@) =~= bytes_of(gev_views(v@)));
    }
    Ok(out)
}

/// The G2 points of a vector of records known to be G2.
fn g2_vec_of(v: &Vec<GroupElem>) -> (r: Result<Vec<G2Elem>, ProverError>)
    ensures
        (r is Ok) <==> all_g2(gev_views(v@)),
        r matches Err(e) ==> e == ProverError::BadKey,
        r matches Ok(out) ==> g2_views(out@) == bytes_of(gev_views(v@)),
{
    let mut out: Vec<G2Elem> = Vec::new();
    let mut i: usize = 0;
    while i < v.len()
        invariant
            i <= v@.len(),
            out@.len() == i,
            forall|j: int| 0 <= j < i ==> (#[trigger] gev_views(v@)[j] is Two),
            forall|j: int| 0 <= j < i ==> g2_views(out@)[j] == bytes_of(gev_views(v@))[j],
        decreases v@.len() - i,
    {
        let e = &v[i];
        match e.as_g2() {
            None => {
                proof {
                    assert(gev_views(v@)[i as int] == v@[i as int]@);
                    assert(!(gev_views(v@)[i as int] is Two));
                }
                return Err(ProverError::BadKey);
            },
            Some(p) => {
                let pc = p.clone();
                let ghost vpre = out@;
                out.push(pc);
                proof {
                    assert(out@.drop_last() =~= vpre);
                    assert(gev_views(v@)[i as int] == v@[i as int]@);
                    assert(out@[i as int]@ == p@);
                    assert(g2_views(out@)[i as int] == bytes_of(gev_views(v@))[i as int]);
                    assert forall|j: int| 0 <= j < i implies g2_views(out@)[j] == bytes_of(
                        gev_views(v@),
                    )[j] by {
                        assert(out@[j] == vpre[j]);
                        assert(g2_views(out@)[j] == g2_views(vpre)[j]);
                    }
                }
            },
        }
        i += 1;
    }
    proof {
        assert(g2_views(out@) =~= bytes_of(gev_views(v@)));
    }
    Ok(out)
}

/// The proving key split into its typed parts.
pub struct PkParts {
    pub gl_l: Vec<G1Elem>,
    pub gr_r: Vec<G1Elem>,
    pub go_o: Vec<G1Elem>,
    pub gl_alpha_l: Vec<G1Elem>,
    pub gr_alpha_r: Vec<G1Elem>,
    pub go_alpha_o: Vec<G1Elem>,
    pub gl_beta_l: Vec<G1Elem>,
    pub gr_beta_r: Vec<G1Elem>,
    pub go_beta_o: Vec<G1Elem>,
    pub pk2: Vec<G1Elem>,
    pub gr2_t: G2Elem,
    pub gr2_alphar_t: G2Elem,
    pub gr2_r: Vec<G2Elem>,
    pub gr2_alpha_r: Vec<G2Elem>,
    pub g2sk: Vec<G2Elem>,
}

/// Splits a decoded proving key into typed parts, checking the key's
/// shape; a mismatched variant or length is a [`ProverError::BadKey`].
pub fn pk_parts(pk: &Vec<Vec<GroupElem>>) -> (r: Result<PkParts, ProverError>)
    ensures
        (r is Ok) <==> pk_shape_ok(key_views(pk@)),
        r matches Err(e) ==> e == ProverError::BadKey,
        r matches Ok(parts) ==> {
            let kv = key_views(pk@);
            &&& g1_views(parts.gl_l@) == bytes_of(kv[0])
            &&& g1_views(parts.gr_r@) == bytes_of(kv[1])
            &&& g1_views(parts.go_o@) == bytes_of(kv[2])
            &&& g1_views(parts.gl_alpha_l@) == bytes_of(kv[3])
            &&& g1_views(parts.gr_alpha_r@) == bytes_of(kv[4])
            &&& g1_views(parts.go_alpha_o@) == bytes_of(kv[5])
            &&& g1_views(parts.gl_beta_l@) == bytes_of(kv[6])
            &&& g1_views(parts.gr_beta_r@) == bytes_of(kv[7])
            &&& g1_views(parts.go_beta_o@) == bytes_of(kv[8])
            &&& g1_views(parts.pk2@) == bytes_of(kv[9])
            &&& parts.pk2@.len() == 12
            &&& parts.gr2_t@ == gev_bytes(kv[10][0])
            &&& parts.gr2_alphar_t@ == gev_bytes(kv[10][1])
            &&& g2_views(parts.gr2_r@) == bytes_of(kv[11])
            &&& g2_views(parts.gr2_alpha_r@) == bytes_of(kv[12])
            &&& g2_views(parts.g2sk@) == bytes_of(kv[13])
        },
{
    let ghost kv = key_views(pk@);
    if pk.len() != 14 {
        return Err(ProverError::BadKey);
    }
    proof {
        assert forall|j: int| 0 <= j < 14 implies gev_views(pk@[j]@) == kv[j] by {}
    }
    let row0 = &pk[0];
    let row1 = &pk[1];
    let row2 = &pk[2];
    let row3 = &pk[3];
    let row4 = &pk[4];
    let row5 = &pk[5];
    let row6 = &pk[6];
    let row7 = &pk[7];
    let row8 = &pk[8];
    let row9 = &pk[9];
    let row10 = &pk[10];
    let row11 = &pk[11];
    let row12 = &pk[12];
    let row13 = &pk[13];
    proof {
        assert(*row0 == pk@[0]);
        assert(*row1 == pk@[1]);
        assert(*row2 == pk@[2]);
        assert(*row3 == pk@[3]);
        assert(*row4 == pk@[4]);
        assert(*row5 == pk@[5]);
        assert(*row6 == pk@[6]);
        assert(*row7 == pk@[7]);
        assert(*row8 == pk@[8]);
        assert(*row9 == pk@[9]);
        assert(*row10 == pk@[10]);
        assert(*row11 == pk@[11]);
        assert(*row12 == pk@[12]);
        assert(*row13 == pk@[13]);
    }
    let gl_l = match g1_vec_of(row0) {
        Ok(v) => v,
        Err(e) => {
            return Err(e);
        },
    };
    let gr_r = match g1_vec_of(row1) {
        Ok(v) => v,
        Err(e) => {
            return Err(e);
        },
    };
    let go_o = match g1_vec_of(row2) {
        Ok(v) => v,
        Err(e) => {
            return Err(e);
        },
    };
    let gl_alpha_l = match g1_vec_of(row3) {
        Ok(v) => v,
        Err(e) => {
            return Err(e);
        },
    };
    let gr_alpha_r = match g1_vec_of(row4) {
        Ok(v) => v,
        Err(e) => {
            return Err(e);
        },
    };
    let go_alpha_o = match g1_vec_of(row5) {
        Ok(v) => v,
        Err(e) => {
            return Err(e);
        },
    };
    let gl_beta_l = match g1_vec_of(row6) {
        Ok(v) => v,
        Err(e) => {
            return Err(e);
        },
    };
    let gr_beta_r = match g1_vec_of(row7) {
        Ok(v) => v,
        Err(e) => {
            return Err(e);
        },
    };
    let go_beta_o = match g1_vec_of(row8) {
        Ok(v) => v,
        Err(e) => {
            return Err(e);
        },
    };
    let pk2 = match g1_vec_of(row9) {
        Ok(v) => v,
        Err(e) => {
            return Err(e);
        },
    };
    if pk2.len() != 12 {
        proof {
            assert(kv[9] == gev_views(pk@[9]@));
            assert(g1_views(pk2@).len() == bytes_of(gev_views(pk@[9]@)).len());
            assert(pk2@.len() == kv[9].len());
        }
        return Err(ProverError::BadKey);
    }
    let tpair = match g2_vec_of(row10) {
        Ok(v) => v,
        Err(e) => {
            return Err(e);
        },
    };
    if tpair.len() != 2 {
        proof {
            assert(kv[10] == gev_views(pk@[10]@));
            assert(g2_views(tpair@).len() == bytes_of(gev_views(pk@[10]@)).len());
            assert(tpair@.len() == kv[10].len());
        }
        return Err(ProverError::BadKey);
    }
    let gr2_r = match g2_vec_of(row11) {
        Ok(v) => v,
        Err(e) => {
            return Err(e);
        },
    };
    let gr2_alpha_r = match g2_vec_of(row12) {
        Ok(v) => v,
        Err(e) => {
            return Err(e);
        },
    };
    let g2sk = match g2_vec_of(row13) {
        Ok(v) => v,
        Err(e) => {
            return Err(e);
        },
    };
    let ghost tv = tpair@;
    let mut tpair = tpair;
    let gr2_alphar_t = tpair.pop().unwrap();
    let gr2_t = tpair.pop().unwrap();
    proof {
        let gv10 = gev_views(pk@[10]@);
        assert(kv[10] == gv10);
        assert(gr2_alphar_t == tv[1]);
        assert(gr2_t == tv[0]);
        assert(tv.len() == 2);
        assert(g2_views(tv) == bytes_of(gv10));
        assert(g2_views(tv).len() == tv.len());
        assert(bytes_of(gv10).len() == gv10.len());
        assert(gv10.len() == 2);
        assert(g2_views(tv)[0] == tv[0]@);
        assert(g2_views(tv)[1] == tv[1]@);
        assert(bytes_of(gv10)[0] == gev_bytes(gv10[0]));
        assert(bytes_of(gv10)[1] == gev_bytes(gv10[1]));
        assert(gr2_t@ == gev_bytes(kv[10][0]));
        assert(gr2_alphar_t@ == gev_bytes(kv[10][1]));
    }
    proof {
        assert(g1_views(pk2@).len() == bytes_of(kv[9]).len());
        assert(kv[9].len() == 12);
        assert(all_g1(kv[0]));
        assert(all_g1(kv[1]));
        assert(all_g1(kv[2]));
        assert(all_g1(kv[3]));
        assert(all_g1(kv[4]));
        assert(all_g1(kv[5]));
        assert(all_g1(kv[6]));
        assert(all_g1(kv[7]));
        assert(all_g1(kv[8]));
        assert(all_g1(kv[9]));
        assert(all_g2(kv[10]));
        assert(all_g2(kv[11]));
        assert(all_g2(kv[12]));
        assert(all_g2(kv[13]));
        assert(pk_shape_ok(kv));
    }
    Ok(
        PkParts {
            gl_l,
            gr_r,
            go_o,
            gl_alpha_l,
            gr_alpha_r,
            go_alpha_o,
            gl_beta_l,
            gr_beta_r,
            go_beta_o,
            pk2,
            gr2_t,
            gr2_alphar_t,
            gr2_r,
            gr2_alpha_r,
            g2sk,
        },
    )
}

/// The commitment to the quotient polynomial: the constant coefficient
/// on the bare generator, every higher coefficient on the matching
/// trapdoor power.
pub open spec fn h_commit(cs: Seq<int>, sk: Seq<Seq<u8>>, k: int) -> Seq<u8>
    decreases k,
{
    if k <= 0 {
        zero2()
    } else {
        g2_add_of(
            h_commit(cs, sk, k - 1),
            if k == 1 {
                g2_smul_of(g2_generator_enc(), cs[0])
            } else {
                g2_smul_of(sk[k - 2], cs[k - 1])
            },
        )
    }
}

/// Commits to a polynomial coefficient by coefficient in G2, using the
/// bare generator for the constant term and the trapdoor powers above
/// it.
#[verifier::loop_isolation(false)]
fn commit_h(h: &Polynomial, g2sk: &Vec<G2Elem>) -> (r: G2Elem)
    requires
        h@.len() <= g2sk@.len() + 1,
    ensures
        r@ == h_commit(h@, g2_views(g2sk@), h@.len() as int),
{
    let g2 = g2_generator();
    let mut acc = g2_smul(&g2, &Scalar::from_u64(0));
    let mut i: usize = 0;
    let n = h.len();
    while i < n
        invariant
            i <= n,
            n == h@.len(),
            n <= g2sk@.len() + 1,
            acc@ == h_commit(h@, g2_views(g2sk@), i as int),
        decreases n - i,
    {
        let c = h.coefficient(i);
        proof {
            assert(c@ == h@[i as int]);
        }
        let term = if i == 0 {
            g2_smul(&g2, &c)
        } else {
            g2_smul(&g2sk[i - 1], &c)
        };
        proof {
            if i > 0 {
                assert(g2_views(g2sk@)[i - 1] == g2sk@[i - 1]@);
            }
        }
        acc = g2_add(&acc, &term);
        i += 1;
    }
    acc
}

/// The satisfaction value of one gate's slot: the witness value of the
/// slot's variable times the slot's coefficient.
pub open spec fn slot_val(w: Seq<(Seq<char>, int)>, v: Seq<char>, c: int) -> int {
    match wit_lookup(w, v) {
        None => 0,
        Some(x) => (x * c) % fr_order(),
    }
}

/// Every variable of every gate is bound by the witness.
pub open spec fn gates_bound(gs: Seq<GateModel>, w: Seq<(Seq<char>, int)>) -> bool {
    forall|i: int| 0 <= i < gs.len() ==> {
        &&& wit_lookup(w, (#[trigger] gs[i]).lv) is Some
        &&& wit_lookup(w, gs[i].rv) is Some
        &&& wit_lookup(w, gs[i].ov) is Some
    }
}

/// The witness satisfies every gate exactly: the product of the left
/// and right slot values equals the output slot value in the field.
pub open spec fn circuit_satisfied(gs: Seq<GateModel>, w: Seq<(Seq<char>, int)>) -> bool {
    forall|i: int| 0 <= i < gs.len() ==> (slot_val(w, (#[trigger] gs[i]).lv, gs[i].lc) * slot_val(
        w,
        gs[i].rv,
        gs[i].rc,
    )) % fr_order() == slot_val(w, gs[i].ov, 1)
}

/// Checks the witness against every gate: whether each gate's products
/// balance, or [`WitnessError::MissingVariable`] when a variable is
/// unbound.
#[verifier::loop_isolation(false)]
pub fn check_witness(gates: &Vec<Gate>, witness: &Vec<(String, u64)>) -> (r: Result<
    bool,
    WitnessError,
>)
    ensures
        (r is Ok) <==> gates_bound(gate_views(gates@), wit_views(witness@)),
        (r matches Err(e) ==> e == WitnessError::MissingVariable),
        r matches Ok(b) ==> b == circuit_satisfied(gate_views(gates@), wit_views(witness@)),
{
    let ghost gs = gate_views(gates@);
    let ghost wv = wit_views(witness@);
    let mut ok = true;
    let mut i: usize = 0;
    while i < gates.len()
        invariant
            i <= gates@.len(),
            forall|j: int| 0 <= j < i ==> {
                &&& wit_lookup(wv, (#[trigger] gs[j]).lv) is Some
                &&& wit_lookup(wv, gs[j].rv) is Some
                &&& wit_lookup(wv, gs[j].ov) is Some
            },
            ok == (forall|j: int| 0 <= j < i ==> (slot_val(wv, (#[trigger] gs[j]).lv, gs[j].lc)
                * slot_val(wv, gs[j].rv, gs[j].rc)) % fr_order() == slot_val(wv, gs[j].ov, 1)),
        decreases gates@.len() - i,
    {
        let g = &gates[i];
        proof {
            assert(gs[i as int] == gates@[i as int]@);
        }
        let lx = match lookup_witness(witness, &g.left_var) {
            None => {
                return Err(WitnessError::MissingVariable);
            },
            Some(x) => x,
        };
        let rx = match lookup_witness(witness, &g.right_var) {
            None => {
                return Err(WitnessError::MissingVariable);
            },
            Some(x) => x,
        };
        let ox = match lookup_witness(witness, &g.out_var) {
            None => {
                return Err(WitnessError::MissingVariable);
            },
            Some(x) => x,
        };
        let lval = Scalar::from_u64(lx).mul(&g.left_coeff);
        let rval = Scalar::from_u64(rx).mul(&g.right_coeff);
        let oval = Scalar::from_u64(ox).mul(&Scalar::from_u64(1));
        let prod = lval.mul(&rval);
        let this_ok = prod.equals(&oval);
        proof {
            let m = fr_order();
            assert(slot_val(wv, gs[i as int].lv, gs[i as int].lc) == lval@);
            assert(slot_val(wv, gs[i as int].rv, gs[i as int].rc) == rval@);
            assert(slot_val(wv, gs[i as int].ov, 1) == oval@) by {
                let x = wit_lookup(wv, gs[i as int].ov).unwrap();
                vstd::arithmetic::div_mod::lemma_mod_twice(x * 1, m);
            }
        }
        ok = ok && this_ok;
        i += 1;
    }
    Ok(ok)
}

/// The ghost record of one proof generation: the blinding scalars, the
/// quotient and remainder of the division, and the blinded quotient
/// that was committed.
pub struct ProverTrace {
    pub dl: int,
    pub dr: int,
    pub dq: int,
    pub q1: Seq<int>,
    pub rem: Seq<int>,
    pub h: Seq<int>,
}

/// The proving key's vector lengths agree with the QAP it serves.
pub open spec fn pk_matches_qap(kv: Seq<Seq<GroupElemView>>, q: QapView) -> bool {
    &&& kv[0].len() == q.left_vars.len()
    &&& kv[1].len() == q.right_vars.len()
    &&& kv[2].len() == q.out_vars.len()
    &&& kv[3].len() == q.left_vars.len()
    &&& kv[5].len() == q.out_vars.len()
    &&& kv[6].len() == q.left_vars.len()
    &&& kv[7].len() == q.right_vars.len()
    &&& kv[8].len() == q.out_vars.len()
    &&& kv[11].len() == q.right_vars.len()
    &&& kv[12].len() == q.right_vars.len()
    &&& kv[13].len() == q.gate_count
}

/// The nine proof elements, as the folds of the group operations over
/// the key, the witness weights, the blinding scalars and the blinded
/// quotient.
pub open spec fn spec_proof(
    kv: Seq<Seq<GroupElemView>>,
    lws: Seq<int>,
    rws: Seq<int>,
    ows: Seq<int>,
    h: Seq<int>,
    dl: int,
    dr: int,
    dq: int,
) -> crate::codec::ProofView {
    crate::codec::ProofView {
        lop: g1_add_of(
            g1_comb(bytes_of(kv[0]), lws, kv[0].len() as int),
            g1_smul_of(gev_bytes(kv[9][0]), dl),
        ),
        rop: g1_add_of(
            g1_comb(bytes_of(kv[1]), rws, kv[1].len() as int),
            g1_smul_of(gev_bytes(kv[9][1]), dr),
        ),
        oop: g1_add_of(
            g1_comb(bytes_of(kv[2]), ows, kv[2].len() as int),
            g1_smul_of(gev_bytes(kv[9][2]), dq),
        ),
        lop_shift: g1_add_of(
            g1_comb(bytes_of(kv[3]), lws, kv[3].len() as int),
            g1_smul_of(gev_bytes(kv[9][3]), dl),
        ),
        oop_shift: g1_add_of(
            g1_comb(bytes_of(kv[5]), ows, kv[5].len() as int),
            g1_smul_of(gev_bytes(kv[9][5]), dq),
        ),
        z: g1_add_of(
            g1_add_of(
                g1_add_of(
                    g1_smul_of(gev_bytes(kv[9][6]), dl),
                    g1_smul_of(gev_bytes(kv[9][7]), dr),
                ),
                g1_smul_of(gev_bytes(kv[9][8]), dq),
            ),
            g1_add_of(
                g1_add_of(
                    g1_comb(bytes_of(kv[6]), lws, kv[6].len() as int),
                    g1_comb(bytes_of(kv[7]), rws, kv[7].len() as int),
                ),
                g1_comb(bytes_of(kv[8]), ows, kv[8].len() as int),
            ),
        ),
        rop2: g2_add_of(
            g2_comb(bytes_of(kv[11]), rws, kv[11].len() as int),
            g2_smul_of(gev_bytes(kv[10][0]), dr),
        ),
        rop2_shift: g2_add_of(
            g2_comb(bytes_of(kv[12]), rws, kv[12].len() as int),
            g2_smul_of(gev_bytes(kv[10][1]), dr),
        ),
        h: h_commit(h, bytes_of(kv[13]), h.len() as int),
    }
}

/// The witness-weighted polynomial from precomputed weights.
#[verifier::loop_isolation(false)]
fn wsum_poly(polys: &Vec<Polynomial>, ws: &Vec<Scalar>) -> (r: Polynomial)
    requires
        polys@.len() == ws@.len(),
    ensures
        r@ == fold_wsum(poly_views(polys@), views_of(ws@), polys@.len() as int),
{
    let mut acc = Polynomial::zero();
    let mut i: usize = 0;
    proof {
        assert(acc@ =~= fold_wsum(poly_views(polys@), views_of(ws@), 0));
    }
    while i < polys.len()
        invariant
            i <= polys@.len(),
            ws@.len() == polys@.len(),
            acc@ == fold_wsum(poly_views(polys@), views_of(ws@), i as int),
        decreases polys@.len() - i,
    {
        let p = &polys[i];
        let w = &ws[i];
        let scaled = p.scalar_multiply(w);
        let next = acc.add(&scaled);
        proof {
            assert(w@ == views_of(ws@)[i as int]);
            assert(poly_views(polys@)[i as int] == polys@[i as int]@);
        }
        acc = next;
        i += 1;
    }
    acc
}

/// A weighted sum of polynomials of bounded length stays bounded.
proof fn lemma_fold_wsum_len(polys: Seq<Seq<int>>, ws: Seq<int>, k: int, bound: int)
    requires
        forall|j: int| 0 <= j < polys.len() ==> (#[trigger] polys[j]).len() <= bound,
        k <= polys.len(),
        bound >= 0,
    ensures
        fold_wsum(polys, ws, k).len() <= bound,
    decreases k,
{
    if k > 0 {
        lemma_fold_wsum_len(polys, ws, k - 1, bound);
    }
}

/// A generated proof is well built: the key has the right shape for
/// the compiled QAP, every witness weight exists, the recorded
/// quotient and remainder divide `L·R - O` by the vanishing
/// polynomial, the committed polynomial is the blinded quotient, and
/// the nine elements are exactly the folds of [`spec_proof`].
pub open spec fn proof_well_built(
    kv: Seq<Seq<GroupElemView>>,
    gs: Seq<GateModel>,
    wv: Seq<(Seq<char>, int)>,
    prf: crate::codec::ProofView,
    tr: ProverTrace,
) -> bool {
    let q = spec_qap(gs);
    &&& pk_shape_ok(kv)
    &&& pk_matches_qap(kv, q)
    &&& spec_weights(wv, q.left_vars) matches Some(lws) && spec_weights(wv, q.right_vars)
        matches Some(rws) && spec_weights(wv, q.out_vars) matches Some(ows) && {
        let ll = fold_wsum(q.left_polys, lws, q.left_polys.len() as int);
        let rr2 = fold_wsum(q.right_polys, rws, q.right_polys.len() as int);
        let oo = fold_wsum(q.out_polys, ows, q.out_polys.len() as int);
        &&& peq(psub(pmul(ll, rr2), oo), padd(pmul(tr.q1, q.vanishing), tr.rem))
        &&& tr.rem.len() < ptrim(q.vanishing).len()
        &&& tr.h == padd(
            tr.q1,
            psub(
                padd(
                    padd(pscale(tr.dr, ll), pscale(tr.dl, rr2)),
                    pscale((tr.dl * tr.dr) % fr_order(), q.vanishing),
                ),
                seq![tr.dq],
            ),
        )
        &&& prf == spec_proof(kv, lws, rws, ows, tr.h, tr.dl, tr.dr, tr.dq)
    }
}

/// Generates a proof from a decoded proving key, the circuit text and
/// the witness, without checking that the witness satisfies the
/// circuit: the verifier, not the prover, is the final arbiter. The
/// ghost trace records the blinding scalars and the quotient so that
/// every emitted element is pinned.
#[verifier::loop_isolation(false)]
#[verifier::rlimit(60)]
pub fn build_proof(
    pk: &Vec<Vec<GroupElem>>,
    source: &str,
    witness: &Vec<(String, u64)>,
) -> (r: Result<(Proof, Ghost<ProverTrace>), ProverError>)
    requires
        source@.len() < usize::MAX / 16,
    ensures
        (match (r, spec_parse_circuit(source@)) {
            (Err(ProverError::Circuit(e)), Err(e2)) => e == e2,
            (_, Err(_)) => false,
            (rr, Ok(gs)) => {
                let q = spec_qap(gs);
                let wv = wit_views(witness@);
                let kv = key_views(pk@);
                match rr {
                    Err(ProverError::Circuit(_)) => false,
                    Err(ProverError::Witness(e)) => e == WitnessError::MissingVariable && (
                    spec_weights(wv, q.left_vars) is None || spec_weights(wv, q.right_vars)
                        is None || spec_weights(wv, q.out_vars) is None),
                    Err(ProverError::BadKey) => !(pk_shape_ok(kv) && pk_matches_qap(kv, q)),
                    Ok(pg) => proof_well_built(kv, gs, wv, pg.0@, pg.1@),
                }
            },
        }),
{
    let gates = match parse_circuit(source) {
        Err(e) => {
            return Err(ProverError::Circuit(e));
        },
        Ok(g) => g,
    };
    let ghost gs = gate_views(gates@);
    let qap = compile_qap(&gates);
    proof {
        assert(qap@ == spec_qap(gs));
        assert(str_views(qap.left_vars@) == spec_qap(gs).left_vars);
        assert(str_views(qap.right_vars@) == spec_qap(gs).right_vars);
        assert(str_views(qap.out_vars@) == spec_qap(gs).out_vars);
        assert(poly_views(qap.left_polys@) == spec_qap(gs).left_polys);
        assert(poly_views(qap.right_polys@) == spec_qap(gs).right_polys);
        assert(poly_views(qap.out_polys@) == spec_qap(gs).out_polys);
        assert(qap.vanishing@ == spec_qap(gs).vanishing);
        assert(poly_views(qap.left_polys@).len() == qap.left_polys@.len());
        assert(str_views(qap.left_vars@).len() == qap.left_vars@.len());
        assert(spec_qap(gs).left_polys.len() == spec_qap(gs).left_vars.len());
        assert(poly_views(qap.right_polys@).len() == qap.right_polys@.len());
        assert(str_views(qap.right_vars@).len() == qap.right_vars@.len());
        assert(spec_qap(gs).right_polys.len() == spec_qap(gs).right_vars.len());
        assert(poly_views(qap.out_polys@).len() == qap.out_polys@.len());
        assert(str_views(qap.out_vars@).len() == qap.out_vars@.len());
        assert(spec_qap(gs).out_polys.len() == spec_qap(gs).out_vars.len());
    }
    let lws = match witness_weights(witness, &qap.left_vars) {
        Err(e) => {
            return Err(ProverError::Witness(e));
        },
        Ok(v) => v,
    };
    let rws = match witness_weights(witness, &qap.right_vars) {
        Err(e) => {
            return Err(ProverError::Witness(e));
        },
        Ok(v) => v,
    };
    let ows = match witness_weights(witness, &qap.out_vars) {
        Err(e) => {
            return Err(ProverError::Witness(e));
        },
        Ok(v) => v,
    };
    let parts = match pk_parts(pk) {
        Err(e) => {
            return Err(e);
        },
        Ok(p) => p,
    };
    let n = gates.len();
    if parts.gl_l.len() != qap.left_vars.len() || parts.gr_r.len() != qap.right_vars.len()
        || parts.go_o.len() != qap.out_vars.len() || parts.gl_alpha_l.len()
        != qap.left_vars.len() || parts.go_alpha_o.len() != qap.out_vars.len()
        || parts.gl_beta_l.len() != qap.left_vars.len() || parts.gr_beta_r.len()
        != qap.right_vars.len() || parts.go_beta_o.len() != qap.out_vars.len()
        || parts.gr2_r.len() != qap.right_vars.len() || parts.gr2_alpha_r.len()
        != qap.right_vars.len() || parts.g2sk.len() != n {
        proof {
            let kv = key_views(pk@);
            assert(g1_views(parts.gl_l@).len() == bytes_of(kv[0]).len());
            assert(g1_views(parts.gr_r@).len() == bytes_of(kv[1]).len());
            assert(g1_views(parts.go_o@).len() == bytes_of(kv[2]).len());
            assert(g1_views(parts.gl_alpha_l@).len() == bytes_of(kv[3]).len());
            assert(g1_views(parts.go_alpha_o@).len() == bytes_of(kv[5]).len());
            assert(g1_views(parts.gl_beta_l@).len() == bytes_of(kv[6]).len());
            assert(g1_views(parts.gr_beta_r@).len() == bytes_of(kv[7]).len());
            assert(g1_views(parts.go_beta_o@).len() == bytes_of(kv[8]).len());
            assert(g2_views(parts.gr2_r@).len() == bytes_of(kv[11]).len());
            assert(g2_views(parts.gr2_alpha_r@).len() == bytes_of(kv[12]).len());
            assert(g2_views(parts.g2sk@).len() == bytes_of(kv[13]).len());
            assert(spec_qap(gs).gate_count == gs.len());
        }
        return Err(ProverError::BadKey);
    }
    proof {
        let kv = key_views(pk@);
        assert(g1_views(parts.gl_l@).len() == bytes_of(kv[0]).len());
        assert(g1_views(parts.gr_r@).len() == bytes_of(kv[1]).len());
        assert(g1_views(parts.go_o@).len() == bytes_of(kv[2]).len());
        assert(g1_views(parts.gl_alpha_l@).len() == bytes_of(kv[3]).len());
        assert(g1_views(parts.go_alpha_o@).len() == bytes_of(kv[5]).len());
        assert(g1_views(parts.gl_beta_l@).len() == bytes_of(kv[6]).len());
        assert(g1_views(parts.gr_beta_r@).len() == bytes_of(kv[7]).len());
        assert(g1_views(parts.go_beta_o@).len() == bytes_of(kv[8]).len());
        assert(g2_views(parts.gr2_r@).len() == bytes_of(kv[11]).len());
        assert(g2_views(parts.gr2_alpha_r@).len() == bytes_of(kv[12]).len());
        assert(g2_views(parts.g2sk@).len() == bytes_of(kv[13]).len());
        assert(spec_qap(gs).gate_count == gs.len());
        assert(pk_matches_qap(kv, spec_qap(gs)));
    }
    proof {
        assert(qap.left_polys@.len() == qap.left_vars@.len());
        assert(qap.right_polys@.len() == qap.right_vars@.len());
        assert(qap.out_polys@.len() == qap.out_vars@.len());
    }
    if qap.left_polys.len() != qap.left_vars.len() || qap.right_polys.len()
        != qap.right_vars.len() || qap.out_polys.len() != qap.out_vars.len() {
        proof {
            assert(false);
        }
        return Err(ProverError::BadKey);
    }
    let lp = wsum_poly(&qap.left_polys, &lws);
    let rp = wsum_poly(&qap.right_polys, &rws);
    let op_ = wsum_poly(&qap.out_polys, &ows);
    let pp = lp.multiply(&rp).sub(&op_);
    proof {
        crate::qap::lemma_vanishing_monic(n as int);
        assert(qap.vanishing@ == crate::qap::spec_vanishing(n as int));
        assert(ptrim(qap.vanishing@).len() == n + 1);
    }
    let divided = pp.divide_with_remainder(&qap.vanishing);
    let (q1, rem) = match divided {
        Err(_) => {
            proof {
                assert(false);
            }
            return Err(ProverError::BadKey);
        },
        Ok(t) => t,
    };
    let dl = Scalar::sample();
    let dr = Scalar::sample();
    let dq = Scalar::sample();
    let dlr = dl.mul(&dr);
    let h2 = lp.scalar_multiply(&dr).add(&rp.scalar_multiply(&dl)).add(
        &qap.vanishing.scalar_multiply(&dlr),
    );
    let dconst = Polynomial::from_coeffs(vec![dq.clone()]);
    proof {
        assert(dconst@ =~= seq![dq@]);
    }
    let hb = h2.sub(&dconst);
    let h = q1.add(&hb);
    proof {
        // the committed polynomial never outgrows the power vector
        let qv = spec_qap(gs);
        crate::qap::lemma_sel_polys_len(gs, WireType::Left);
        crate::qap::lemma_sel_polys_len(gs, WireType::Right);
        crate::qap::lemma_sel_polys_len(gs, WireType::Output);
        lemma_fold_wsum_len(qv.left_polys, views_of(lws@), qv.left_polys.len() as int, n as int);
        lemma_fold_wsum_len(
            qv.right_polys,
            views_of(rws@),
            qv.right_polys.len() as int,
            n as int,
        );
        lemma_fold_wsum_len(qv.out_polys, views_of(ows@), qv.out_polys.len() as int, n as int);
        crate::poly::lemma_pmul_len(lp@, rp@);
        assert(pp@.len() <= if 2 * n >= 1 {
            2 * n - 1
        } else {
            0int
        });
        assert(q1@.len() <= n as int);
        assert(hb@.len() <= n + 1);
        assert(h@.len() <= n + 1);
        assert(seq![dq@] =~= Seq::<int>::empty().push(dq@));
    }
    let g2h = commit_h(&h, &parts.g2sk);
    let glt_dl = g1_smul(&parts.pk2[0], &dl);
    let grt_dr = g1_smul(&parts.pk2[1], &dr);
    let got_dq = g1_smul(&parts.pk2[2], &dq);
    let glalt_dl = g1_smul(&parts.pk2[3], &dl);
    let goalt_dq = g1_smul(&parts.pk2[5], &dq);
    let gr2t_dr = g2_smul(&parts.gr2_t, &dr);
    let gr2alt_dr = g2_smul(&parts.gr2_alphar_t, &dr);
    let g_lop = compute_encrypted_polynomial_evaluation(&parts.gl_l, &lws, &glt_dl);
    let g_rop = compute_encrypted_polynomial_evaluation(&parts.gr_r, &rws, &grt_dr);
    let g_oop = compute_encrypted_polynomial_evaluation(&parts.go_o, &ows, &got_dq);
    let g_lop_shift = compute_encrypted_polynomial_evaluation(&parts.gl_alpha_l, &lws, &glalt_dl);
    let g_oop_shift = compute_encrypted_polynomial_evaluation(&parts.go_alpha_o, &ows, &goalt_dq);
    let g2_rop = compute_encrypted_polynomial_evaluation_g2(&parts.gr2_r, &rws, &gr2t_dr);
    let g2_rop_shift = compute_encrypted_polynomial_evaluation_g2(
        &parts.gr2_alpha_r,
        &rws,
        &gr2alt_dr,
    );
    let z1 = g1_add(
        &g1_add(&g1_smul(&parts.pk2[6], &dl), &g1_smul(&parts.pk2[7], &dr)),
        &g1_smul(&parts.pk2[8], &dq),
    );
    let zl = compute_encrypted_beta_polynomial_evaluation(&parts.gl_beta_l, &lws);
    let zr = compute_encrypted_beta_polynomial_evaluation(&parts.gr_beta_r, &rws);
    let zo = compute_encrypted_beta_polynomial_evaluation(&parts.go_beta_o, &ows);
    let z2 = g1_add(&g1_add(&zl, &zr), &zo);
    let g_z = g1_add(&z1, &z2);
    let prf = Proof {
        g_lop,
        g_rop,
        g_oop,
        g_lop_shift,
        g_oop_shift,
        g_z,
        g2_rop,
        g2_rop_shift,
        g2_h: g2h,
    };
    let ghost tr = ProverTrace { dl: dl@, dr: dr@, dq: dq@, q1: q1@, rem: rem@, h: h@ };
    proof {
        let kv = key_views(pk@);
        assert(g1_views(parts.pk2@)[0] == parts.pk2@[0]@);
        assert(g1_views(parts.pk2@)[1] == parts.pk2@[1]@);
        assert(g1_views(parts.pk2@)[2] == parts.pk2@[2]@);
        assert(g1_views(parts.pk2@)[3] == parts.pk2@[3]@);
        assert(g1_views(parts.pk2@)[5] == parts.pk2@[5]@);
        assert(g1_views(parts.pk2@)[6] == parts.pk2@[6]@);
        assert(g1_views(parts.pk2@)[7] == parts.pk2@[7]@);
        assert(g1_views(parts.pk2@)[8] == parts.pk2@[8]@);
        assert(bytes_of(kv[9])[0] == gev_bytes(kv[9][0]));
        assert(bytes_of(kv[9])[1] == gev_bytes(kv[9][1]));
        assert(bytes_of(kv[9])[2] == gev_bytes(kv[9][2]));
        assert(bytes_of(kv[9])[3] == gev_bytes(kv[9][3]));
        assert(bytes_of(kv[9])[5] == gev_bytes(kv[9][5]));
        assert(bytes_of(kv[9])[6] == gev_bytes(kv[9][6]));
        assert(bytes_of(kv[9])[7] == gev_bytes(kv[9][7]));
        assert(bytes_of(kv[9])[8] == gev_bytes(kv[9][8]));
        assert(bytes_of(kv[10])[0] == gev_bytes(kv[10][0]));
        assert(bytes_of(kv[10])[1] == gev_bytes(kv[10][1]));
        let q = spec_qap(gs);
        let lwsv = views_of(lws@);
        let rwsv = views_of(rws@);
        let owsv = views_of(ows@);
        let sp = spec_proof(kv, lwsv, rwsv, owsv, tr.h, tr.dl, tr.dr, tr.dq);
        assert(prf.g_lop@ == sp.lop);
        assert(prf.g_rop@ == sp.rop);
        assert(prf.g_oop@ == sp.oop);
        assert(prf.g_lop_shift@ == sp.lop_shift);
        assert(prf.g_oop_shift@ == sp.oop_shift);
        assert(prf.g_z@ == sp.z);
        assert(prf.g2_rop@ == sp.rop2);
        assert(prf.g2_rop_shift@ == sp.rop2_shift);
        assert(prf.g2_h@ == sp.h) by {
            assert(g2_views(parts.g2sk@) == bytes_of(kv[13]));
        }
        assert(prf@ == sp);
        // the committed polynomial is the blinded quotient
        assert(hb@ == psub(
            padd(
                padd(pscale(tr.dr, lp@), pscale(tr.dl, rp@)),
                pscale((tr.dl * tr.dr) % fr_order(), q.vanishing),
            ),
            seq![tr.dq],
        )) by {
            assert(dconst@ == seq![tr.dq]);
            assert(qap.vanishing@ == q.vanishing);
            assert(dlr@ == (tr.dl * tr.dr) % fr_order());
        }
        assert(tr.h == padd(tr.q1, hb@));
    }
    Ok((prf, Ghost(tr)))
}

/// Generates a proof as an honest prover: the witness is first checked
/// against every gate, and an unsatisfied circuit is refused with
/// [`WitnessError::UnsatisfiedCircuit`].
pub fn prove(
    pk: &Vec<Vec<GroupElem>>,
    source: &str,
    witness: &Vec<(String, u64)>,
) -> (r: Result<(Proof, Ghost<ProverTrace>), ProverError>)
    requires
        source@.len() < usize::MAX / 16,
    ensures
        r matches Ok(pg) ==> (spec_parse_circuit(source@) matches Ok(gs) && circuit_satisfied(
            gs,
            wit_views(witness@),
        ) && proof_well_built(key_views(pk@), gs, wit_views(witness@), pg.0@, pg.1@)),
        (spec_parse_circuit(source@) matches Ok(gs) && gates_bound(gs, wit_views(witness@))
            && !circuit_satisfied(gs, wit_views(witness@))) ==> r matches Err(
            ProverError::Witness(WitnessError::UnsatisfiedCircuit),
        ),
{
    let gates = match parse_circuit(source) {
        Err(e) => {
            return Err(ProverError::Circuit(e));
        },
        Ok(g) => g,
    };
    match check_witness(&gates, witness) {
        Err(e) => {
            return Err(ProverError::Witness(e));
        },
        Ok(b) => {
            if !b {
                return Err(ProverError::Witness(WitnessError::UnsatisfiedCircuit));
            }
        },
    }
    build_proof(pk, source, witness)
}

/// The value at `x` of the witness-weighted combination of the first
/// `k` polynomials.
pub open spec fn wsum_val(polys: Seq<Seq<int>>, ws: Seq<int>, k: int, x: int) -> int
    decreases k,
{
    if k <= 0 {
        0
    } else {
        (wsum_val(polys, ws, k - 1, x) + ws[k - 1] * poly_eval(polys[k - 1], x)) % fr_order()
    }
}

/// Evaluating the weighted polynomial sum gives the weighted sum of
/// the values.
pub proof fn lemma_eval_fold_wsum(polys: Seq<Seq<int>>, ws: Seq<int>, k: int, x: int)
    ensures
        poly_eval(fold_wsum(polys, ws, k), x) == wsum_val(polys, ws, k, x),
    decreases k,
{
    let m = fr_order();
    if k <= 0 {
    } else {
        lemma_eval_fold_wsum(polys, ws, k - 1, x);
        crate::poly::lemma_eval_padd(fold_wsum(polys, ws, k - 1), pscale(ws[k - 1], polys[k - 1]), x);
        crate::poly::lemma_eval_pscale(ws[k - 1], polys[k - 1], x);
        let a = wsum_val(polys, ws, k - 1, x);
        let we = ws[k - 1] * poly_eval(polys[k - 1], x);
        // (a + (we % m)) % m == (a + we) % m
        crate::poly::lemma_eval_range(fold_wsum(polys, ws, k - 1), x);
        vstd::arithmetic::div_mod::lemma_add_mod_noop(a, we, m);
        vstd::arithmetic::div_mod::lemma_add_mod_noop(a, we % m, m);
        vstd::arithmetic::div_mod::lemma_mod_twice(we, m);
    }
}

/// The polynomial `L·R - O` that the prover divides by the vanishing
/// polynomial.
pub open spec fn qap_poly(q: QapView, lws: Seq<int>, rws: Seq<int>, ows: Seq<int>) -> Seq<int> {
    psub(
        pmul(
            fold_wsum(q.left_polys, lws, q.left_polys.len() as int),
            fold_wsum(q.right_polys, rws, q.right_polys.len() as int),
        ),
        fold_wsum(q.out_polys, ows, q.out_polys.len() as int),
    )
}

/// The weighted wire values of gate `i` multiply exactly: the value of
/// the left combination times the right one equals the output one.
pub open spec fn gate_balanced(q: QapView, lws: Seq<int>, rws: Seq<int>, ows: Seq<int>, i: int) -> bool {
    (wsum_val(q.left_polys, lws, q.left_polys.len() as int, i) * wsum_val(
        q.right_polys,
        rws,
        q.right_polys.len() as int,
        i,
    )) % fr_order() == wsum_val(q.out_polys, ows, q.out_polys.len() as int, i)
}

/// Every coefficient is zero.
pub open spec fn is_zero_coeffs(p: Seq<int>) -> bool {
    forall|j: int| 0 <= j < p.len() ==> #[trigger] p[j] == 0
}

/// QAP soundness, positive direction: when the witness balances a
/// gate, the division remainder of `L·R - O` by the vanishing
/// polynomial vanishes at that gate's index. With every gate balanced
/// the remainder therefore vanishes on the whole evaluation domain.
pub proof fn lemma_qap_soundness_positive(
    q: QapView,
    lws: Seq<int>,
    rws: Seq<int>,
    ows: Seq<int>,
    qv: Seq<int>,
    rem: Seq<int>,
    i: int,
)
    requires
        q.vanishing == crate::qap::spec_vanishing(q.gate_count),
        peq(qap_poly(q, lws, rws, ows), padd(pmul(qv, q.vanishing), rem)),
        1 <= i <= q.gate_count < fr_order(),
        gate_balanced(q, lws, rws, ows, i),
    ensures
        poly_eval(rem, i) == 0,
{
    let m = fr_order();
    let ll = fold_wsum(q.left_polys, lws, q.left_polys.len() as int);
    let rr = fold_wsum(q.right_polys, rws, q.right_polys.len() as int);
    let oo = fold_wsum(q.out_polys, ows, q.out_polys.len() as int);
    let lv = wsum_val(q.left_polys, lws, q.left_polys.len() as int, i);
    let rv = wsum_val(q.right_polys, rws, q.right_polys.len() as int, i);
    let ov = wsum_val(q.out_polys, ows, q.out_polys.len() as int, i);
    // the left side evaluates to (lv·rv - ov) mod m, which is zero
    crate::poly::lemma_eval_psub(pmul(ll, rr), oo, i);
    crate::poly::lemma_eval_pmul(ll, rr, i);
    lemma_eval_fold_wsum(q.left_polys, lws, q.left_polys.len() as int, i);
    lemma_eval_fold_wsum(q.right_polys, rws, q.right_polys.len() as int, i);
    lemma_eval_fold_wsum(q.out_polys, ows, q.out_polys.len() as int, i);
    assert(poly_eval(qap_poly(q, lws, rws, ows), i) == ((lv * rv) % m - ov) % m);
    assert(((lv * rv) % m - ov) % m == 0) by {
        assert((lv * rv) % m == ov);
        assert((ov - ov) % m == 0);
    }
    // the right side evaluates to the remainder's value
    crate::poly::lemma_eval_padd(pmul(qv, q.vanishing), rem, i);
    crate::poly::lemma_eval_pmul(qv, q.vanishing, i);
    crate::qap::lemma_vanishing_eval(q.gate_count, i);
    assert(poly_eval(q.vanishing, i) == 0);
    assert((poly_eval(qv, i) * 0) % m == 0);
    crate::poly::lemma_eval_range(rem, i);
    vstd::arithmetic::div_mod::lemma_small_mod(poly_eval(rem, i) as nat, m as nat);
    assert(poly_eval(padd(pmul(qv, q.vanishing), rem), i) == poly_eval(rem, i));
    crate::poly::lemma_eval_peq(qap_poly(q, lws, rws, ows), padd(pmul(qv, q.vanishing), rem), i);
}

/// QAP soundness, positive direction over the whole domain: a witness
/// that balances every gate leaves a remainder that vanishes at every
/// gate index of the evaluation domain.
pub proof fn lemma_qap_soundness_positive_domain(
    q: QapView,
    lws: Seq<int>,
    rws: Seq<int>,
    ows: Seq<int>,
    qv: Seq<int>,
    rem: Seq<int>,
)
    requires
        q.vanishing == crate::qap::spec_vanishing(q.gate_count),
        peq(qap_poly(q, lws, rws, ows), padd(pmul(qv, q.vanishing), rem)),
        q.gate_count < fr_order(),
        forall|i: int| 1 <= i <= q.gate_count ==> gate_balanced(q, lws, rws, ows, i),
    ensures
        forall|i: int| 1 <= i <= q.gate_count ==> poly_eval(rem, i) == 0,
{
    assert forall|i: int| 1 <= i <= q.gate_count implies poly_eval(rem, i) == 0 by {
        lemma_qap_soundness_positive(q, lws, rws, ows, qv, rem, i);
    }
}

/// QAP soundness, negative direction: a witness that violates one gate
/// leaves a non-zero remainder.
pub proof fn lemma_qap_soundness_negative(
    q: QapView,
    lws: Seq<int>,
    rws: Seq<int>,
    ows: Seq<int>,
    qv: Seq<int>,
    rem: Seq<int>,
    i: int,
)
    requires
        q.vanishing == crate::qap::spec_vanishing(q.gate_count),
        peq(qap_poly(q, lws, rws, ows), padd(pmul(qv, q.vanishing), rem)),
        1 <= i <= q.gate_count < fr_order(),
        !gate_balanced(q, lws, rws, ows, i),
    ensures
        !is_zero_coeffs(rem),
{
    let m = fr_order();
    let ll = fold_wsum(q.left_polys, lws, q.left_polys.len() as int);
    let rr = fold_wsum(q.right_polys, rws, q.right_polys.len() as int);
    let oo = fold_wsum(q.out_polys, ows, q.out_polys.len() as int);
    let lv = wsum_val(q.left_polys, lws, q.left_polys.len() as int, i);
    let rv = wsum_val(q.right_polys, rws, q.right_polys.len() as int, i);
    let ov = wsum_val(q.out_polys, ows, q.out_polys.len() as int, i);
    crate::poly::lemma_eval_psub(pmul(ll, rr), oo, i);
    crate::poly::lemma_eval_pmul(ll, rr, i);
    lemma_eval_fold_wsum(q.left_polys, lws, q.left_polys.len() as int, i);
    lemma_eval_fold_wsum(q.right_polys, rws, q.right_polys.len() as int, i);
    lemma_eval_fold_wsum(q.out_polys, ows, q.out_polys.len() as int, i);
    assert(poly_eval(qap_poly(q, lws, rws, ows), i) == ((lv * rv) % m - ov) % m);
    // a zero value here would mean a balanced gate
    assert(((lv * rv) % m - ov) % m != 0) by {
        if ((lv * rv) % m - ov) % m == 0 {
            let a = (lv * rv) % m;
            vstd::arithmetic::div_mod::lemma_mod_bound(lv * rv, m);
            // ov is a reduced residue by construction
            if q.out_polys.len() as int <= 0 {
                assert(ov == 0);
            } else {
                vstd::arithmetic::div_mod::lemma_mod_bound(
                    wsum_val(
                        q.out_polys,
                        ows,
                        q.out_polys.len() as int - 1,
                        i,
                    ) + ows[q.out_polys.len() as int - 1] * poly_eval(
                        q.out_polys[q.out_polys.len() as int - 1],
                        i,
                    ),
                    m,
                );
            }
            assert(0 <= ov < m);
            assert(0 <= a < m);
            if a >= ov {
                vstd::arithmetic::div_mod::lemma_small_mod((a - ov) as nat, m as nat);
            } else {
                vstd::arithmetic::div_mod::lemma_mod_add_multiples_vanish(a - ov, m);
                vstd::arithmetic::div_mod::lemma_small_mod((a - ov + m) as nat, m as nat);
            }
            assert(a == ov);
            assert(false);
        }
    }
    crate::poly::lemma_eval_padd(pmul(qv, q.vanishing), rem, i);
    crate::poly::lemma_eval_pmul(qv, q.vanishing, i);
    crate::qap::lemma_vanishing_eval(q.gate_count, i);
    crate::poly::lemma_eval_range(rem, i);
    vstd::arithmetic::div_mod::lemma_small_mod(poly_eval(rem, i) as nat, m as nat);
    crate::poly::lemma_eval_peq(qap_poly(q, lws, rws, ows), padd(pmul(qv, q.vanishing), rem), i);
    assert(poly_eval(rem, i) != 0);
    if is_zero_coeffs(rem) {
        crate::poly::lemma_eval_zero(rem, i);
    }
}

/// Each weight is the reduced witness value of its variable.
proof fn lemma_spec_weights_index(w: Seq<(Seq<char>, int)>, vars: Seq<Seq<char>>, k: int)
    requires
        spec_weights(w, vars) is Some,
        0 <= k < vars.len(),
    ensures
        spec_weights(w, vars).unwrap().len() == vars.len(),
        wit_lookup(w, vars[k]) is Some,
        spec_weights(w, vars).unwrap()[k] == wit_lookup(w, vars[k]).unwrap() % fr_order(),
    decreases vars.len(),
{
    let ws = spec_weights(w, vars).unwrap();
    let pre = spec_weights(w, vars.drop_last()).unwrap();
    if k == vars.len() - 1 {
        assert(ws == pre.push(wit_lookup(w, vars.last()).unwrap() % fr_order())) by {
            lemma_weights_len(w, vars.drop_last());
        }
        lemma_weights_len(w, vars.drop_last());
    } else {
        lemma_spec_weights_index(w, vars.drop_last(), k);
        lemma_weights_len(w, vars.drop_last());
        assert(vars.drop_last()[k] == vars[k]);
        assert(ws[k] == pre[k]);
    }
}

/// A weight list has one entry per variable.
proof fn lemma_weights_len(w: Seq<(Seq<char>, int)>, vars: Seq<Seq<char>>)
    requires
        spec_weights(w, vars) is Some,
    ensures
        spec_weights(w, vars).unwrap().len() == vars.len(),
    decreases vars.len(),
{
    if vars.len() > 0 {
        lemma_weights_len(w, vars.drop_last());
    }
}

/// The weighted selector values of one wire type collapse, at a gate's
/// index, to the witness value of that gate's slot variable times the
/// slot's coefficient: every other variable's selector vanishes there.
pub proof fn lemma_wire_value(
    gs: Seq<GateModel>,
    w: WireType,
    wv: Seq<(Seq<char>, int)>,
    ws: Seq<int>,
    t: int,
)
    requires
        gs.len() < fr_order(),
        crate::qap::domain_invertible(gs.len() as int),
        forall|j: int| 0 <= j < gs.len() ==> 0 <= crate::qap::wire_coeff(#[trigger] gs[j], w)
            < fr_order(),
        spec_weights(wv, occ_list(gs, w)) == Some(ws),
        0 <= t < gs.len(),
    ensures
        wsum_val(
            crate::qap::spec_sel_polys(gs, w),
            ws,
            occ_list(gs, w).len() as int,
            t + 1,
        ) == slot_val(wv, crate::qap::wire_var(gs[t], w), crate::qap::wire_coeff(gs[t], w)),
{
    let m = fr_order();
    let occ = occ_list(gs, w);
    let polys = crate::qap::spec_sel_polys(gs, w);
    let v0 = crate::qap::wire_var(gs[t], w);
    let coef = crate::qap::wire_coeff(gs[t], w);
    crate::qap::lemma_occ_has_gate_var(gs, w, t);
    crate::qap::lemma_occ_distinct(gs, w);
    let k0 = choose|k: int| 0 <= k < occ.len() && occ[k] == v0;
    lemma_weights_len(wv, occ);
    lemma_spec_weights_index(wv, occ, k0);
    let x = wit_lookup(wv, v0).unwrap();
    assert(ws[k0] == x % m);
    lemma_wire_value_collapse(gs, w, wv, ws, t, k0, occ.len() as int);
    // (x % m · c) % m == (x · c) % m
    vstd::arithmetic::div_mod::lemma_mul_mod_noop_left(x, coef, m);
    assert(((x % m) * coef) % m == (x * coef) % m);
    assert(slot_val(wv, v0, coef) == (x * coef) % m);
}

/// The running weighted sum is zero until the slot variable's index is
/// passed, and the slot term afterwards.
proof fn lemma_wire_value_collapse(
    gs: Seq<GateModel>,
    w: WireType,
    wv: Seq<(Seq<char>, int)>,
    ws: Seq<int>,
    t: int,
    k0: int,
    k: int,
)
    requires
        gs.len() < fr_order(),
        crate::qap::domain_invertible(gs.len() as int),
        forall|j: int| 0 <= j < gs.len() ==> 0 <= crate::qap::wire_coeff(#[trigger] gs[j], w)
            < fr_order(),
        spec_weights(wv, occ_list(gs, w)) == Some(ws),
        0 <= t < gs.len(),
        0 <= k0 < occ_list(gs, w).len(),
        occ_list(gs, w)[k0] == crate::qap::wire_var(gs[t], w),
        forall|k1: int, k2: int|
            0 <= k1 < k2 < occ_list(gs, w).len() ==> (#[trigger] occ_list(gs, w)[k1]) != (
            #[trigger] occ_list(gs, w)[k2]),
        0 <= k <= occ_list(gs, w).len(),
    ensures
        wsum_val(crate::qap::spec_sel_polys(gs, w), ws, k, t + 1) == if k > k0 {
            ((ws[k0] * crate::qap::wire_coeff(gs[t], w)) % fr_order())
        } else {
            0int
        },
    decreases k,
{
    let m = fr_order();
    let occ = occ_list(gs, w);
    let polys = crate::qap::spec_sel_polys(gs, w);
    let coef = crate::qap::wire_coeff(gs[t], w);
    if k > 0 {
        lemma_wire_value_collapse(gs, w, wv, ws, t, k0, k - 1);
        crate::qap::lemma_selector_eval(gs, w, k - 1, t);
        let acc = wsum_val(polys, ws, k - 1, t + 1);
        let e = poly_eval(polys[k - 1], t + 1);
        if k - 1 == k0 {
            assert(e == coef);
            assert(acc == 0);
            assert(wsum_val(polys, ws, k, t + 1) == (0 + ws[k0] * coef) % m);
            vstd::arithmetic::div_mod::lemma_mod_twice(ws[k0] * coef, m);
        } else {
            // another variable occupies the slot, so its selector is 0
            if occ[k - 1] == occ[k0] {
                if k - 1 < k0 {
                    assert(occ[k - 1] != occ[k0]);
                } else {
                    assert(occ[k0] != occ[k - 1]);
                }
            }
            assert(e == 0);
            assert(ws[k - 1] * 0 == 0);
            assert(wsum_val(polys, ws, k, t + 1) == (acc + 0) % m);
            if k - 1 > k0 {
                vstd::arithmetic::div_mod::lemma_mod_bound(ws[k0] * coef, m);
                vstd::arithmetic::div_mod::lemma_small_mod(acc as nat, m as nat);
            } else {
                assert((0int) % m == 0);
            }
        }
    }
}

/// Balancing a gate's weighted wire values is exactly satisfying that
/// gate under the witness: the QAP-level and gate-level readings
/// of satisfaction coincide.
pub proof fn lemma_gate_balanced_iff_satisfied(
    gs: Seq<GateModel>,
    wv: Seq<(Seq<char>, int)>,
    lws: Seq<int>,
    rws: Seq<int>,
    ows: Seq<int>,
    i: int,
)
    requires
        gs.len() < fr_order(),
        crate::qap::domain_invertible(gs.len() as int),
        forall|j: int| 0 <= j < gs.len() ==> crate::circuit::gate_wf(#[trigger] gs[j]),
        spec_weights(wv, occ_list(gs, WireType::Left)) == Some(lws),
        spec_weights(wv, occ_list(gs, WireType::Right)) == Some(rws),
        spec_weights(wv, occ_list(gs, WireType::Output)) == Some(ows),
        1 <= i <= gs.len(),
    ensures
        gate_balanced(spec_qap(gs), lws, rws, ows, i) <==> (slot_val(
            wv,
            gs[i - 1].lv,
            gs[i - 1].lc,
        ) * slot_val(wv, gs[i - 1].rv, gs[i - 1].rc)) % fr_order() == slot_val(
            wv,
            gs[i - 1].ov,
            1,
        ),
{
    let q = spec_qap(gs);
    let t = i - 1;
    assert(forall|j: int| 0 <= j < gs.len() ==> 0 <= crate::qap::wire_coeff(
        #[trigger] gs[j],
        WireType::Left,
    ) < fr_order());
    assert(forall|j: int| 0 <= j < gs.len() ==> 0 <= crate::qap::wire_coeff(
        #[trigger] gs[j],
        WireType::Right,
    ) < fr_order());
    assert(forall|j: int| 0 <= j < gs.len() ==> 0 <= crate::qap::wire_coeff(
        #[trigger] gs[j],
        WireType::Output,
    ) < fr_order());
    lemma_wire_value(gs, WireType::Left, wv, lws, t);
    lemma_wire_value(gs, WireType::Right, wv, rws, t);
    lemma_wire_value(gs, WireType::Output, wv, ows, t);
    assert(q.left_polys == crate::qap::spec_sel_polys(gs, WireType::Left));
    assert(q.left_vars == occ_list(gs, WireType::Left));
    assert(crate::qap::wire_var(gs[t], WireType::Left) == gs[t].lv);
    assert(crate::qap::wire_coeff(gs[t], WireType::Left) == gs[t].lc);
    assert(crate::qap::wire_var(gs[t], WireType::Output) == gs[t].ov);
    assert(crate::qap::wire_coeff(gs[t], WireType::Output) == 1);
}

/// QAP soundness in circuit terms, positive direction: a witness that
/// satisfies every gate leaves a remainder vanishing on the whole
/// evaluation domain.
pub proof fn lemma_circuit_soundness_positive(
    gs: Seq<GateModel>,
    wv: Seq<(Seq<char>, int)>,
    lws: Seq<int>,
    rws: Seq<int>,
    ows: Seq<int>,
    qv: Seq<int>,
    rem: Seq<int>,
)
    requires
        gs.len() < fr_order(),
        crate::qap::domain_invertible(gs.len() as int),
        forall|j: int| 0 <= j < gs.len() ==> crate::circuit::gate_wf(#[trigger] gs[j]),
        spec_weights(wv, occ_list(gs, WireType::Left)) == Some(lws),
        spec_weights(wv, occ_list(gs, WireType::Right)) == Some(rws),
        spec_weights(wv, occ_list(gs, WireType::Output)) == Some(ows),
        peq(qap_poly(spec_qap(gs), lws, rws, ows), padd(pmul(qv, spec_qap(gs).vanishing), rem)),
        circuit_satisfied(gs, wv),
    ensures
        forall|i: int| 1 <= i <= gs.len() ==> poly_eval(rem, i) == 0,
{
    let q = spec_qap(gs);
    assert forall|i: int| 1 <= i <= gs.len() implies poly_eval(rem, i) == 0 by {
        lemma_gate_balanced_iff_satisfied(gs, wv, lws, rws, ows, i);
        assert((slot_val(wv, gs[i - 1].lv, gs[i - 1].lc) * slot_val(
            wv,
            gs[i - 1].rv,
            gs[i - 1].rc,
        )) % fr_order() == slot_val(wv, gs[i - 1].ov, 1));
        lemma_qap_soundness_positive(q, lws, rws, ows, qv, rem, i);
    }
}

/// QAP soundness in circuit terms, negative direction: a witness that
/// violates some gate leaves a non-zero remainder.
pub proof fn lemma_circuit_soundness_negative(
    gs: Seq<GateModel>,
    wv: Seq<(Seq<char>, int)>,
    lws: Seq<int>,
    rws: Seq<int>,
    ows: Seq<int>,
    qv: Seq<int>,
    rem: Seq<int>,
)
    requires
        gs.len() < fr_order(),
        crate::qap::domain_invertible(gs.len() as int),
        forall|j: int| 0 <= j < gs.len() ==> crate::circuit::gate_wf(#[trigger] gs[j]),
        spec_weights(wv, occ_list(gs, WireType::Left)) == Some(lws),
        spec_weights(wv, occ_list(gs, WireType::Right)) == Some(rws),
        spec_weights(wv, occ_list(gs, WireType::Output)) == Some(ows),
        peq(qap_poly(spec_qap(gs), lws, rws, ows), padd(pmul(qv, spec_qap(gs).vanishing), rem)),
        !circuit_satisfied(gs, wv),
    ensures
        !is_zero_coeffs(rem),
{
    let q = spec_qap(gs);
    let t = choose|t: int|
        0 <= t < gs.len() && (slot_val(wv, (#[trigger] gs[t]).lv, gs[t].lc) * slot_val(
            wv,
            gs[t].rv,
            gs[t].rc,
        )) % fr_order() != slot_val(wv, gs[t].ov, 1);
    lemma_gate_balanced_iff_satisfied(gs, wv, lws, rws, ows, t + 1);
    lemma_qap_soundness_negative(q, lws, rws, ows, qv, rem, t + 1);
}

} // verus!
