//! The trusted setup ceremony.
//!
//! The ceremony samples the secret trapdoor, evaluates every selector
//! polynomial and the vanishing polynomial at the secret point, and
//! assembles the proving and verification keys in the two pairing
//! groups. The keys' contents are pinned, element by element, to spec
//! functions of the compiled QAP and a ghost copy of the trapdoor; the
//! runtime keys carry no trapdoor material.

use vstd::prelude::*;
use vstd::arithmetic::div_mod::lemma_small_mod;
use crate::fr_order;
use crate::field::Scalar;
use crate::poly::{poly_eval, Polynomial};
use crate::circuit::{parse_circuit, spec_parse_circuit, ParseError};
use crate::qap::{compile_qap, poly_views, spec_qap, Qap, QapView};
use crate::group::{
    g1_add_of, g1_generator, g1_generator_enc, g1_smul, g1_smul_of, g2_generator,
    g2_generator_enc, g2_smul, g2_smul_of, G1Elem, G2Elem, GroupElem, GroupElemView,
};
use crate::codec::{elem_wf, key_consistent, key_views, gev_views, flat_consistent};

verus! {

/// The secret scalars of one setup ceremony. Only a ghost copy leaves
/// the ceremony; the runtime values are dropped with the function
/// frame.
pub struct TrapdoorView {
    pub s: int,
    pub rohl: int,
    pub rohr: int,
    pub roho: int,
    pub alphal: int,
    pub alphar: int,
    pub alphao: int,
    pub beta: int,
    pub gamma: int,
}

/// The trapdoor scalars are residues and the output channel generator
/// factor is the product of the left and right ones.
pub open spec fn trapdoor_wf(td: TrapdoorView) -> bool {
    &&& 0 <= td.s < fr_order()
    &&& 0 <= td.rohl < fr_order()
    &&& 0 <= td.rohr < fr_order()
    &&& td.roho == (td.rohl * td.rohr) % fr_order()
    &&& 0 <= td.alphal < fr_order()
    &&& 0 <= td.alphar < fr_order()
    &&& 0 <= td.alphao < fr_order()
    &&& 0 <= td.beta < fr_order()
    &&& 0 <= td.gamma < fr_order()
}

/// One G1 channel vector: per selector polynomial, the channel
/// generator raised to `f` times the polynomial's value at `s`.
pub open spec fn chan1(polys: Seq<Seq<int>>, s: int, base: Seq<u8>, f: int) -> Seq<GroupElemView> {
    Seq::new(
        polys.len(),
        |i: int| GroupElemView::One(g1_smul_of(base, (f * poly_eval(polys[i], s)) % fr_order())),
    )
}

/// One G2 channel vector, as [`chan1`] but in the second group.
pub open spec fn chan2(polys: Seq<Seq<int>>, s: int, base: Seq<u8>, f: int) -> Seq<GroupElemView> {
    Seq::new(
        polys.len(),
        |i: int| GroupElemView::Two(g2_smul_of(base, (f * poly_eval(polys[i], s)) % fr_order())),
    )
}

/// The power of a residue, staying reduced.
pub open spec fn spow(s: int, k: nat) -> int
    decreases k,
{
    if k == 0 {
        1int
    } else {
        (spow(s, (k - 1) as nat) * s) % fr_order()
    }
}

/// The trapdoor powers `g2^{s^k}` for `k = 1..=n`.
pub open spec fn powers_vec(n: int, s: int) -> Seq<GroupElemView> {
    Seq::new(
        if n >= 0 {
            n as nat
        } else {
            0
        },
        |i: int| GroupElemView::Two(g2_smul_of(g2_generator_enc(), spow(s, (i + 1) as nat))),
    )
}

/// The twelve fixed proving-key elements that follow the channel
/// vectors: the `t(s)`-scaled channel generators, their shifted
/// variants, and the bare `alpha` exponentiations.
pub open spec fn spec_pk2(td: TrapdoorView, t: int) -> Seq<GroupElemView> {
    let g = g1_generator_enc();
    let gl = g1_smul_of(g, td.rohl);
    let gr = g1_smul_of(g, td.rohr);
    let go = g1_smul_of(g, td.roho);
    seq![
        GroupElemView::One(g1_smul_of(gl, t)),
        GroupElemView::One(g1_smul_of(gr, t)),
        GroupElemView::One(g1_smul_of(go, t)),
        GroupElemView::One(g1_smul_of(gl, (td.alphal * t) % fr_order())),
        GroupElemView::One(g1_smul_of(gr, (td.alphar * t) % fr_order())),
        GroupElemView::One(g1_smul_of(go, (td.alphao * t) % fr_order())),
        GroupElemView::One(g1_smul_of(gl, (td.beta * t) % fr_order())),
        GroupElemView::One(g1_smul_of(gr, (td.beta * t) % fr_order())),
        GroupElemView::One(g1_smul_of(go, (td.beta * t) % fr_order())),
        GroupElemView::One(g1_smul_of(g, td.alphal)),
        GroupElemView::One(g1_smul_of(g, td.alphar)),
        GroupElemView::One(g1_smul_of(g, td.alphao)),
    ]
}

/// The whole proving key of a QAP under a trapdoor: nine channel
/// vectors, the fixed block, the two `t(s)` elements in G2, the right
/// channel in G2 plain and shifted, and the trapdoor powers.
pub open spec fn spec_proving_key(q: QapView, td: TrapdoorView) -> Seq<Seq<GroupElemView>> {
    let g = g1_generator_enc();
    let g2 = g2_generator_enc();
    let gl = g1_smul_of(g, td.rohl);
    let gr = g1_smul_of(g, td.rohr);
    let go = g1_smul_of(g, td.roho);
    let gr2 = g2_smul_of(g2, td.rohr);
    let t = poly_eval(q.vanishing, td.s);
    seq![
        chan1(q.left_polys, td.s, gl, 1),
        chan1(q.right_polys, td.s, gr, 1),
        chan1(q.out_polys, td.s, go, 1),
        chan1(q.left_polys, td.s, gl, td.alphal),
        chan1(q.right_polys, td.s, gr, td.alphar),
        chan1(q.out_polys, td.s, go, td.alphao),
        chan1(q.left_polys, td.s, gl, td.beta),
        chan1(q.right_polys, td.s, gr, td.beta),
        chan1(q.out_polys, td.s, go, td.beta),
        spec_pk2(td, t),
        seq![
            GroupElemView::Two(g2_smul_of(gr2, t)),
            GroupElemView::Two(g2_smul_of(gr2, (td.alphar * t) % fr_order())),
        ],
        chan2(q.right_polys, td.s, gr2, 1),
        chan2(q.right_polys, td.s, gr2, td.alphar),
        powers_vec(q.gate_count, td.s),
    ]
}

/// The verification key under a trapdoor: the G1 baseline, the
/// `t(s)`-scaled output generator with the G1 `alpha_r` element, and
/// the six G2 baselines.
pub open spec fn spec_verification_key(td: TrapdoorView, t: int) -> Seq<Seq<GroupElemView>> {
    let g = g1_generator_enc();
    let g2 = g2_generator_enc();
    let go = g1_smul_of(g, td.roho);
    seq![
        seq![GroupElemView::One(g)],
        seq![
            GroupElemView::One(g1_smul_of(go, t)),
            GroupElemView::One(g1_smul_of(g, td.alphar)),
        ],
        seq![
            GroupElemView::Two(g2),
            GroupElemView::Two(g2_smul_of(g2, td.alphal)),
            GroupElemView::Two(g2_smul_of(g2, td.alphar)),
            GroupElemView::Two(g2_smul_of(g2, td.alphao)),
            GroupElemView::Two(g2_smul_of(g2, td.gamma)),
            GroupElemView::Two(g2_smul_of(g2, (td.beta * td.gamma) % fr_order())),
        ],
    ]
}

/// The number of the first G2 record in an encoded proving key: every
/// G1 record of the nine channel vectors and the fixed block comes
/// before it.
pub open spec fn spec_pk_boundary(q: QapView) -> int {
    3 * (q.left_polys.len() + q.right_polys.len() + q.out_polys.len()) as int + 12 + 1
}

/// The keys of one ceremony, with a ghost copy of the trapdoor for
/// specification purposes only.
pub struct SetupKeys {
    pub proving_key: Vec<Vec<GroupElem>>,
    pub verification_key: Vec<Vec<GroupElem>>,
    pub pk_boundary: usize,
    pub trapdoor: Ghost<TrapdoorView>,
}

/// The number of the first G2 record in an encoded verification key.
pub open spec fn vk_boundary() -> int {
    4
}

/// Evaluates each selector polynomial at `s` and raises the channel
/// generator to `f` times the value.
#[verifier::loop_isolation(false)]
fn eval_channel_g1(polys: &Vec<Polynomial>, s: &Scalar, base: &G1Elem, f: &Scalar) -> (r: Vec<
    GroupElem,
>)
    ensures
        gev_views(r@) == chan1(poly_views(polys@), s@, base@, f@),
        flat_consistent(gev_views(r@), 1, r@.len() as int + 1),
{
    let mut out: Vec<GroupElem> = Vec::new();
    let mut i: usize = 0;
    while i < polys.len()
        invariant
            i <= polys@.len(),
            out@.len() == i,
            forall|j: int| 0 <= j < i ==> gev_views(out@)[j] == chan1(
                poly_views(polys@),
                s@,
                base@,
                f@,
            )[j],
            forall|j: int| 0 <= j < i ==> elem_wf(#[trigger] gev_views(out@)[j]) && !(gev_views(
                out@,
            )[j] is Two),
        decreases polys@.len() - i,
    {
        let p = &polys[i];
        let e = p.evaluate(s);
        let fe = f.mul(&e);
        let elem = g1_smul(base, &fe);
        proof {
            use_type_invariant(&elem);
        }
        let ghost pre = gev_views(out@);
        out.push(GroupElem::One(elem));
        proof {
            assert(gev_views(out@) =~= pre.push(GroupElemView::One(elem@)));
            assert(poly_views(polys@)[i as int] == polys@[i as int]@);
            assert(gev_views(out@)[i as int] == chan1(poly_views(polys@), s@, base@, f@)[i as int]);
            assert forall|j: int| 0 <= j < i implies gev_views(out@)[j] == pre[j] by {
                assert(out@[j] == out@.drop_last()[j]);
            }
        }
        i += 1;
    }
    proof {
        assert(gev_views(out@) =~= chan1(poly_views(polys@), s@, base@, f@));
    }
    out
}

/// As [`eval_channel_g1`], in the second group.
#[verifier::loop_isolation(false)]
fn eval_channel_g2(polys: &Vec<Polynomial>, s: &Scalar, base: &G2Elem, f: &Scalar) -> (r: Vec<
    GroupElem,
>)
    ensures
        gev_views(r@) == chan2(poly_views(polys@), s@, base@, f@),
        forall|j: int| 0 <= j < r@.len() ==> elem_wf(#[trigger] gev_views(r@)[j]) && (gev_views(
            r@,
        )[j] is Two),
{
    let mut out: Vec<GroupElem> = Vec::new();
    let mut i: usize = 0;
    while i < polys.len()
        invariant
            i <= polys@.len(),
            out@.len() == i,
            forall|j: int| 0 <= j < i ==> gev_views(out@)[j] == chan2(
                poly_views(polys@),
                s@,
                base@,
                f@,
            )[j],
            forall|j: int| 0 <= j < i ==> elem_wf(#[trigger] gev_views(out@)[j]) && (gev_views(
                out@,
            )[j] is Two),
        decreases polys@.len() - i,
    {
        let p = &polys[i];
        let e = p.evaluate(s);
        let fe = f.mul(&e);
        let elem = g2_smul(base, &fe);
        proof {
            use_type_invariant(&elem);
        }
        let ghost pre = gev_views(out@);
        out.push(GroupElem::Two(elem));
        proof {
            assert(gev_views(out@) =~= pre.push(GroupElemView::Two(elem@)));
            assert(poly_views(polys@)[i as int] == polys@[i as int]@);
            assert(gev_views(out@)[i as int] == chan2(poly_views(polys@), s@, base@, f@)[i as int]);
            assert forall|j: int| 0 <= j < i implies gev_views(out@)[j] == pre[j] by {
                assert(out@[j] == out@.drop_last()[j]);
            }
        }
        i += 1;
    }
    proof {
        assert(gev_views(out@) =~= chan2(poly_views(polys@), s@, base@, f@));
    }
    out
}

/// The power `s^times` of a scalar, by repeated multiplication.
pub fn get_s_k(s: &Scalar, times: usize) -> (r: Scalar)
    ensures
        r@ == spow(s@, times as nat),
{
    let mut acc = Scalar::from_u64(1);
    let mut i: usize = 0;
    while i < times
        invariant
            i <= times,
            acc@ == spow(s@, i as nat),
        decreases times - i,
    {
        acc = acc.mul(s);
        i += 1;
    }
    acc
}

/// The trapdoor powers `g2^{s^k}` for `k = 1..=n`.
#[verifier::loop_isolation(false)]
fn build_powers(n: usize, s: &Scalar, g2: &G2Elem) -> (r: Vec<GroupElem>)
    requires
        g2@ == g2_generator_enc(),
    ensures
        gev_views(r@) == powers_vec(n as int, s@),
        forall|j: int| 0 <= j < r@.len() ==> elem_wf(#[trigger] gev_views(r@)[j]) && (gev_views(
            r@,
        )[j] is Two),
{
    let mut out: Vec<GroupElem> = Vec::new();
    let mut i: usize = 0;
    let mut sk = s.clone();
    proof {
        assert(spow(s@, 1) == (spow(s@, 0) * s@) % fr_order());
        assert(spow(s@, 0) == 1int);
        assert(1int * s@ == s@);
        use_type_invariant(s);
        lemma_small_mod(s@ as nat, fr_order() as nat);
    }
    while i < n
        invariant
            i <= n,
            out@.len() == i,
            sk@ == spow(s@, (i + 1) as nat),
            forall|j: int| 0 <= j < i ==> gev_views(out@)[j] == powers_vec(n as int, s@)[j],
            forall|j: int| 0 <= j < i ==> elem_wf(#[trigger] gev_views(out@)[j]) && (gev_views(
                out@,
            )[j] is Two),
        decreases n - i,
    {
        let elem = g2_smul(g2, &sk);
        proof {
            use_type_invariant(&elem);
        }
        let ghost pre = gev_views(out@);
        out.push(GroupElem::Two(elem));
        let sk2 = sk.mul(s);
        proof {
            assert(gev_views(out@) =~= pre.push(GroupElemView::Two(elem@)));
            assert(gev_views(out@)[i as int] == powers_vec(n as int, s@)[i as int]);
            assert forall|j: int| 0 <= j < i implies gev_views(out@)[j] == pre[j] by {
                assert(out@[j] == out@.drop_last()[j]);
            }
        }
        sk = sk2;
        i += 1;
    }
    proof {
        assert(gev_views(out@) =~= powers_vec(n as int, s@));
    }
    out
}

/// Well-formed records all in G1 fill any counter window below the
/// boundary.
proof fn lemma_flat_all_one(v: Seq<GroupElemView>, cnt: int, bd: int)
    requires
        forall|i: int| 0 <= i < v.len() ==> elem_wf(#[trigger] v[i]) && !(v[i] is Two),
        cnt + v.len() <= bd,
    ensures
        flat_consistent(v, cnt, bd),
{
}

/// Well-formed records all in G2 fill any counter window at or past
/// the boundary.
proof fn lemma_flat_all_two(v: Seq<GroupElemView>, cnt: int, bd: int)
    requires
        forall|i: int| 0 <= i < v.len() ==> elem_wf(#[trigger] v[i]) && (v[i] is Two),
        cnt >= bd,
    ensures
        flat_consistent(v, cnt, bd),
{
}

/// Consistency of a key grows one vector at a time.
proof fn lemma_key_consistent_cons(
    v: Seq<GroupElemView>,
    rest: Seq<Seq<GroupElemView>>,
    cnt: int,
    bd: int,
)
    requires
        flat_consistent(v, cnt, bd),
        key_consistent(rest, cnt + v.len(), bd),
    ensures
        key_consistent(seq![v] + rest, cnt, bd),
{
    let k = seq![v] + rest;
    assert(k[0] == v);
    assert(k.drop_first() =~= rest);
}

/// An occurrence list never outgrows its gate sequence.
pub proof fn lemma_occ_len(gs: Seq<crate::circuit::GateModel>, w: crate::qap::WireType)
    ensures
        crate::qap::occ_list(gs, w).len() <= gs.len(),
    decreases gs.len(),
{
    if gs.len() > 0 {
        lemma_occ_len(gs.drop_last(), w);
    }
}

/// Splitting cannot yield more segments than characters plus one.
proof fn lemma_split_count(s: Seq<char>, c1: char, c2: char)
    ensures
        crate::circuit::split_on2(s, c1, c2).len() <= s.len() + 1,
    decreases s.len(),
{
    if s.len() == 0 {
    } else if s.len() >= 2 && s[0] == c1 && s[1] == c2 {
        lemma_split_count(s.subrange(2, s.len() as int), c1, c2);
    } else {
        lemma_split_count(s.drop_first(), c1, c2);
    }
}

/// Parsing cannot yield more gates than lines.
proof fn lemma_parse_lines_count(ls: Seq<Seq<char>>)
    ensures
        crate::circuit::spec_parse_lines(ls) matches Ok(gs) ==> gs.len() <= ls.len(),
    decreases ls.len(),
{
    if ls.len() > 0 {
        lemma_parse_lines_count(ls.drop_first());
    }
}

/// A parsed circuit has at most one gate per character, plus one.
pub proof fn lemma_parse_gate_count(s: Seq<char>)
    ensures
        spec_parse_circuit(s) matches Ok(gs) ==> gs.len() <= s.len() + 1,
{
    lemma_split_count(s, '\r', '\n');
    lemma_parse_lines_count(crate::circuit::split_on2(s, '\r', '\n'));
}

/// Runs the trusted setup ceremony on a circuit text: parses and
/// compiles the circuit, samples the trapdoor from the operating
/// system's entropy source, and derives the proving and verification
/// keys. The keys' contents are pinned to the compiled QAP and the
/// ghost trapdoor; the boundary index locates the first G2 record of
/// the encoded proving key.
#[verifier::loop_isolation(false)]
#[verifier::rlimit(60)]
pub fn trusted_setup(source: &str) -> (r: Result<SetupKeys, ParseError>)
    requires
        source@.len() < usize::MAX / 16,
    ensures
        (match (r, spec_parse_circuit(source@)) {
            (Err(e), Err(e2)) => e == e2,
            (Ok(k), Ok(gs)) => {
                let q = spec_qap(gs);
                &&& trapdoor_wf(k.trapdoor@)
                &&& key_views(k.proving_key@) == spec_proving_key(q, k.trapdoor@)
                &&& key_views(k.verification_key@) == spec_verification_key(
                    k.trapdoor@,
                    poly_eval(q.vanishing, k.trapdoor@.s),
                )
                &&& k.pk_boundary as int == spec_pk_boundary(q)
                &&& key_consistent(key_views(k.proving_key@), 1, k.pk_boundary as int)
                &&& key_consistent(key_views(k.verification_key@), 1, vk_boundary())
            },
            _ => false,
        }),
{
    let gates = match parse_circuit(source) {
        Err(e) => {
            return Err(e);
        },
        Ok(g) => g,
    };
    let ghost gs = crate::circuit::gate_views(gates@);
    let qap = compile_qap(&gates);
    proof {
        lemma_parse_gate_count(source@);
        lemma_occ_len(gs, crate::qap::WireType::Left);
        lemma_occ_len(gs, crate::qap::WireType::Right);
        lemma_occ_len(gs, crate::qap::WireType::Output);
    }
    let s = Scalar::sample();
    let rohl = Scalar::sample();
    let rohr = Scalar::sample();
    let roho = rohl.mul(&rohr);
    let alphal = Scalar::sample();
    let alphar = Scalar::sample();
    let alphao = Scalar::sample();
    let beta = Scalar::sample();
    let gamma = Scalar::sample();
    let ghost td = TrapdoorView {
        s: s@,
        rohl: rohl@,
        rohr: rohr@,
        roho: roho@,
        alphal: alphal@,
        alphar: alphar@,
        alphao: alphao@,
        beta: beta@,
        gamma: gamma@,
    };
    let t = qap.vanishing.evaluate(&s);
    let g = g1_generator();
    let g2 = g2_generator();
    let gl = g1_smul(&g, &rohl);
    let gr = g1_smul(&g, &rohr);
    let go = g1_smul(&g, &roho);
    let gr2 = g2_smul(&g2, &rohr);
    let one = Scalar::from_u64(1);
    let v0 = eval_channel_g1(&qap.left_polys, &s, &gl, &one);
    let v1 = eval_channel_g1(&qap.right_polys, &s, &gr, &one);
    let v2 = eval_channel_g1(&qap.out_polys, &s, &go, &one);
    let v3 = eval_channel_g1(&qap.left_polys, &s, &gl, &alphal);
    let v4 = eval_channel_g1(&qap.right_polys, &s, &gr, &alphar);
    let v5 = eval_channel_g1(&qap.out_polys, &s, &go, &alphao);
    let v6 = eval_channel_g1(&qap.left_polys, &s, &gl, &beta);
    let v7 = eval_channel_g1(&qap.right_polys, &s, &gr, &beta);
    let v8 = eval_channel_g1(&qap.out_polys, &s, &go, &beta);
    let e0 = g1_smul(&gl, &t);
    let e1 = g1_smul(&gr, &t);
    let e2 = g1_smul(&go, &t);
    let e3 = g1_smul(&gl, &alphal.mul(&t));
    let e4 = g1_smul(&gr, &alphar.mul(&t));
    let e5 = g1_smul(&go, &alphao.mul(&t));
    let e6 = g1_smul(&gl, &beta.mul(&t));
    let e7 = g1_smul(&gr, &beta.mul(&t));
    let e8 = g1_smul(&go, &beta.mul(&t));
    let e9 = g1_smul(&g, &alphal);
    let e10 = g1_smul(&g, &alphar);
    let e11 = g1_smul(&g, &alphao);
    proof {
        use_type_invariant(&e0);
        use_type_invariant(&e1);
        use_type_invariant(&e2);
        use_type_invariant(&e3);
        use_type_invariant(&e4);
        use_type_invariant(&e5);
        use_type_invariant(&e6);
        use_type_invariant(&e7);
        use_type_invariant(&e8);
        use_type_invariant(&e9);
        use_type_invariant(&e10);
        use_type_invariant(&e11);
    }
    let v9 = vec![
        GroupElem::One(e0),
        GroupElem::One(e1),
        GroupElem::One(e2),
        GroupElem::One(e3),
        GroupElem::One(e4),
        GroupElem::One(e5),
        GroupElem::One(e6),
        GroupElem::One(e7),
        GroupElem::One(e8),
        GroupElem::One(e9),
        GroupElem::One(e10),
        GroupElem::One(e11),
    ];
    proof {
        assert(gev_views(v9@) =~= spec_pk2(td, t@));
    }
    let f0 = g2_smul(&gr2, &t);
    let f1 = g2_smul(&gr2, &alphar.mul(&t));
    proof {
        use_type_invariant(&f0);
        use_type_invariant(&f1);
    }
    let v10 = vec![GroupElem::Two(f0), GroupElem::Two(f1)];
    let v11 = eval_channel_g2(&qap.right_polys, &s, &gr2, &one);
    let v12 = eval_channel_g2(&qap.right_polys, &s, &gr2, &alphar);
    let v13 = build_powers(qap.gate_count, &s, &g2);
    let nl = qap.left_polys.len();
    let nr = qap.right_polys.len();
    let no = qap.out_polys.len();
    let pk_boundary: usize = 3 * (nl + nr + no) + 12 + 1;
    let proving_key = vec![v0, v1, v2, v3, v4, v5, v6, v7, v8, v9, v10, v11, v12, v13];
    let w0 = g.clone();
    let w1 = g1_smul(&go, &t);
    let w2 = g1_smul(&g, &alphar);
    let u0 = g2.clone();
    let u1 = g2_smul(&g2, &alphal);
    let u2 = g2_smul(&g2, &alphar);
    let u3 = g2_smul(&g2, &alphao);
    let u4 = g2_smul(&g2, &gamma);
    let u5 = g2_smul(&g2, &beta.mul(&gamma));
    proof {
        use_type_invariant(&w0);
        use_type_invariant(&w1);
        use_type_invariant(&w2);
        use_type_invariant(&u0);
        use_type_invariant(&u1);
        use_type_invariant(&u2);
        use_type_invariant(&u3);
        use_type_invariant(&u4);
        use_type_invariant(&u5);
    }
    let verification_key = vec![
        vec![GroupElem::One(w0)],
        vec![GroupElem::One(w1), GroupElem::One(w2)],
        vec![
            GroupElem::Two(u0),
            GroupElem::Two(u1),
            GroupElem::Two(u2),
            GroupElem::Two(u3),
            GroupElem::Two(u4),
            GroupElem::Two(u5),
        ],
    ];
    let keys = SetupKeys { proving_key, verification_key, pk_boundary, trapdoor: Ghost(td) };
    proof {
        let q = spec_qap(gs);
        let bd = pk_boundary as int;
        let kv = key_views(keys.proving_key@);
        let spk = spec_proving_key(q, td);
        assert(t@ == poly_eval(q.vanishing, td.s));
        assert(kv.len() == 14);
        assert(kv[0] =~= gev_views(v0@));
        assert(kv[1] =~= gev_views(v1@));
        assert(kv[2] =~= gev_views(v2@));
        assert(kv[3] =~= gev_views(v3@));
        assert(kv[4] =~= gev_views(v4@));
        assert(kv[5] =~= gev_views(v5@));
        assert(kv[6] =~= gev_views(v6@));
        assert(kv[7] =~= gev_views(v7@));
        assert(kv[8] =~= gev_views(v8@));
        assert(kv[9] =~= gev_views(v9@));
        assert(kv[10] =~= gev_views(v10@));
        assert(kv[11] =~= gev_views(v11@));
        assert(kv[12] =~= gev_views(v12@));
        assert(kv[13] =~= gev_views(v13@));
        assert(gev_views(v10@) =~= spk[10]);
        assert(kv =~~= spk);
        // record tags agree with the boundary
        let s0 = 1int;
        let s1 = s0 + nl;
        let s2 = s1 + nr;
        let s3 = s2 + no;
        let s4 = s3 + nl;
        let s5 = s4 + nr;
        let s6 = s5 + no;
        let s7 = s6 + nl;
        let s8 = s7 + nr;
        let s9 = s8 + no;
        let s10 = s9 + 12;
        let s11 = s10 + 2;
        let s12 = s11 + nr;
        let s13 = s12 + nr;
        assert(s10 == bd);
        lemma_flat_all_one(kv[0], s0, bd);
        lemma_flat_all_one(kv[1], s1, bd);
        lemma_flat_all_one(kv[2], s2, bd);
        lemma_flat_all_one(kv[3], s3, bd);
        lemma_flat_all_one(kv[4], s4, bd);
        lemma_flat_all_one(kv[5], s5, bd);
        lemma_flat_all_one(kv[6], s6, bd);
        lemma_flat_all_one(kv[7], s7, bd);
        lemma_flat_all_one(kv[8], s8, bd);
        assert(forall|i: int| 0 <= i < kv[9].len() ==> elem_wf(#[trigger] kv[9][i]) && !(
        kv[9][i] is Two));
        lemma_flat_all_one(kv[9], s9, bd);
        assert(forall|i: int| 0 <= i < kv[10].len() ==> elem_wf(#[trigger] kv[10][i]) && (
        kv[10][i] is Two));
        lemma_flat_all_two(kv[10], s10, bd);
        lemma_flat_all_two(kv[11], s11, bd);
        lemma_flat_all_two(kv[12], s12, bd);
        lemma_flat_all_two(kv[13], s13, bd);
        assert(key_consistent(kv.skip(14), s13 + qap.gate_count, bd)) by {
            assert(kv.skip(14).len() == 0);
        }
        assert(kv.skip(13) =~= seq![kv[13]] + kv.skip(14));
        lemma_key_consistent_cons(kv[13], kv.skip(14), s13, bd);
        assert(kv.skip(12) =~= seq![kv[12]] + kv.skip(13));
        lemma_key_consistent_cons(kv[12], kv.skip(13), s12, bd);
        assert(kv.skip(11) =~= seq![kv[11]] + kv.skip(12));
        lemma_key_consistent_cons(kv[11], kv.skip(12), s11, bd);
        assert(kv.skip(10) =~= seq![kv[10]] + kv.skip(11));
        lemma_key_consistent_cons(kv[10], kv.skip(11), s10, bd);
        assert(kv.skip(9) =~= seq![kv[9]] + kv.skip(10));
        lemma_key_consistent_cons(kv[9], kv.skip(10), s9, bd);
        assert(kv.skip(8) =~= seq![kv[8]] + kv.skip(9));
        lemma_key_consistent_cons(kv[8], kv.skip(9), s8, bd);
        assert(kv.skip(7) =~= seq![kv[7]] + kv.skip(8));
        lemma_key_consistent_cons(kv[7], kv.skip(8), s7, bd);
        assert(kv.skip(6) =~= seq![kv[6]] + kv.skip(7));
        lemma_key_consistent_cons(kv[6], kv.skip(7), s6, bd);
        assert(kv.skip(5) =~= seq![kv[5]] + kv.skip(6));
        lemma_key_consistent_cons(kv[5], kv.skip(6), s5, bd);
        assert(kv.skip(4) =~= seq![kv[4]] + kv.skip(5));
        lemma_key_consistent_cons(kv[4], kv.skip(5), s4, bd);
        assert(kv.skip(3) =~= seq![kv[3]] + kv.skip(4));
        lemma_key_consistent_cons(kv[3], kv.skip(4), s3, bd);
        assert(kv.skip(2) =~= seq![kv[2]] + kv.skip(3));
        lemma_key_consistent_cons(kv[2], kv.skip(3), s2, bd);
        assert(kv.skip(1) =~= seq![kv[1]] + kv.skip(2));
        lemma_key_consistent_cons(kv[1], kv.skip(2), s1, bd);
        assert(kv.skip(0) =~= seq![kv[0]] + kv.skip(1));
        lemma_key_consistent_cons(kv[0], kv.skip(1), s0, bd);
        assert(kv.skip(0) =~= kv);
        // the verification key
        let vv = key_views(keys.verification_key@);
        let svk = spec_verification_key(td, t@);
        assert(vv.len() == 3);
        assert(vv[0] =~= svk[0]);
        assert(vv[1] =~= svk[1]);
        assert(vv[2] =~= svk[2]);
        assert(vv =~~= svk);
        lemma_flat_all_one(vv[0], 1, vk_boundary());
        lemma_flat_all_one(vv[1], 2, vk_boundary());
        lemma_flat_all_two(vv[2], 4, vk_boundary());
        assert(key_consistent(vv.skip(3), 10, vk_boundary())) by {
            assert(vv.skip(3).len() == 0);
        }
        assert(vv.skip(2) =~= seq![vv[2]] + vv.skip(3));
        lemma_key_consistent_cons(vv[2], vv.skip(3), 4, vk_boundary());
        assert(vv.skip(1) =~= seq![vv[1]] + vv.skip(2));
        lemma_key_consistent_cons(vv[1], vv.skip(2), 2, vk_boundary());
        assert(vv.skip(0) =~= seq![vv[0]] + vv.skip(1));
        lemma_key_consistent_cons(vv[0], vv.skip(1), 1, vk_boundary());
        assert(vv.skip(0) =~= vv);
    }
    Ok(keys)
}

} // verus!
