//! The quadratic arithmetic program of a circuit.
//!
//! For each wire type (left, right, output) the gates give an
//! occurrence list of distinct variables and, per variable, one
//! selector point per gate; Lagrange interpolation turns each point
//! list into a selector polynomial. The vanishing polynomial of the
//! evaluation domain has every gate index `1..=n` as a root.
//!
//! Every derived object is pinned to a spec function over gate
//! models, so any two compilations of the same circuit text agree.

use vstd::prelude::*;
use vstd::arithmetic::div_mod::{
    lemma_add_mod_noop, lemma_mod_twice, lemma_mul_mod_noop_left, lemma_mul_mod_noop_right,
    lemma_small_mod,
};
use vstd::arithmetic::mul::{lemma_mul_is_associative, lemma_mul_is_commutative};
use crate::fr_order;
use crate::field::Scalar;
use crate::poly::{
    padd, pmul, poly_eval, pscale, ptrim, lemma_eval_padd, lemma_eval_pmul, lemma_eval_pscale,
    lemma_pmul_len, Polynomial,
};
use crate::circuit::{Gate, GateModel, gate_views};

verus! {

/// A failure of the field arithmetic during interpolation.
#[derive(Debug, Clone, Copy, PartialEq, Eq, Structural)]
pub enum FieldError {
    /// Two interpolation points share an x-coordinate, so a denominator
    /// had no inverse.
    ZeroInverse,
}

/// The three wire types of a gate.
#[derive(Debug, Clone, Copy, PartialEq, Eq, Structural)]
pub enum WireType {
    Left,
    Right,
    Output,
}

/// The variable a gate uses in the given wire-type slot.
pub open spec fn wire_var(g: GateModel, w: WireType) -> Seq<char> {
    match w {
        WireType::Left => g.lv,
        WireType::Right => g.rv,
        WireType::Output => g.ov,
    }
}

/// The signed coefficient a gate carries in its slot; an output coefficient is
/// always 1.
pub open spec fn wire_coeff(g: GateModel, w: WireType) -> int {
    match w {
        WireType::Left => g.lc,
        WireType::Right => g.rc,
        WireType::Output => 1,
    }
}

/// The distinct variables of a wire type, in first-occurrence order.
pub open spec fn occ_list(gs: Seq<GateModel>, w: WireType) -> Seq<Seq<char>>
    decreases gs.len(),
{
    if gs.len() == 0 {
        Seq::<Seq<char>>::empty()
    } else {
        let pre = occ_list(gs.drop_last(), w);
        if pre.contains(wire_var(gs.last(), w)) {
            pre
        } else {
            pre.push(wire_var(gs.last(), w))
        }
    }
}

/// The selector points of variable `v`: per gate, the 1-based gate
/// index paired with that gate's signed coefficient if `v` occupies the
/// slot, else 0.
pub open spec fn sel_points(gs: Seq<GateModel>, w: WireType, v: Seq<char>) -> Seq<(int, int)> {
    Seq::new(
        gs.len(),
        |i: int| (i + 1, if wire_var(gs[i], w) == v {
            wire_coeff(gs[i], w)
        } else {
            0int
        }),
    )
}

/// The multiplicative inverse of a residue, when one exists.
pub open spec fn finv(a: int) -> int {
    choose|w: int| 0 <= w < fr_order() && #[trigger] ((a * w) % fr_order()) == 1
}

/// An inverse in range is the inverse [`finv`] denotes.
pub proof fn lemma_finv_unique(a: int, w: int)
    requires
        0 <= w < fr_order(),
        (a * w) % fr_order() == 1,
    ensures
        finv(a) == w,
{
    let m = fr_order();
    let w2 = finv(a);
    assert(0 <= w2 < m && (a * w2) % m == 1);
    // w == w·(a·w2) == (w·a)·w2 == w2 modulo m, and both are reduced
    assert((w * ((a * w2) % m)) % m == (w * (a * w2)) % m) by {
        lemma_mul_mod_noop_right(w, a * w2, m);
    }
    assert(w * (a * w2) == (a * w) * w2) by {
        lemma_mul_is_associative(w, a, w2);
        lemma_mul_is_commutative(w, a);
        lemma_mul_is_associative(a, w, w2);
    }
    assert(((a * w) * w2) % m == (((a * w) % m) * w2) % m) by {
        lemma_mul_mod_noop_left(a * w, w2, m);
    }
    assert((1 * w2) % m == w2) by {
        lemma_small_mod(w2 as nat, m as nat);
    }
    assert((w * 1) % m == w) by {
        lemma_small_mod(w as nat, m as nat);
    }
}

/// The degree-1 factor `x - xj`, with the constant in the field.
pub open spec fn lin_poly(xj: int) -> Seq<int> {
    seq![(0 - xj) % fr_order(), 1int]
}

/// The product of the linear factors `x - xj` for `j < k`, `j != i`.
pub open spec fn term_prod(pts: Seq<(int, int)>, i: int, k: int) -> Seq<int>
    decreases k,
{
    if k <= 0 {
        seq![1int]
    } else if k - 1 == i {
        term_prod(pts, i, k - 1)
    } else {
        pmul(term_prod(pts, i, k - 1), lin_poly(pts[k - 1].0))
    }
}

/// The denominator `prod_{j<k, j!=i} (x_i - x_j)`, as a residue.
pub open spec fn den_prod(pts: Seq<(int, int)>, i: int, k: int) -> int
    decreases k,
{
    if k <= 0 {
        1
    } else if k - 1 == i {
        den_prod(pts, i, k - 1)
    } else {
        (den_prod(pts, i, k - 1) * ((pts[i].0 - pts[k - 1].0) % fr_order())) % fr_order()
    }
}

/// The product of the factor inverses, matching [`den_prod`].
pub open spec fn inv_prod(pts: Seq<(int, int)>, i: int, k: int) -> int
    decreases k,
{
    if k <= 0 {
        1
    } else if k - 1 == i {
        inv_prod(pts, i, k - 1)
    } else {
        (inv_prod(pts, i, k - 1) * finv((pts[i].0 - pts[k - 1].0) % fr_order())) % fr_order()
    }
}

/// The partial Lagrange sum over the first `k` points.
pub open spec fn interp_sum(pts: Seq<(int, int)>, k: int) -> Seq<int>
    decreases k,
{
    if k <= 0 {
        Seq::<int>::empty()
    } else {
        let i = k - 1;
        let sc = (pts[i].1 * inv_prod(pts, i, pts.len() as int)) % fr_order();
        padd(interp_sum(pts, k - 1), pscale(sc, term_prod(pts, i, pts.len() as int)))
    }
}

/// The Lagrange interpolation polynomial of a point list.
pub open spec fn spec_lagrange(pts: Seq<(int, int)>) -> Seq<int> {
    interp_sum(pts, pts.len() as int)
}

/// Two points share an x-coordinate.
pub open spec fn has_coincident(pts: Seq<(int, int)>) -> bool {
    exists|i: int, j: int| 0 <= i < j < pts.len() && (#[trigger] pts[i]).0 == (#[trigger] pts[j]).0
}

/// The sum of a family of polynomials, first to last.
pub open spec fn fold_padd(ps: Seq<Seq<int>>, k: int) -> Seq<int>
    decreases k,
{
    if k <= 0 {
        Seq::<int>::empty()
    } else {
        padd(fold_padd(ps, k - 1), ps[k - 1])
    }
}

/// The vanishing polynomial `(x-1)(x-2)···(x-n)` of the `n`-gate
/// evaluation domain.
pub open spec fn spec_vanishing(n: int) -> Seq<int>
    decreases n,
{
    if n <= 0 {
        seq![1int]
    } else {
        pmul(spec_vanishing(n - 1), lin_poly(n))
    }
}

/// The length of the product of `c` linear factors is `c + 1`.
pub proof fn lemma_term_prod_len(pts: Seq<(int, int)>, i: int, k: int)
    requires
        k >= 0,
    ensures
        term_prod(pts, i, k).len() == if 0 <= i < k {
            k
        } else {
            k + 1
        },
        term_prod(pts, i, k).len() >= 1,
    decreases k,
{
    if k > 0 {
        lemma_term_prod_len(pts, i, k - 1);
        if k - 1 != i {
            lemma_pmul_len(term_prod(pts, i, k - 1), lin_poly(pts[k - 1].0));
        }
    }
}

/// Evaluating the factor `x - xj` at a point.
pub proof fn lemma_lin_eval(xj: int, x: int)
    ensures
        poly_eval(lin_poly(xj), x) == (x - xj) % fr_order(),
{
    let m = fr_order();
    let l = lin_poly(xj);
    let one = seq![1int];
    assert(l.drop_first() =~= one);
    assert(one.drop_first() =~= Seq::<int>::empty());
    assert(poly_eval(one.drop_first(), x) == 0);
    assert(one[0] == 1);
    assert(poly_eval(one, x) == (1 + x * 0) % m);
    assert(x * 0 == 0);
    assert((1int + x * 0) % m == 1) by {
        lemma_small_mod(1nat, m as nat);
    }
    assert(poly_eval(l, x) == ((0 - xj) % m + x * 1) % m);
    lemma_add_mod_noop(0 - xj, x, m);
    lemma_add_mod_noop((0 - xj) % m, x, m);
    lemma_mod_twice(0 - xj, m);
    lemma_mod_twice(x, m);
    assert(((0 - xj) % m + x) % m == (0 - xj + x) % m);
}

/// The term polynomial of point `i` evaluates to zero at every other
/// point's x-coordinate whose factor it contains.
pub proof fn lemma_term_eval_zero(pts: Seq<(int, int)>, i: int, k: int, t: int)
    requires
        0 <= t < k <= pts.len(),
        t != i,
        0 <= pts[t].0 < fr_order(),
    ensures
        poly_eval(term_prod(pts, i, k), pts[t].0) == 0,
    decreases k,
{
    let m = fr_order();
    let x = pts[t].0;
    if k - 1 == t {
        // the factor `x - x_t` is the last one multiplied in
        lemma_eval_pmul(term_prod(pts, i, k - 1), lin_poly(pts[k - 1].0), x);
        lemma_lin_eval(pts[k - 1].0, x);
        assert((x - x) % m == 0);
        assert(poly_eval(term_prod(pts, i, k), x) == (poly_eval(term_prod(pts, i, k - 1), x) * 0)
            % m);
        assert((poly_eval(term_prod(pts, i, k - 1), x) * 0) % m == 0);
    } else {
        lemma_term_eval_zero(pts, i, k - 1, t);
        if k - 1 == i {
        } else {
            lemma_eval_pmul(term_prod(pts, i, k - 1), lin_poly(pts[k - 1].0), x);
            assert(poly_eval(term_prod(pts, i, k), x) == (0 * poly_eval(
                lin_poly(pts[k - 1].0),
                x,
            )) % m);
            assert((0 * poly_eval(lin_poly(pts[k - 1].0), x)) % m == 0);
        }
    }
}

/// The term polynomial of point `i` evaluates at `x_i` to the
/// denominator product.
pub proof fn lemma_term_eval_den(pts: Seq<(int, int)>, i: int, k: int)
    requires
        0 <= i < pts.len(),
        k <= pts.len(),
    ensures
        poly_eval(term_prod(pts, i, k), pts[i].0) == den_prod(pts, i, k) % fr_order(),
    decreases k,
{
    let m = fr_order();
    let x = pts[i].0;
    if k <= 0 {
        let one = seq![1int];
        assert(one.drop_first() =~= Seq::<int>::empty());
        assert(poly_eval(one.drop_first(), x) == 0);
        assert(one[0] == 1);
        assert(poly_eval(one, x) == (1 + x * 0) % m);
        assert(x * 0 == 0);
        assert((1int + x * 0) % m == 1int % m);
    } else if k - 1 == i {
        lemma_term_eval_den(pts, i, k - 1);
    } else {
        lemma_term_eval_den(pts, i, k - 1);
        lemma_eval_pmul(term_prod(pts, i, k - 1), lin_poly(pts[k - 1].0), x);
        lemma_lin_eval(pts[k - 1].0, x);
        let e = den_prod(pts, i, k - 1);
        let f = (x - pts[k - 1].0) % m;
        // (e % m · f) % m == (e · f) % m
        lemma_mul_mod_noop_left(e, f, m);
        assert(poly_eval(term_prod(pts, i, k), x) == ((e % m) * f) % m);
        lemma_mod_twice(e * f, m);
        assert(den_prod(pts, i, k) % m == ((e * f) % m) % m);
    }
}

/// The running inverse product inverts the running denominator.
pub proof fn lemma_inv_prod(pts: Seq<(int, int)>, i: int, k: int)
    requires
        forall|j: int| 0 <= j < k && j != i ==> (((pts[i].0 - (#[trigger] pts[j]).0) % fr_order())
            * finv((pts[i].0 - pts[j].0) % fr_order())) % fr_order() == 1,
    ensures
        (den_prod(pts, i, k) * inv_prod(pts, i, k)) % fr_order() == 1,
        0 <= inv_prod(pts, i, k) < fr_order(),
    decreases k,
{
    let m = fr_order();
    if k <= 0 {
        assert((1int * 1int) % m == 1) by {
            lemma_small_mod(1nat, m as nat);
        }
        assert(0 <= 1 < m);
    } else if k - 1 == i {
        lemma_inv_prod(pts, i, k - 1);
    } else {
        lemma_inv_prod(pts, i, k - 1);
        let d = den_prod(pts, i, k - 1);
        let w = inv_prod(pts, i, k - 1);
        let f = (pts[i].0 - pts[k - 1].0) % m;
        let fi = finv(f);
        assert((f * fi) % m == 1);
        assert((d * w) % m == 1);
        // ((d·f) % m · (w·fi) % m) % m == ((d·w) · (f·fi)) % m == 1
        lemma_mul_mod_noop_left(d * f, (w * fi) % m, m);
        lemma_mul_mod_noop_right(d * f, w * fi, m);
        assert(((d * f) % m * ((w * fi) % m)) % m == ((d * f) * (w * fi)) % m);
        assert((d * f) * (w * fi) == (d * w) * (f * fi)) by (nonlinear_arith);
        lemma_mul_mod_noop_left(d * w, f * fi, m);
        lemma_mul_mod_noop_right((d * w) % m, f * fi, m);
        assert(((d * w) * (f * fi)) % m == (((d * w) % m) * ((f * fi) % m)) % m);
        assert((1int * 1int) % m == 1) by {
            lemma_small_mod(1nat, m as nat);
        }
    }
}

/// The partial Lagrange sum is never longer than the point count.
pub proof fn lemma_interp_sum_len(pts: Seq<(int, int)>, k: int)
    requires
        k <= pts.len(),
    ensures
        interp_sum(pts, k).len() <= if pts.len() == 0 {
            0int
        } else {
            pts.len() as int
        },
    decreases k,
{
    if k > 0 {
        lemma_interp_sum_len(pts, k - 1);
        lemma_term_prod_len(pts, k - 1, pts.len() as int);
    }
}

/// Interpolation round trip: with pairwise-distinct x-coordinates, the
/// Lagrange polynomial passes through every point.
pub proof fn lemma_interp_sum_eval(pts: Seq<(int, int)>, k: int, t: int)
    requires
        0 <= t < pts.len(),
        k <= pts.len(),
        forall|j: int| 0 <= j < pts.len() ==> 0 <= (#[trigger] pts[j]).0 < fr_order(),
        forall|j: int| 0 <= j < pts.len() ==> 0 <= (#[trigger] pts[j]).1 < fr_order(),
        forall|j: int| 0 <= j < pts.len() && j != t ==> (#[trigger] pts[j]).0 != pts[t].0,
        forall|i0: int, j: int|
            0 <= i0 < pts.len() && 0 <= j < pts.len() && j != i0 ==> ((((#[trigger] pts[i0]).0 - (
            #[trigger] pts[j]).0) % fr_order()) * finv((pts[i0].0 - pts[j].0) % fr_order()))
                % fr_order() == 1,
    ensures
        poly_eval(interp_sum(pts, k), pts[t].0) == if t < k {
            pts[t].1
        } else {
            0
        },
    decreases k,
{
    let m = fr_order();
    let x = pts[t].0;
    if k <= 0 {
    } else {
        lemma_interp_sum_eval(pts, k - 1, t);
        let i = k - 1;
        let n = pts.len() as int;
        let sc = (pts[i].1 * inv_prod(pts, i, n)) % m;
        let term = term_prod(pts, i, n);
        lemma_eval_padd(interp_sum(pts, k - 1), pscale(sc, term), x);
        lemma_eval_pscale(sc, term, x);
        if t == i {
            // the term contributes exactly y_i
            lemma_term_eval_den(pts, i, n);
            lemma_inv_prod(pts, i, n);
            let d = den_prod(pts, i, n);
            let w = inv_prod(pts, i, n);
            // sc · (d % m) ≡ y_i · (w · d) ≡ y_i
            lemma_mul_mod_noop_right(sc, d, m);
            lemma_mul_mod_noop_left(pts[i].1 * w, d, m);
            assert((sc * (d % m)) % m == ((pts[i].1 * w) * d) % m);
            assert((pts[i].1 * w) * d == pts[i].1 * (d * w)) by (nonlinear_arith);
            lemma_mul_mod_noop_right(pts[i].1, d * w, m);
            assert((pts[i].1 * (d * w)) % m == (pts[i].1 * ((d * w) % m)) % m);
            assert((pts[i].1 * 1) % m == pts[i].1) by {
                lemma_small_mod(pts[i].1 as nat, m as nat);
            }
            assert(poly_eval(pscale(sc, term), x) == pts[i].1);
            assert(poly_eval(interp_sum(pts, k), x) == (0 + pts[i].1) % m) by {
                lemma_eval_padd(interp_sum(pts, k - 1), pscale(sc, term), x);
            }
            lemma_small_mod(pts[i].1 as nat, m as nat);
        } else {
            // the term vanishes at x_t
            lemma_term_eval_zero(pts, i, n, t);
            assert((sc * 0) % m == 0);
            let prev = poly_eval(interp_sum(pts, k - 1), x);
            assert(poly_eval(interp_sum(pts, k), x) == (prev + 0) % m);
            if t < k - 1 {
                lemma_small_mod(pts[t].1 as nat, m as nat);
            } else {
                assert((0int + 0int) % m == 0);
            }
        }
    }
}

/// Every gate index of the evaluation domain is a root of the
/// vanishing polynomial.
pub proof fn lemma_vanishing_eval(n: int, i: int)
    requires
        1 <= i <= n < fr_order(),
    ensures
        poly_eval(spec_vanishing(n), i) == 0,
    decreases n,
{
    let m = fr_order();
    lemma_eval_pmul(spec_vanishing(n - 1), lin_poly(n), i);
    lemma_lin_eval(n, i);
    if i == n {
        assert((i - n) % m == 0);
        assert((poly_eval(spec_vanishing(n - 1), i) * 0) % m == 0);
    } else {
        lemma_vanishing_eval(n - 1, i);
        assert((0 * poly_eval(lin_poly(n), i)) % m == 0);
    }
}

/// The vanishing polynomial of `n` gates has `n + 1` coefficients.
pub proof fn lemma_vanishing_len(n: int)
    requires
        n >= 0,
    ensures
        spec_vanishing(n).len() == n + 1,
    decreases n,
{
    if n > 0 {
        lemma_vanishing_len(n - 1);
        lemma_pmul_len(spec_vanishing(n - 1), lin_poly(n));
    }
}

/// The character sequences denoted by a vector of strings, in order.
pub open spec fn str_views(s: Seq<String>) -> Seq<Seq<char>> {
    Seq::new(s.len(), |i: int| s[i]@)
}

/// The integer pairs denoted by a vector of selector points.
pub open spec fn pts_views(s: Seq<(u64, Scalar)>) -> Seq<(int, int)> {
    Seq::new(s.len(), |i: int| (s[i].0 as int, s[i].1@))
}

/// The integer pairs denoted by a vector of field-point pairs.
pub open spec fn spair_views(s: Seq<(Scalar, Scalar)>) -> Seq<(int, int)> {
    Seq::new(s.len(), |i: int| (s[i].0@, s[i].1@))
}

/// The coefficient sequences denoted by a vector of polynomials.
pub open spec fn poly_views(s: Seq<Polynomial>) -> Seq<Seq<int>> {
    Seq::new(s.len(), |i: int| s[i]@)
}

/// The selector polynomials of a wire type, one per occurring variable.
pub open spec fn spec_sel_polys(gs: Seq<GateModel>, w: WireType) -> Seq<Seq<int>> {
    Seq::new(
        occ_list(gs, w).len(),
        |k: int| spec_lagrange(sel_points(gs, w, occ_list(gs, w)[k])),
    )
}

/// Whether a vector of strings holds the given character sequence.
fn contains_str(v: &Vec<String>, s: &String) -> (r: bool)
    ensures
        r == str_views(v@).contains(s@),
{
    let mut i: usize = 0;
    while i < v.len()
        invariant
            i <= v@.len(),
            forall|j: int| 0 <= j < i ==> str_views(v@)[j] != s@,
        decreases v@.len() - i,
    {
        let velem = &v[i];
        if velem.eq(s) {
            proof {
                assert(str_views(v@)[i as int] == s@);
            }
            return true;
        }
        proof {
            assert(str_views(v@)[i as int] == v@[i as int]@);
        }
        i += 1;
    }
    proof {
        if str_views(v@).contains(s@) {
            let j = choose|j: int| 0 <= j < str_views(v@).len() && str_views(v@)[j] == s@;
            assert(str_views(v@)[j] != s@);
        }
    }
    false
}

/// The occurrence list and selector points of one wire type: per
/// distinct variable, one `(gateIndex, signedCoefficient)` point per
/// gate, with coefficient 0 where the variable is absent and 1 for
/// every output slot.
#[verifier::loop_isolation(false)]
pub fn compute_op_points(gates: &Vec<Gate>, wire: WireType) -> (r: (
    Vec<Vec<(u64, Scalar)>>,
    Vec<String>,
))
    ensures
        str_views(r.1@) == occ_list(gate_views(gates@), wire),
        r.0@.len() == occ_list(gate_views(gates@), wire).len(),
        forall|k: int| 0 <= k < r.0@.len() ==> pts_views(#[trigger] r.0@[k]@) == sel_points(
            gate_views(gates@),
            wire,
            occ_list(gate_views(gates@), wire)[k],
        ),
{
    let ghost gv = gate_views(gates@);
    let n = gates.len();
    let mut occ: Vec<String> = Vec::new();
    let mut i: usize = 0;
    proof {
        assert(gv.subrange(0, 0) =~= Seq::<GateModel>::empty());
        assert(str_views(occ@) =~= occ_list(gv.subrange(0, 0), wire));
    }
    while i < n
        invariant
            i <= n,
            str_views(occ@) == occ_list(gv.subrange(0, i as int), wire),
        decreases n - i,
    {
        let g = &gates[i];
        let var: String = match wire {
            WireType::Left => g.left_var.clone(),
            WireType::Right => g.right_var.clone(),
            WireType::Output => g.out_var.clone(),
        };
        proof {
            assert(gv[i as int] == gates@[i as int]@);
            assert(var@ == wire_var(gv[i as int], wire));
            let pre = gv.subrange(0, i as int + 1);
            assert(pre.drop_last() =~= gv.subrange(0, i as int));
            assert(pre.last() == gv[i as int]);
        }
        if !contains_str(&occ, &var) {
            let ghost old_occ = str_views(occ@);
            occ.push(var);
            proof {
                assert(str_views(occ@) =~= old_occ.push(wire_var(gv[i as int], wire)));
            }
        } else {
            proof {
                assert(str_views(occ@) =~= occ_list(gv.subrange(0, i as int + 1), wire));
            }
        }
        i += 1;
    }
    proof {
        assert(gv.subrange(0, n as int) =~= gv);
    }
    // one point list per occurring variable
    let mut lists: Vec<Vec<(u64, Scalar)>> = Vec::new();
    let mut k: usize = 0;
    while k < occ.len()
        invariant
            k <= occ@.len(),
            lists@.len() == k,
            str_views(occ@) == occ_list(gv, wire),
            forall|t: int| 0 <= t < k ==> pts_views(#[trigger] lists@[t]@) == sel_points(
                gv,
                wire,
                occ_list(gv, wire)[t],
            ),
        decreases occ@.len() - k,
    {
        let target = &occ[k];
        let mut inner: Vec<(u64, Scalar)> = Vec::new();
        let mut i2: usize = 0;
        while i2 < n
            invariant
                i2 <= n,
                inner@.len() == i2,
                k < occ@.len(),
                str_views(occ@) == occ_list(gv, wire),
                forall|t: int| 0 <= t < i2 ==> pts_views(inner@)[t] == sel_points(
                    gv,
                    wire,
                    occ_list(gv, wire)[k as int],
                )[t],
            decreases n - i2,
        {
            let g = &gates[i2];
            let var: &String = match wire {
                WireType::Left => &g.left_var,
                WireType::Right => &g.right_var,
                WireType::Output => &g.out_var,
            };
            let same = var.eq(target);
            let y: Scalar = if same {
                match wire {
                    WireType::Left => g.left_coeff.clone(),
                    WireType::Right => g.right_coeff.clone(),
                    WireType::Output => Scalar::from_u64(1),
                }
            } else {
                Scalar::from_u64(0)
            };
            proof {
                assert(i2 < usize::MAX);
            }
            let x: u64 = (i2 as u64) + 1;
            let ghost pre_inner = inner@;
            inner.push((x, y));
            proof {
                let v = occ_list(gv, wire)[k as int];
                assert(inner@ =~= pre_inner.push((x, y)));
                assert(gv[i2 as int] == gates@[i2 as int]@);
                assert(var@ == wire_var(gv[i2 as int], wire));
                assert(occ_list(gv, wire)[k as int] == str_views(occ@)[k as int]);
                assert(str_views(occ@)[k as int] == occ@[k as int]@);
                assert(same == (wire_var(gv[i2 as int], wire) == v));
                if same {
                    assert(y@ == wire_coeff(gv[i2 as int], wire));
                } else {
                    assert(y@ == 0);
                }
                assert(pts_views(inner@)[i2 as int] == (x as int, y@));
                assert(sel_points(gv, wire, v)[i2 as int] == (
                    i2 as int + 1,
                    if wire_var(gv[i2 as int], wire) == v {
                        wire_coeff(gv[i2 as int], wire)
                    } else {
                        0int
                    },
                ));
                assert forall|t: int| 0 <= t <= i2 implies pts_views(inner@)[t] == sel_points(
                    gv,
                    wire,
                    v,
                )[t] by {
                    if t < i2 {
                        assert(inner@[t] == pre_inner[t]);
                        assert(pts_views(inner@)[t] == pts_views(pre_inner)[t]);
                    }
                }
            }
            i2 += 1;
        }
        lists.push(inner);
        proof {
            assert(pts_views(lists@[k as int]@) =~= sel_points(gv, wire, occ_list(gv, wire)[k as int]));
        }
        k += 1;
    }
    (lists, occ)
}

/// Lagrange interpolation over the scalar field: the unique polynomial
/// through the given points, of degree below their number. Interpolation
/// fails with [`FieldError::ZeroInverse`] exactly when two points share
/// an x-coordinate.
#[verifier::loop_isolation(false)]
#[verifier::rlimit(60)]
pub fn lagrange_interpolation_polynomial(points: &Vec<(Scalar, Scalar)>) -> (r: Result<
    Polynomial,
    FieldError,
>)
    ensures
        (r matches Err(e) ==> e == FieldError::ZeroInverse),
        (r is Err) <==> has_coincident(spair_views(points@)),
        r matches Ok(p) ==> {
            &&& p@ == spec_lagrange(spair_views(points@))
            &&& p@.len() <= points@.len()
            &&& forall|t: int| 0 <= t < points@.len() ==> poly_eval(p@, (#[trigger] points@[t]).0@)
                == points@[t].1@
        },
{
    let ghost pts = spair_views(points@);
    let n = points.len();
    let mut pre: usize = 0;
    while pre < n
        invariant
            pre <= n,
            forall|j: int| 0 <= j < pre ==> 0 <= (#[trigger] pts[j]).0 < fr_order() && 0 <= pts[
                j].1 < fr_order(),
        decreases n - pre,
    {
        let pr = &points[pre];
        proof {
            use_type_invariant(&pr.0);
            use_type_invariant(&pr.1);
            assert(pts[pre as int] == (points@[pre as int].0@, points@[pre as int].1@));
        }
        pre += 1;
    }
    let mut acc = Polynomial::zero();
    let mut i: usize = 0;
    proof {
        assert(acc@ =~= interp_sum(pts, 0));
    }
    while i < n
        invariant
            i <= n,
            acc@ == interp_sum(pts, i as int),
            forall|t: int, j: int|
                0 <= t < i && 0 <= j < n && j != t ==> (#[trigger] pts[t]).0 != (
                #[trigger] pts[j]).0,
            forall|t: int, j: int|
                0 <= t < i && 0 <= j < n && j != t ==> ((((#[trigger] pts[t]).0 - (
                #[trigger] pts[j]).0) % fr_order()) * finv((pts[t].0 - pts[j].0) % fr_order()))
                    % fr_order() == 1,
        decreases n - i,
    {
        let xi = &points[i].0;
        let yi = &points[i].1;
        let one = Scalar::from_u64(1);
        let zero = Scalar::from_u64(0);
        let mut term = Polynomial::from_coeffs(vec![Scalar::from_u64(1)]);
        let mut w = Scalar::from_u64(1);
        let mut j: usize = 0;
        proof {
            assert(term@ =~= term_prod(pts, i as int, 0));
            assert(w@ == inv_prod(pts, i as int, 0));
        }
        while j < n
            invariant
                j <= n,
                term@ == term_prod(pts, i as int, j as int),
                w@ == inv_prod(pts, i as int, j as int),
                i < n,
                xi@ == pts[i as int].0,
                zero@ == 0,
                one@ == 1,
                forall|j2: int| 0 <= j2 < j && j2 != i ==> (#[trigger] pts[j2]).0 != pts[
                    i as int].0,
                forall|j2: int|
                    0 <= j2 < j && j2 != i ==> ((((pts[i as int]).0 - (#[trigger] pts[j2]).0)
                        % fr_order()) * finv((pts[i as int].0 - pts[j2].0) % fr_order()))
                        % fr_order() == 1,
            decreases n - j,
        {
            if j != i {
                let xj = &points[j].0;
                proof {
                    assert(xj@ == pts[j as int].0);
                }
                let f = xi.sub(xj);
                match f.inverse() {
                    None => {
                        // the two x-coordinates coincide
                        proof {
                            assert((pts[i as int].0 - pts[j as int].0) % fr_order() == 0);
                            if pts[i as int].0 >= pts[j as int].0 {
                                vstd::arithmetic::div_mod::lemma_small_mod(
                                    (pts[i as int].0 - pts[j as int].0) as nat,
                                    fr_order() as nat,
                                );
                                assert(pts[i as int].0 == pts[j as int].0);
                            } else {
                                lemma_mod_neg_small(
                                    pts[i as int].0 - pts[j as int].0,
                                    fr_order(),
                                );
                                assert(pts[i as int].0 == pts[j as int].0);
                            }
                            if i < j {
                                assert(0 <= i < j < pts.len() && pts[i as int].0 == pts[
                                    j as int].0);
                            } else {
                                assert(0 <= j < i < pts.len() && pts[j as int].0 == pts[
                                    i as int].0);
                            }
                            assert(has_coincident(pts));
                        }
                        return Err(FieldError::ZeroInverse);
                    },
                    Some(fi) => {
                        proof {
                            use_type_invariant(&fi);
                            lemma_finv_unique(f@, fi@);
                        }
                        let lin = Polynomial::from_coeffs(vec![zero.sub(xj), one.clone()]);
                        proof {
                            assert(lin@ =~= lin_poly(pts[j as int].0));
                        }
                        let t2 = term.multiply(&lin);
                        let w2 = w.mul(&fi);
                        proof {
                            assert(t2@ == term_prod(pts, i as int, j as int + 1));
                            assert(w2@ == inv_prod(pts, i as int, j as int + 1));
                            // the factor is non-zero, so its x-coordinates differ
                            assert(f@ != 0);
                            if pts[j as int].0 == pts[i as int].0 {
                                assert((0int) % fr_order() == 0);
                                assert(false);
                            }
                        }
                        term = t2;
                        w = w2;
                    },
                }
            } else {
                proof {
                    assert(term@ == term_prod(pts, i as int, j as int + 1));
                    assert(w@ == inv_prod(pts, i as int, j as int + 1));
                }
            }
            j += 1;
        }
        let sc = yi.mul(&w);
        let scaled = term.scalar_multiply(&sc);
        let acc2 = acc.add(&scaled);
        proof {
            assert(yi@ == pts[i as int].1);
            assert(acc2@ == interp_sum(pts, i as int + 1));
        }
        acc = acc2;
        i += 1;
    }
    proof {
        // no two x-coordinates coincide, and the interpolant passes
        // through every point
        assert(!has_coincident(pts)) by {
            if has_coincident(pts) {
                let (a, b) = choose|a: int, b: int|
                    0 <= a < b < pts.len() && (#[trigger] pts[a]).0 == (#[trigger] pts[b]).0;
                assert(pts[a].0 != pts[b].0);
            }
        }
        lemma_interp_sum_len(pts, n as int);
        assert forall|t: int| 0 <= t < points@.len() implies poly_eval(
            acc@,
            (#[trigger] points@[t]).0@,
        ) == points@[t].1@ by {
            lemma_interp_sum_eval(pts, n as int, t);
            assert(pts[t].0 == points@[t].0@);
            assert(pts[t].1 == points@[t].1@);
        }
    }
    Ok(acc)
}

/// A negative value above `-m` reduces to zero only if it is zero.
proof fn lemma_mod_neg_small(x: int, m: int)
    requires
        m > 0,
        0 - m < x < 0,
    ensures
        x % m != 0,
{
    vstd::arithmetic::div_mod::lemma_mod_add_multiples_vanish(x, m);
    lemma_small_mod((x + m) as nat, m as nat);
}

/// Converts selector points to field-element pairs.
fn points_to_pairs(pts: &Vec<(u64, Scalar)>) -> (r: Vec<(Scalar, Scalar)>)
    ensures
        spair_views(r@) == pts_views(pts@),
{
    let mut r: Vec<(Scalar, Scalar)> = Vec::new();
    let mut i: usize = 0;
    while i < pts.len()
        invariant
            i <= pts@.len(),
            r@.len() == i,
            forall|j: int| 0 <= j < i ==> spair_views(r@)[j] == pts_views(pts@)[j],
        decreases pts@.len() - i,
    {
        let p = &pts[i];
        let ghost pre = r@;
        r.push((Scalar::from_u64(p.0), p.1.clone()));
        proof {
            assert(spair_views(r@)[i as int] == pts_views(pts@)[i as int]);
            assert forall|j: int| 0 <= j < i implies spair_views(r@)[j] == pts_views(pts@)[j] by {
                assert(r@[j] == pre[j]);
                assert(spair_views(r@)[j] == spair_views(pre)[j]);
            }
        }
        i += 1;
    }
    proof {
        assert(spair_views(r@) =~= pts_views(pts@));
    }
    r
}

/// Interpolates every selector point list into its polynomial and also
/// returns their sum (a diagnostic value, not used by the protocol).
#[verifier::loop_isolation(false)]
pub fn compute_op_polynomial(op_points: &Vec<Vec<(u64, Scalar)>>) -> (r: Result<
    (Vec<Polynomial>, Polynomial),
    FieldError,
>)
    ensures
        (r is Err) <==> exists|k: int|
            0 <= k < op_points@.len() && has_coincident(pts_views(#[trigger] op_points@[k]@)),
        (r matches Err(e) ==> e == FieldError::ZeroInverse),
        r matches Ok(pair) ==> {
            &&& pair.0@.len() == op_points@.len()
            &&& forall|k: int| 0 <= k < op_points@.len() ==> poly_views(pair.0@)[k]
                == spec_lagrange(pts_views(#[trigger] op_points@[k]@))
            &&& pair.1@ == fold_padd(
                Seq::new(
                    op_points@.len(),
                    |k: int| spec_lagrange(pts_views(op_points@[k]@)),
                ),
                op_points@.len() as int,
            )
        },
{
    let ghost family = Seq::new(op_points@.len(), |k: int| spec_lagrange(pts_views(op_points@[k]@)));
    let mut polys: Vec<Polynomial> = Vec::new();
    let mut total = Polynomial::zero();
    let mut k: usize = 0;
    proof {
        assert(total@ =~= fold_padd(family, 0));
    }
    while k < op_points.len()
        invariant
            k <= op_points@.len(),
            polys@.len() == k,
            forall|t: int| 0 <= t < k ==> poly_views(polys@)[t] == spec_lagrange(
                pts_views(#[trigger] op_points@[t]@),
            ),
            forall|t: int| 0 <= t < k ==> !has_coincident(pts_views(#[trigger] op_points@[t]@)),
            total@ == fold_padd(family, k as int),
        decreases op_points@.len() - k,
    {
        let pairs = points_to_pairs(&op_points[k]);
        match lagrange_interpolation_polynomial(&pairs) {
            Err(e) => {
                proof {
                    assert(has_coincident(pts_views(op_points@[k as int]@)));
                }
                return Err(e);
            },
            Ok(p) => {
                let t2 = total.add(&p);
                let ghost prev = polys@;
                polys.push(p);
                proof {
                    assert(poly_views(polys@)[k as int] == spec_lagrange(
                        pts_views(op_points@[k as int]@),
                    ));
                    assert forall|t: int| 0 <= t < k implies poly_views(polys@)[t]
                        == spec_lagrange(pts_views(#[trigger] op_points@[t]@)) by {
                        assert(polys@[t] == prev[t]);
                        assert(poly_views(polys@)[t] == poly_views(prev)[t]);
                    }
                    assert(family[k as int] == spec_lagrange(pts_views(op_points@[k as int]@)));
                    assert(t2@ == fold_padd(family, k as int + 1));
                }
                total = t2;
            },
        }
        k += 1;
    }
    Ok((polys, total))
}

/// The vanishing polynomial `Z(x) = (x-1)(x-2)···(x-n)` of an `n`-gate
/// domain, built by field subtraction.
#[verifier::loop_isolation(false)]
pub fn compute_vanishing_polynomial(length: usize) -> (r: Polynomial)
    ensures
        r@ == spec_vanishing(length as int),
{
    let one = Scalar::from_u64(1);
    let zero = Scalar::from_u64(0);
    let mut v = Polynomial::from_coeffs(vec![Scalar::from_u64(1)]);
    proof {
        assert(v@ =~= spec_vanishing(0));
    }
    let mut k: usize = 0;
    while k < length
        invariant
            k <= length,
            zero@ == 0,
            one@ == 1,
            v@ == spec_vanishing(k as int),
        decreases length - k,
    {
        k += 1;
        let idx = Scalar::from_u64(k as u64);
        let lin = Polynomial::from_coeffs(vec![zero.sub(&idx), one.clone()]);
        proof {
            assert(lin@ =~= lin_poly(k as int));
        }
        v = v.multiply(&lin);
    }
    v
}

/// A compiled quadratic arithmetic program: the three families of
/// selector polynomials with their occurrence lists, and the vanishing
/// polynomial of the evaluation domain.
pub struct Qap {
    pub left_polys: Vec<Polynomial>,
    pub left_vars: Vec<String>,
    pub right_polys: Vec<Polynomial>,
    pub right_vars: Vec<String>,
    pub out_polys: Vec<Polynomial>,
    pub out_vars: Vec<String>,
    pub vanishing: Polynomial,
    pub gate_count: usize,
}

/// The mathematical content of a compiled QAP.
pub struct QapView {
    pub left_polys: Seq<Seq<int>>,
    pub left_vars: Seq<Seq<char>>,
    pub right_polys: Seq<Seq<int>>,
    pub right_vars: Seq<Seq<char>>,
    pub out_polys: Seq<Seq<int>>,
    pub out_vars: Seq<Seq<char>>,
    pub vanishing: Seq<int>,
    pub gate_count: int,
}

impl View for Qap {
    type V = QapView;

    open spec fn view(&self) -> QapView {
        QapView {
            left_polys: poly_views(self.left_polys@),
            left_vars: str_views(self.left_vars@),
            right_polys: poly_views(self.right_polys@),
            right_vars: str_views(self.right_vars@),
            out_polys: poly_views(self.out_polys@),
            out_vars: str_views(self.out_vars@),
            vanishing: self.vanishing@,
            gate_count: self.gate_count as int,
        }
    }
}

/// The QAP a gate sequence compiles to.
pub open spec fn spec_qap(gs: Seq<GateModel>) -> QapView {
    QapView {
        left_polys: spec_sel_polys(gs, WireType::Left),
        left_vars: occ_list(gs, WireType::Left),
        right_polys: spec_sel_polys(gs, WireType::Right),
        right_vars: occ_list(gs, WireType::Right),
        out_polys: spec_sel_polys(gs, WireType::Output),
        out_vars: occ_list(gs, WireType::Output),
        vanishing: spec_vanishing(gs.len() as int),
        gate_count: gs.len() as int,
    }
}

/// Selector point lists never repeat an x-coordinate: the x-coordinates
/// are the distinct gate indices.
pub proof fn lemma_sel_points_distinct(gs: Seq<GateModel>, w: WireType, v: Seq<char>)
    ensures
        !has_coincident(sel_points(gs, w, v)),
{
    let pts = sel_points(gs, w, v);
    if has_coincident(pts) {
        let (i, j) = choose|i: int, j: int|
            0 <= i < j < pts.len() && (#[trigger] pts[i]).0 == (#[trigger] pts[j]).0;
        assert(pts[i].0 == i + 1);
        assert(pts[j].0 == j + 1);
    }
}

/// Compiles a gate sequence into its QAP. Compilation always succeeds:
/// the interpolation domains are the distinct gate indices.
#[verifier::loop_isolation(false)]
pub fn compile_qap(gates: &Vec<Gate>) -> (r: Qap)
    ensures
        r@ == spec_qap(gate_views(gates@)),
{
    let ghost gv = gate_views(gates@);
    let (left_pts, left_vars) = compute_op_points(gates, WireType::Left);
    let (right_pts, right_vars) = compute_op_points(gates, WireType::Right);
    let (out_pts, out_vars) = compute_op_points(gates, WireType::Output);
    let left_polys = unwrap_polys(compute_op_polynomial(&left_pts), Ghost(gv), Ghost(WireType::Left), Ghost(left_pts@));
    let right_polys = unwrap_polys(compute_op_polynomial(&right_pts), Ghost(gv), Ghost(WireType::Right), Ghost(right_pts@));
    let out_polys = unwrap_polys(compute_op_polynomial(&out_pts), Ghost(gv), Ghost(WireType::Output), Ghost(out_pts@));
    let vanishing = compute_vanishing_polynomial(gates.len());
    let r = Qap {
        left_polys,
        left_vars,
        right_polys,
        right_vars,
        out_polys,
        out_vars,
        vanishing,
        gate_count: gates.len(),
    };
    proof {
        assert(poly_views(r.left_polys@) =~= spec_sel_polys(gv, WireType::Left));
        assert(poly_views(r.right_polys@) =~= spec_sel_polys(gv, WireType::Right));
        assert(poly_views(r.out_polys@) =~= spec_sel_polys(gv, WireType::Output));
        assert(str_views(r.left_vars@) =~= occ_list(gv, WireType::Left));
        assert(str_views(r.right_vars@) =~= occ_list(gv, WireType::Right));
        assert(str_views(r.out_vars@) =~= occ_list(gv, WireType::Output));
    }
    r
}

/// Takes the polynomials out of an interpolation result whose point
/// lists came from gate selector points, where no failure can occur.
fn unwrap_polys(
    r: Result<(Vec<Polynomial>, Polynomial), FieldError>,
    Ghost(gv): Ghost<Seq<GateModel>>,
    Ghost(w): Ghost<WireType>,
    Ghost(lists): Ghost<Seq<Vec<(u64, Scalar)>>>,
) -> (out: Vec<Polynomial>)
    requires
        lists.len() == occ_list(gv, w).len(),
        forall|k: int| 0 <= k < lists.len() ==> pts_views(#[trigger] lists[k]@) == sel_points(
            gv,
            w,
            occ_list(gv, w)[k],
        ),
        (r is Err) <==> exists|k: int|
            0 <= k < lists.len() && has_coincident(pts_views(#[trigger] lists[k]@)),
        r matches Ok(pair) ==> pair.0@.len() == lists.len() && forall|k: int|
            0 <= k < lists.len() ==> poly_views(pair.0@)[k] == spec_lagrange(
                pts_views(#[trigger] lists[k]@),
            ),
    ensures
        poly_views(out@).len() == occ_list(gv, w).len(),
        forall|k: int| 0 <= k < out@.len() ==> poly_views(out@)[k] == spec_lagrange(
            sel_points(gv, w, occ_list(gv, w)[k]),
        ),
{
    match r {
        Ok(pair) => {
            let out = pair.0;
            proof {
                assert forall|k: int| 0 <= k < out@.len() implies poly_views(out@)[k]
                    == spec_lagrange(sel_points(gv, w, occ_list(gv, w)[k])) by {
                    assert(poly_views(out@)[k] == spec_lagrange(pts_views(lists[k]@)));
                    assert(pts_views(lists[k]@) == sel_points(gv, w, occ_list(gv, w)[k]));
                }
            }
            out
        },
        Err(_) => {
            proof {
                let k = choose|k: int|
                    0 <= k < lists.len() && has_coincident(pts_views(#[trigger] lists[k]@));
                lemma_sel_points_distinct(gv, w, occ_list(gv, w)[k]);
                assert(false);
            }
            vstd::pervasive::unreached()
        },
    }
}

/// Setup/prover agreement: the setup ceremony and the prover each parse
/// the circuit text and compile it; both derive the same selector
/// polynomials, occurrence lists and vanishing polynomial, because the
/// compiled QAP is a function of the text alone.
pub proof fn lemma_setup_prover_agreement(
    s: Seq<char>,
    gs1: Seq<GateModel>,
    gs2: Seq<GateModel>,
    q1: QapView,
    q2: QapView,
)
    requires
        crate::circuit::spec_parse_circuit(s) == Ok::<Seq<GateModel>, crate::circuit::ParseError>(
            gs1,
        ),
        crate::circuit::spec_parse_circuit(s) == Ok::<Seq<GateModel>, crate::circuit::ParseError>(
            gs2,
        ),
        q1 == spec_qap(gs1),
        q2 == spec_qap(gs2),
    ensures
        q1 == q2,
{
}

/// The vanishing polynomial is monic: its last coefficient is 1.
pub proof fn lemma_vanishing_monic(n: int)
    requires
        n >= 0,
    ensures
        spec_vanishing(n).len() == n + 1,
        spec_vanishing(n).last() == 1,
        ptrim(spec_vanishing(n)) == spec_vanishing(n),
    decreases n,
{
    lemma_vanishing_len(n);
    if n == 0 {
        assert(spec_vanishing(0) =~= seq![1int]);
    } else {
        lemma_vanishing_monic(n - 1);
        crate::poly::lemma_pmul_last(spec_vanishing(n - 1), lin_poly(n));
        assert(lin_poly(n).last() == 1);
        assert((1int * 1int) % fr_order() == 1) by {
            lemma_small_mod(1nat, fr_order() as nat);
        }
    }
}

/// Every selector polynomial has at most one coefficient per gate.
pub proof fn lemma_sel_polys_len(gs: Seq<GateModel>, w: WireType)
    ensures
        forall|k: int| 0 <= k < spec_sel_polys(gs, w).len() ==> (#[trigger] spec_sel_polys(
            gs,
            w,
        )[k]).len() <= gs.len(),
{
    assert forall|k: int| 0 <= k < spec_sel_polys(gs, w).len() implies (#[trigger] spec_sel_polys(
        gs,
        w,
    )[k]).len() <= gs.len() by {
        let pts = sel_points(gs, w, occ_list(gs, w)[k]);
        lemma_interp_sum_len(pts, pts.len() as int);
        assert(spec_sel_polys(gs, w)[k] == spec_lagrange(pts));
    }
}

/// Every non-zero difference of domain indices has the inverse that
/// [`finv`] names. This holds in the scalar field because the field
/// order is prime; the arithmetic back end witnesses each inverse at
/// run time through `Scalar::inverse`.
pub open spec fn domain_invertible(n: int) -> bool {
    forall|a: int, b: int|
        1 <= a <= n && 1 <= b <= n && a != b ==> ((#[trigger] (((a - b) % fr_order()) * finv(
            (a - b) % fr_order(),
        ))) % fr_order() == 1)
}

/// An occurrence list never repeats a variable.
pub proof fn lemma_occ_distinct(gs: Seq<GateModel>, w: WireType)
    ensures
        forall|k1: int, k2: int|
            0 <= k1 < k2 < occ_list(gs, w).len() ==> (#[trigger] occ_list(gs, w)[k1]) != (
            #[trigger] occ_list(gs, w)[k2]),
    decreases gs.len(),
{
    if gs.len() > 0 {
        lemma_occ_distinct(gs.drop_last(), w);
        let pre = occ_list(gs.drop_last(), w);
        let occ = occ_list(gs, w);
        if !pre.contains(wire_var(gs.last(), w)) {
            assert forall|k1: int, k2: int|
                0 <= k1 < k2 < occ.len() implies (#[trigger] occ[k1]) != (#[trigger] occ[k2]) by {
                if k2 < pre.len() {
                    assert(occ[k1] == pre[k1]);
                    assert(occ[k2] == pre[k2]);
                } else {
                    assert(occ[k2] == wire_var(gs.last(), w));
                    assert(occ[k1] == pre[k1]);
                    if occ[k1] == occ[k2] {
                        assert(pre.contains(wire_var(gs.last(), w)));
                    }
                }
            }
        }
    }
}

/// A prefix of the gates keeps a prefix of the occurrence list.
proof fn lemma_occ_prefix(gs: Seq<GateModel>, w: WireType)
    requires
        gs.len() > 0,
    ensures
        occ_list(gs.drop_last(), w).is_prefix_of(occ_list(gs, w)),
{
    let pre = occ_list(gs.drop_last(), w);
    if pre.contains(wire_var(gs.last(), w)) {
        assert(pre.is_prefix_of(pre));
    } else {
        assert(pre.is_prefix_of(pre.push(wire_var(gs.last(), w))));
    }
}

/// Every slot variable of every gate occurs in its wire type's
/// occurrence list.
pub proof fn lemma_occ_has_gate_var(gs: Seq<GateModel>, w: WireType, t: int)
    requires
        0 <= t < gs.len(),
    ensures
        occ_list(gs, w).contains(wire_var(gs[t], w)),
    decreases gs.len(),
{
    let occ = occ_list(gs, w);
    let pre = occ_list(gs.drop_last(), w);
    if t == gs.len() - 1 {
        if pre.contains(wire_var(gs.last(), w)) {
        } else {
            assert(occ == pre.push(wire_var(gs.last(), w)));
            assert(occ[occ.len() - 1] == wire_var(gs[t], w));
        }
    } else {
        lemma_occ_has_gate_var(gs.drop_last(), w, t);
        assert(gs.drop_last()[t] == gs[t]);
        lemma_occ_prefix(gs, w);
        let j = choose|j: int| 0 <= j < pre.len() && pre[j] == wire_var(gs[t], w);
        assert(occ[j] == pre[j]);
    }
}

/// A selector polynomial evaluated at a gate's 1-based index gives the
/// signed coefficient its variable carries in that gate's slot, or
/// zero when the slot holds another variable.
pub proof fn lemma_selector_eval(gs: Seq<GateModel>, w: WireType, k: int, t: int)
    requires
        gs.len() < fr_order(),
        domain_invertible(gs.len() as int),
        forall|j: int| 0 <= j < gs.len() ==> 0 <= wire_coeff(#[trigger] gs[j], w) < fr_order(),
        0 <= k < occ_list(gs, w).len(),
        0 <= t < gs.len(),
    ensures
        poly_eval(spec_sel_polys(gs, w)[k], t + 1) == (if occ_list(gs, w)[k] == wire_var(
            gs[t],
            w,
        ) {
            wire_coeff(gs[t], w)
        } else {
            0int
        }),
{
    let m = fr_order();
    let v = occ_list(gs, w)[k];
    let pts = sel_points(gs, w, v);
    assert(spec_sel_polys(gs, w)[k] == spec_lagrange(pts));
    assert forall|j: int| 0 <= j < pts.len() implies 0 <= (#[trigger] pts[j]).0 < m && 0 <= pts[
        j].1 < m by {
        assert(pts[j].0 == j + 1);
        if wire_var(gs[j], w) == v {
            assert(pts[j].1 == wire_coeff(gs[j], w));
        } else {
            assert(pts[j].1 == 0);
        }
    }
    assert forall|j: int| 0 <= j < pts.len() && j != t implies (#[trigger] pts[j]).0 != pts[t].0
        by {
        assert(pts[j].0 == j + 1);
        assert(pts[t].0 == t + 1);
    }
    assert forall|i0: int, j: int|
        0 <= i0 < pts.len() && 0 <= j < pts.len() && j != i0 implies ((((#[trigger] pts[i0]).0 - (
    #[trigger] pts[j]).0) % m) * finv((pts[i0].0 - pts[j].0) % m)) % m == 1 by {
        assert(pts[i0].0 == i0 + 1);
        assert(pts[j].0 == j + 1);
        assert(1 <= i0 + 1 <= gs.len() && 1 <= j + 1 <= gs.len() && i0 + 1 != j + 1);
    }
    lemma_interp_sum_eval(pts, pts.len() as int, t);
    assert(poly_eval(spec_lagrange(pts), pts[t].0) == pts[t].1);
    assert(pts[t].0 == t + 1);
}

} // verus!
