//! Scalar-field polynomial arithmetic.
//!
//! A [`Polynomial`] is a dense coefficient vector, lowest degree first.
//! The spec layer models a polynomial as a `Seq<int>` of residues and
//! states every operation pointwise; [`poly_eval`] is Horner evaluation
//! modulo the field order. Two coefficient sequences that agree on every
//! position (treating missing ones as zero) denote the same polynomial,
//! which [`peq`] captures.

use vstd::prelude::*;
use vstd::arithmetic::div_mod::{
    lemma_add_mod_noop, lemma_mod_bound, lemma_mul_mod_noop_left, lemma_mul_mod_noop_right,
    lemma_small_mod, lemma_sub_mod_noop_right,
};
use vstd::arithmetic::mul::{lemma_mul_is_associative, lemma_mul_is_distributive_add};
use crate::fr_order;
use crate::field::Scalar;

verus! {

/// The coefficient of `x^i`, with positions outside the vector read as 0.
pub open spec fn pcoef(p: Seq<int>, i: int) -> int {
    if 0 <= i < p.len() {
        p[i]
    } else {
        0
    }
}

/// Every coefficient is a residue in `[0, fr_order())`.
pub open spec fn in_range(p: Seq<int>) -> bool {
    forall|i: int| 0 <= i < p.len() ==> 0 <= #[trigger] p[i] < fr_order()
}

/// Coefficient sequences that denote the same polynomial.
pub open spec fn peq(a: Seq<int>, b: Seq<int>) -> bool {
    forall|i: int| #![trigger pcoef(a, i), pcoef(b, i)] pcoef(a, i) == pcoef(b, i)
}

/// Pointwise sum modulo the field order.
pub open spec fn padd(a: Seq<int>, b: Seq<int>) -> Seq<int> {
    Seq::new(
        if a.len() >= b.len() {
            a.len()
        } else {
            b.len()
        },
        |i: int| (pcoef(a, i) + pcoef(b, i)) % fr_order(),
    )
}

/// Pointwise difference modulo the field order.
pub open spec fn psub(a: Seq<int>, b: Seq<int>) -> Seq<int> {
    Seq::new(
        if a.len() >= b.len() {
            a.len()
        } else {
            b.len()
        },
        |i: int| (pcoef(a, i) - pcoef(b, i)) % fr_order(),
    )
}

/// Every coefficient scaled by `c`, modulo the field order.
pub open spec fn pscale(c: int, a: Seq<int>) -> Seq<int> {
    Seq::new(a.len(), |i: int| (c * a[i]) % fr_order())
}

/// The polynomial shifted up by `n` positions: multiplication by `x^n`.
pub open spec fn shiftn(n: nat, p: Seq<int>) -> Seq<int> {
    Seq::new(n + p.len(), |i: int| if i < n { 0 } else { p[i - n] })
}

/// Multiplication by `x`, leaving the zero polynomial alone.
pub open spec fn pmulx(p: Seq<int>) -> Seq<int> {
    if p.len() == 0 {
        p
    } else {
        shiftn(1, p)
    }
}

/// The tail of a coefficient sequence; empty stays empty.
pub open spec fn ptail(p: Seq<int>) -> Seq<int> {
    if p.len() == 0 {
        p
    } else {
        p.drop_first()
    }
}

/// Product of two polynomials, by the schoolbook recursion
/// `(a0 + x·a') · b = a0·b + x·(a'·b)`.
pub open spec fn pmul(a: Seq<int>, b: Seq<int>) -> Seq<int>
    decreases a.len(),
{
    if a.len() == 0 {
        Seq::empty()
    } else {
        padd(pscale(a[0], b), pmulx(pmul(a.drop_first(), b)))
    }
}

/// The sequence with trailing zero coefficients removed.
pub open spec fn ptrim(p: Seq<int>) -> Seq<int>
    decreases p.len(),
{
    if p.len() == 0 {
        p
    } else if p.last() == 0 {
        ptrim(p.drop_last())
    } else {
        p
    }
}

/// Horner evaluation modulo the field order.
pub open spec fn poly_eval(p: Seq<int>, x: int) -> int
    decreases p.len(),
{
    if p.len() == 0 {
        0
    } else {
        (p[0] + x * poly_eval(p.drop_first(), x)) % fr_order()
    }
}

pub proof fn lemma_padd_pcoef(a: Seq<int>, b: Seq<int>, i: int)
    ensures
        pcoef(padd(a, b), i) == (pcoef(a, i) + pcoef(b, i)) % fr_order(),
{
}

pub proof fn lemma_psub_pcoef(a: Seq<int>, b: Seq<int>, i: int)
    ensures
        pcoef(psub(a, b), i) == (pcoef(a, i) - pcoef(b, i)) % fr_order(),
{
}

pub proof fn lemma_pscale_pcoef(c: int, a: Seq<int>, i: int)
    ensures
        pcoef(pscale(c, a), i) == (c * pcoef(a, i)) % fr_order(),
{
    if !(0 <= i < a.len()) {
        assert((c * 0) % fr_order() == 0);
    }
}

pub proof fn lemma_pmulx_pcoef(p: Seq<int>, i: int)
    ensures
        pcoef(pmulx(p), i) == if i == 0 {
            0
        } else {
            pcoef(p, i - 1)
        },
{
}

/// A sequence whose coefficients are all zero evaluates to zero.
pub proof fn lemma_eval_zero(p: Seq<int>, x: int)
    requires
        forall|i: int| #![trigger p[i]] 0 <= i < p.len() ==> p[i] == 0,
    ensures
        poly_eval(p, x) == 0,
    decreases p.len(),
{
    if p.len() > 0 {
        lemma_eval_zero(p.drop_first(), x);
        assert(p[0] == 0);
        assert((0 + x * 0) % fr_order() == 0);
    }
}

/// Evaluation only depends on the polynomial denoted, not the length of
/// the coefficient vector.
pub proof fn lemma_eval_peq(a: Seq<int>, b: Seq<int>, x: int)
    requires
        peq(a, b),
    ensures
        poly_eval(a, x) == poly_eval(b, x),
    decreases a.len() + b.len(),
{
    if a.len() == 0 {
        assert forall|i: int| 0 <= i < b.len() implies b[i] == 0 by {
            assert(pcoef(a, i) == pcoef(b, i));
        }
        lemma_eval_zero(b, x);
    } else if b.len() == 0 {
        assert forall|i: int| 0 <= i < a.len() implies a[i] == 0 by {
            assert(pcoef(a, i) == pcoef(b, i));
        }
        lemma_eval_zero(a, x);
    } else {
        assert(pcoef(a, 0) == pcoef(b, 0));
        assert forall|i: int|
            #![trigger pcoef(a.drop_first(), i), pcoef(b.drop_first(), i)]
            true implies pcoef(a.drop_first(), i) == pcoef(b.drop_first(), i) by {
            if i >= 0 {
                assert(pcoef(ptail(a), i) == pcoef(a, i + 1));
                assert(pcoef(ptail(b), i) == pcoef(b, i + 1));
                assert(pcoef(a, i + 1) == pcoef(b, i + 1));
            }
        }
        lemma_eval_peq(a.drop_first(), b.drop_first(), x);
    }
}

/// Evaluation distributes over pointwise addition.
pub proof fn lemma_eval_padd(a: Seq<int>, b: Seq<int>, x: int)
    ensures
        poly_eval(padd(a, b), x) == (poly_eval(a, x) + poly_eval(b, x)) % fr_order(),
    decreases a.len() + b.len(),
{
    let m = fr_order();
    let s = padd(a, b);
    if s.len() == 0 {
        assert(0int % m == 0);
    } else {
        let ta = ptail(a);
        let tb = ptail(b);
        assert(s.drop_first() =~= padd(ta, tb)) by {
            assert forall|i: int| 0 <= i < s.len() - 1 implies s.drop_first()[i] == padd(
                ta,
                tb,
            )[i] by {
                assert(pcoef(ta, i) == pcoef(a, i + 1));
                assert(pcoef(tb, i) == pcoef(b, i + 1));
            }
        }
        lemma_eval_padd(ta, tb, x);
        let ea = poly_eval(ta, x);
        let eb = poly_eval(tb, x);
        let a0 = pcoef(a, 0);
        let b0 = pcoef(b, 0);
        // eval(s) == ((a0 + b0) % m + x * ((ea + eb) % m)) % m
        assert(s[0] == (a0 + b0) % m);
        assert(poly_eval(s, x) == ((a0 + b0) % m + x * ((ea + eb) % m)) % m);
        assert((x * ((ea + eb) % m)) % m == (x * (ea + eb)) % m) by {
            lemma_mul_mod_noop_right(x, ea + eb, m);
        }
        assert(((a0 + b0) % m + x * ((ea + eb) % m)) % m == ((a0 + b0) + x * ((ea + eb) % m)) % m)
            by {
            lemma_add_mod_noop((a0 + b0), x * ((ea + eb) % m), m);
            lemma_small_mod(((a0 + b0) % m + (x * ((ea + eb) % m)) % m) as nat % m as nat, m as nat);
            lemma_add_mod_noop((a0 + b0) % m, x * ((ea + eb) % m), m);
        }
        assert(((a0 + b0) + x * ((ea + eb) % m)) % m == ((a0 + b0) + x * (ea + eb)) % m) by {
            lemma_add_mod_noop_right_helper(a0 + b0, x * ((ea + eb) % m), x * (ea + eb), m);
        }
        assert(x * (ea + eb) == x * ea + x * eb) by {
            lemma_mul_is_distributive_add(x, ea, eb);
        }
        // regroup and reduce each side
        assert(((a0 + x * ea) + (b0 + x * eb)) % m == ((a0 + x * ea) % m + (b0 + x * eb) % m) % m)
            by {
            lemma_add_mod_noop(a0 + x * ea, b0 + x * eb, m);
        }
        if a.len() == 0 {
            assert(a0 == 0);
            assert(ea == 0);
            assert(poly_eval(a, x) == 0);
            assert((a0 + x * ea) % m == 0);
            assert(poly_eval(b, x) == (b0 + x * eb) % m);
            lemma_small_mod(poly_eval(b, x) as nat, m as nat);
            lemma_mod_bound(b0 + x * eb, m);
        } else if b.len() == 0 {
            assert(b0 == 0);
            assert(eb == 0);
            assert(poly_eval(b, x) == 0);
            assert((b0 + x * eb) % m == 0);
            assert(poly_eval(a, x) == (a0 + x * ea) % m);
            lemma_small_mod(poly_eval(a, x) as nat, m as nat);
            lemma_mod_bound(a0 + x * ea, m);
        } else {
            assert(poly_eval(a, x) == (a0 + x * ea) % m);
            assert(poly_eval(b, x) == (b0 + x * eb) % m);
        }
    }
}

proof fn lemma_add_mod_noop_right_helper(u: int, v: int, w: int, m: int)
    requires
        m > 0,
        v % m == w % m,
    ensures
        (u + v) % m == (u + w) % m,
{
    lemma_add_mod_noop(u, v, m);
    lemma_add_mod_noop(u, w, m);
}

/// Evaluation commutes with scaling.
pub proof fn lemma_eval_pscale(c: int, a: Seq<int>, x: int)
    ensures
        poly_eval(pscale(c, a), x) == (c * poly_eval(a, x)) % fr_order(),
    decreases a.len(),
{
    let m = fr_order();
    let s = pscale(c, a);
    if a.len() == 0 {
        assert((c * 0) % m == 0);
    } else {
        let ta = a.drop_first();
        assert(s.drop_first() =~= pscale(c, ta));
        lemma_eval_pscale(c, ta, x);
        let ea = poly_eval(ta, x);
        assert(s[0] == (c * a[0]) % m);
        assert(poly_eval(s, x) == ((c * a[0]) % m + x * ((c * ea) % m)) % m);
        assert((x * ((c * ea) % m)) % m == (x * (c * ea)) % m) by {
            lemma_mul_mod_noop_right(x, c * ea, m);
        }
        assert(((c * a[0]) % m + x * ((c * ea) % m)) % m == ((c * a[0]) + x * ((c * ea) % m)) % m)
            by {
            lemma_add_mod_noop((c * a[0]), x * ((c * ea) % m), m);
            lemma_add_mod_noop((c * a[0]) % m, x * ((c * ea) % m), m);
        }
        assert(((c * a[0]) + x * ((c * ea) % m)) % m == ((c * a[0]) + x * (c * ea)) % m) by {
            lemma_add_mod_noop_right_helper(c * a[0], x * ((c * ea) % m), x * (c * ea), m);
        }
        assert(x * (c * ea) == c * (x * ea)) by {
            lemma_mul_is_associative(x, c, ea);
            lemma_mul_is_associative(c, x, ea);
            assert(x * c == c * x);
        }
        assert(c * a[0] + c * (x * ea) == c * (a[0] + x * ea)) by {
            lemma_mul_is_distributive_add(c, a[0], x * ea);
        }
        assert((c * (a[0] + x * ea)) % m == (c * ((a[0] + x * ea) % m)) % m) by {
            lemma_mul_mod_noop_right(c, a[0] + x * ea, m);
        }
        assert(poly_eval(a, x) == (a[0] + x * ea) % m);
    }
}

/// Evaluation of `x · p` multiplies the value by the point.
pub proof fn lemma_eval_pmulx(p: Seq<int>, x: int)
    ensures
        poly_eval(pmulx(p), x) == (x * poly_eval(p, x)) % fr_order(),
{
    let m = fr_order();
    if p.len() == 0 {
        assert((x * 0) % m == 0);
    } else {
        let s = shiftn(1, p);
        assert(s.len() == p.len() + 1);
        assert(s[0] == 0);
        assert(s.drop_first() =~= p);
        assert(poly_eval(s, x) == (0 + x * poly_eval(p, x)) % m);
    }
}

/// Evaluation turns polynomial products into field products.
pub proof fn lemma_eval_pmul(a: Seq<int>, b: Seq<int>, x: int)
    ensures
        poly_eval(pmul(a, b), x) == (poly_eval(a, x) * poly_eval(b, x)) % fr_order(),
    decreases a.len(),
{
    let m = fr_order();
    let eb = poly_eval(b, x);
    if a.len() == 0 {
        assert((0 * eb) % m == 0);
    } else {
        let ta = a.drop_first();
        lemma_eval_pmul(ta, b, x);
        let eta = poly_eval(ta, x);
        lemma_eval_pscale(a[0], b, x);
        lemma_eval_pmulx(pmul(ta, b), x);
        lemma_eval_padd(pscale(a[0], b), pmulx(pmul(ta, b)), x);
        // eval(pmul(a,b)) == ((a0*eb) % m + (x * ((eta*eb) % m)) % m) % m
        assert(poly_eval(pmul(a, b), x) == ((a[0] * eb) % m + (x * ((eta * eb) % m)) % m) % m);
        assert((x * ((eta * eb) % m)) % m == (x * (eta * eb)) % m) by {
            lemma_mul_mod_noop_right(x, eta * eb, m);
        }
        assert(((a[0] * eb) % m + (x * ((eta * eb) % m)) % m) % m == ((a[0] * eb) + (x * (eta * eb)))
            % m) by {
            lemma_add_mod_noop(a[0] * eb, x * ((eta * eb) % m), m);
            lemma_add_mod_noop_right_helper((a[0] * eb) % m, x * ((eta * eb) % m), x * (eta * eb), m);
            lemma_add_mod_noop(a[0] * eb, x * (eta * eb), m);
        }
        assert(x * (eta * eb) == (x * eta) * eb) by {
            lemma_mul_is_associative(x, eta, eb);
        }
        assert(a[0] * eb + (x * eta) * eb == (a[0] + x * eta) * eb) by {
            lemma_mul_is_distributive_add(eb, a[0], x * eta);
            assert(eb * (a[0] + x * eta) == (a[0] + x * eta) * eb);
            assert(eb * a[0] == a[0] * eb);
            assert(eb * (x * eta) == (x * eta) * eb);
        }
        assert(((a[0] + x * eta) * eb) % m == (((a[0] + x * eta) % m) * eb) % m) by {
            lemma_mul_mod_noop_left(a[0] + x * eta, eb, m);
        }
        assert(poly_eval(a, x) == (a[0] + x * eta) % m);
    }
}


/// The length of a product: degrees add.
pub proof fn lemma_pmul_len(a: Seq<int>, b: Seq<int>)
    ensures
        pmul(a, b).len() == if a.len() == 0 || b.len() == 0 {
            0int
        } else {
            a.len() + b.len() - 1
        },
    decreases a.len(),
{
    if a.len() > 0 {
        lemma_pmul_len(a.drop_first(), b);
    }
}

/// The residues denoted by a vector of scalars, in order.
pub open spec fn views_of(s: Seq<Scalar>) -> Seq<int> {
    Seq::new(s.len(), |i: int| s[i]@)
}

/// A dense polynomial over the scalar field, lowest coefficient first.
#[derive(Debug)]
pub struct Polynomial {
    pub(crate) coeffs: Vec<Scalar>,
}

impl View for Polynomial {
    type V = Seq<int>;

    closed spec fn view(&self) -> Seq<int> {
        views_of(self.coeffs@)
    }
}

impl Polynomial {
    #[verifier::type_invariant]
    pub(crate) open spec fn type_inv(self) -> bool {
        in_range(self.view())
    }
}

/// Packs a coefficient vector into a polynomial; the walk over the
/// elements lets the scalar invariants establish the coefficient range.
fn make_poly(v: Vec<Scalar>) -> (r: Polynomial)
    ensures
        r@ == views_of(v@),
{
    let mut i: usize = 0;
    while i < v.len()
        invariant
            0 <= i <= v@.len(),
            forall|j: int| 0 <= j < i ==> 0 <= #[trigger] v@[j]@ < fr_order(),
        decreases v@.len() - i,
    {
        let velem = &v[i];
        proof {
            use_type_invariant(velem);
            assert(*velem == v@[i as int]);
            assert(0 <= v@[i as int]@ < fr_order());
        }
        i += 1;
    }
    proof {
        assert forall|j: int| 0 <= j < views_of(v@).len() implies 0 <= #[trigger] views_of(
            v@,
        )[j] < fr_order() by {
            assert(views_of(v@)[j] == v@[j]@);
        }
    }
    Polynomial { coeffs: v }
}

impl Clone for Polynomial {
    /// The clone denotes the same polynomial as the original.
    fn clone(&self) -> (r: Self)
        ensures
            r@ == self@,
    {
        let coeffs = clone_scalar_vec(&self.coeffs);
        let r = make_poly(coeffs);
        proof {
            assert(r@ =~= self@);
        }
        r
    }
}

/// Element-for-element copy of a scalar vector.
fn clone_scalar_vec(v: &Vec<Scalar>) -> (r: Vec<Scalar>)
    ensures
        r@.len() == v@.len(),
        forall|i: int| 0 <= i < v@.len() ==> #[trigger] r@[i]@ == v@[i]@,
{
    let mut r: Vec<Scalar> = Vec::new();
    let mut i: usize = 0;
    while i < v.len()
        invariant
            0 <= i <= v@.len(),
            r@.len() == i,
            forall|j: int| 0 <= j < i ==> #[trigger] r@[j]@ == v@[j]@,
        decreases v@.len() - i,
    {
        let velem = &v[i];
        r.push(velem.clone());
        i += 1;
    }
    r
}

impl Polynomial {
    /// The number of stored coefficients.
    pub fn len(&self) -> (r: usize)
        ensures
            r == self@.len(),
    {
        self.coeffs.len()
    }

    /// The coefficient of `x^i`, with positions past the end read as 0.
    pub fn coefficient(&self, i: usize) -> (r: Scalar)
        ensures
            r@ == pcoef(self@, i as int),
    {
        if i < self.coeffs.len() {
            let c = &self.coeffs[i];
            let r = c.clone();
            proof {
                assert(self@[i as int] == self.coeffs@[i as int]@);
            }
            r
        } else {
            Scalar::from_u64(0)
        }
    }

    /// A polynomial from its coefficient vector, lowest degree first.
    pub fn from_coeffs(v: Vec<Scalar>) -> (r: Polynomial)
        ensures
            r@.len() == v@.len(),
            forall|i: int| 0 <= i < v@.len() ==> #[trigger] r@[i] == v@[i]@,
    {
        make_poly(v)
    }

    /// The zero polynomial, as an empty coefficient vector.
    pub fn zero() -> (r: Polynomial)
        ensures
            r@ =~= Seq::<int>::empty(),
    {
        make_poly(Vec::new())
    }

    /// Pointwise sum of two polynomials.
    pub fn add(&self, rhs: &Polynomial) -> (r: Polynomial)
        ensures
            r@ == padd(self@, rhs@),
    {
        let n = if self.coeffs.len() >= rhs.coeffs.len() {
            self.coeffs.len()
        } else {
            rhs.coeffs.len()
        };
        let mut out: Vec<Scalar> = Vec::new();
        let mut i: usize = 0;
        while i < n
            invariant
                0 <= i <= n,
                n == if self@.len() >= rhs@.len() {
                    self@.len()
                } else {
                    rhs@.len()
                },
                out@.len() == i,
                forall|j: int| 0 <= j < i ==> #[trigger] out@[j]@ == (pcoef(self@, j) + pcoef(
                    rhs@,
                    j,
                )) % fr_order(),
            decreases n - i,
        {
            let a = self.coefficient(i);
            let b = rhs.coefficient(i);
            let s = a.add(&b);
            out.push(s);
            i += 1;
        }
        let r = make_poly(out);
        proof {
            assert(r@ =~= padd(self@, rhs@));
        }
        r
    }

    /// Pointwise difference of two polynomials.
    pub fn sub(&self, rhs: &Polynomial) -> (r: Polynomial)
        ensures
            r@ == psub(self@, rhs@),
    {
        let n = if self.coeffs.len() >= rhs.coeffs.len() {
            self.coeffs.len()
        } else {
            rhs.coeffs.len()
        };
        let mut out: Vec<Scalar> = Vec::new();
        let mut i: usize = 0;
        while i < n
            invariant
                0 <= i <= n,
                n == if self@.len() >= rhs@.len() {
                    self@.len()
                } else {
                    rhs@.len()
                },
                out@.len() == i,
                forall|j: int| 0 <= j < i ==> #[trigger] out@[j]@ == (pcoef(self@, j) - pcoef(
                    rhs@,
                    j,
                )) % fr_order(),
            decreases n - i,
        {
            let a = self.coefficient(i);
            let b = rhs.coefficient(i);
            let s = a.sub(&b);
            out.push(s);
            i += 1;
        }
        let r = make_poly(out);
        proof {
            assert(r@ =~= psub(self@, rhs@));
        }
        r
    }

    /// Every coefficient multiplied by `c`.
    pub fn scalar_multiply(&self, c: &Scalar) -> (r: Polynomial)
        ensures
            r@ == pscale(c@, self@),
    {
        let mut out: Vec<Scalar> = Vec::new();
        let mut i: usize = 0;
        while i < self.coeffs.len()
            invariant
                0 <= i <= self@.len(),
                self@.len() == self.coeffs@.len(),
                out@.len() == i,
                forall|j: int| 0 <= j < i ==> #[trigger] out@[j]@ == (c@ * self@[j]) % fr_order(),
            decreases self@.len() - i,
        {
            let a = &self.coeffs[i];
            let s = c.mul(a);
            proof {
                assert(self@[i as int] == self.coeffs@[i as int]@);
            }
            out.push(s);
            i += 1;
        }
        let r = make_poly(out);
        proof {
            assert(r@ =~= pscale(c@, self@));
        }
        r
    }

    /// The polynomial multiplied by `x`: a zero constant term is pushed
    /// in front, except on the zero polynomial, which stays empty.
    fn shift_up(&self) -> (r: Polynomial)
        ensures
            r@ == pmulx(self@),
    {
        let mut coeffs = clone_scalar_vec(&self.coeffs);
        if coeffs.len() > 0 {
            coeffs.insert(0, Scalar::from_u64(0));
        }
        let r = make_poly(coeffs);
        proof {
            assert(r@ =~= pmulx(self@));
        }
        r
    }

    /// Schoolbook product of two polynomials.
    pub fn multiply(&self, rhs: &Polynomial) -> (r: Polynomial)
        ensures
            r@ == pmul(self@, rhs@),
    {
        let mut acc = Polynomial::zero();
        let mut i: usize = self.coeffs.len();
        proof {
            assert(self@.skip(i as int) =~= Seq::<int>::empty());
            assert(acc@ =~= pmul(self@.skip(i as int), rhs@));
        }
        while i > 0
            invariant
                0 <= i <= self@.len(),
                self@.len() == self.coeffs@.len(),
                acc@ == pmul(self@.skip(i as int), rhs@),
            decreases i,
        {
            i -= 1;
            let ci = &self.coeffs[i];
            let scaled = rhs.scalar_multiply(ci);
            let shifted = acc.shift_up();
            let next = scaled.add(&shifted);
            proof {
                let tl = self@.skip(i as int);
                assert(self@[i as int] == self.coeffs@[i as int]@);
                assert(tl.len() > 0);
                assert(tl[0] == self@[i as int]);
                assert(tl.drop_first() =~= self@.skip(i as int + 1));
                assert(next@ == pmul(tl, rhs@));
            }
            acc = next;
        }
        proof {
            assert(self@.skip(0) =~= self@);
        }
        acc
    }

    /// Horner evaluation of the polynomial at `x`.
    pub fn evaluate(&self, x: &Scalar) -> (r: Scalar)
        ensures
            r@ == poly_eval(self@, x@),
    {
        let mut acc = Scalar::from_u64(0);
        let mut i: usize = self.coeffs.len();
        proof {
            assert(self@.skip(i as int) =~= Seq::<int>::empty());
        }
        while i > 0
            invariant
                0 <= i <= self@.len(),
                self@.len() == self.coeffs@.len(),
                acc@ == poly_eval(self@.skip(i as int), x@),
            decreases i,
        {
            i -= 1;
            let t = x.mul(&acc);
            let ci = &self.coeffs[i];
            let next = ci.add(&t);
            proof {
                let m = fr_order();
                let tl = self@.skip(i as int);
                assert(self@[i as int] == self.coeffs@[i as int]@);
                assert(tl.len() > 0);
                assert(tl[0] == self@[i as int]);
                assert(tl.drop_first() =~= self@.skip(i as int + 1));
                let e = poly_eval(self@.skip(i as int + 1), x@);
                assert(next@ == (self@[i as int] + (x@ * e) % m) % m);
                lemma_mod_bound(x@ * e, m);
                lemma_small_mod(((x@ * e) % m) as nat, m as nat);
                lemma_add_mod_noop_right_helper(self@[i as int], (x@ * e) % m, x@ * e, m);
                assert(next@ == poly_eval(tl, x@));
            }
            acc = next;
        }
        proof {
            assert(self@.skip(0) =~= self@);
        }
        acc
    }
}

/// Helper: adding a reduced residue on the left leaves the sum's residue.
proof fn lemma_mod_add_left(u: int, v: int, m: int)
    requires
        m > 0,
    ensures
        (u % m + v) % m == (u + v) % m,
{
    lemma_add_mod_noop(u, v, m);
    lemma_add_mod_noop(u % m, v, m);
    vstd::arithmetic::div_mod::lemma_mod_twice(u, m);
}

/// Helper: adding a reduced residue on the right leaves the sum's residue.
proof fn lemma_mod_add_right(u: int, v: int, m: int)
    requires
        m > 0,
    ensures
        (u + v % m) % m == (u + v) % m,
{
    lemma_add_mod_noop(u, v, m);
    lemma_add_mod_noop(u, v % m, m);
    vstd::arithmetic::div_mod::lemma_mod_twice(v, m);
}

/// Congruence: pointwise sum respects polynomial equality on both sides.
pub proof fn lemma_padd_peq2(a: Seq<int>, a2: Seq<int>, b: Seq<int>, b2: Seq<int>)
    requires
        peq(a, a2),
        peq(b, b2),
    ensures
        peq(padd(a, b), padd(a2, b2)),
{
    assert forall|i: int|
        #![trigger pcoef(padd(a, b), i), pcoef(padd(a2, b2), i)]
        true implies pcoef(padd(a, b), i) == pcoef(padd(a2, b2), i) by {
        lemma_padd_pcoef(a, b, i);
        lemma_padd_pcoef(a2, b2, i);
        assert(pcoef(a, i) == pcoef(a2, i));
        assert(pcoef(b, i) == pcoef(b2, i));
    }
}

/// `(A + S) + (R - S)` denotes the same polynomial as `A + R`.
pub proof fn lemma_padd_psub_cancel(a: Seq<int>, r: Seq<int>, s: Seq<int>)
    ensures
        peq(padd(padd(a, s), psub(r, s)), padd(a, r)),
{
    let m = fr_order();
    assert forall|i: int|
        #![trigger pcoef(padd(padd(a, s), psub(r, s)), i)]
        true implies pcoef(padd(padd(a, s), psub(r, s)), i) == pcoef(padd(a, r), i) by {
        lemma_padd_pcoef(padd(a, s), psub(r, s), i);
        lemma_padd_pcoef(a, s, i);
        lemma_psub_pcoef(r, s, i);
        lemma_padd_pcoef(a, r, i);
        let pa = pcoef(a, i);
        let pr = pcoef(r, i);
        let ps = pcoef(s, i);
        lemma_add_mod_noop(pa + ps, pr - ps, m);
        vstd::arithmetic::div_mod::lemma_mod_twice(pa + ps, m);
        vstd::arithmetic::div_mod::lemma_mod_twice(pr - ps, m);
        assert(((pa + ps) % m + (pr - ps) % m) % m == ((pa + ps) + (pr - ps)) % m);
    }
}

/// Adding a polynomial with all-zero coefficients changes nothing, as
/// long as the other summand is already reduced.
pub proof fn lemma_padd_zero_left(z: Seq<int>, a: Seq<int>)
    requires
        forall|i: int| #![trigger pcoef(z, i)] pcoef(z, i) == 0,
        in_range(a),
    ensures
        peq(padd(z, a), a),
{
    let m = fr_order();
    assert forall|i: int|
        #![trigger pcoef(padd(z, a), i)]
        true implies pcoef(padd(z, a), i) == pcoef(a, i) by {
        lemma_padd_pcoef(z, a, i);
        if 0 <= i < a.len() {
            lemma_small_mod(pcoef(a, i) as nat, m as nat);
        } else {
            assert(pcoef(a, i) == 0);
            assert((0int + 0int) % m == 0);
        }
    }
}

/// Multiplying by a polynomial with all-zero coefficients yields zero
/// coefficients everywhere.
pub proof fn lemma_pmul_zero_left(q: Seq<int>, d: Seq<int>)
    requires
        forall|i: int| #![trigger q[i]] 0 <= i < q.len() ==> q[i] == 0,
    ensures
        forall|i: int| #![trigger pcoef(pmul(q, d), i)] pcoef(pmul(q, d), i) == 0,
    decreases q.len(),
{
    let m = fr_order();
    if q.len() == 0 {
    } else {
        let tq = q.drop_first();
        lemma_pmul_zero_left(tq, d);
        assert forall|i: int|
            #![trigger pcoef(pmul(q, d), i)]
            true implies pcoef(pmul(q, d), i) == 0 by {
            lemma_padd_pcoef(pscale(q[0], d), pmulx(pmul(tq, d)), i);
            lemma_pscale_pcoef(q[0], d, i);
            assert(q[0] == 0);
            assert((0int * pcoef(d, i)) % m == 0);
            lemma_pmulx_pcoef(pmul(tq, d), i);
            assert(pcoef(pmulx(pmul(tq, d)), i) == 0);
            assert((0int + 0int) % m == 0);
        }
    }
}

/// Shifting commutes with the `x`-multiplication step.
proof fn lemma_pmulx_shiftn(j: nat, p: Seq<int>)
    ensures
        peq(pmulx(shiftn(j, p)), shiftn(j + 1, p)),
{
    assert forall|i: int|
        #![trigger pcoef(pmulx(shiftn(j, p)), i)]
        true implies pcoef(pmulx(shiftn(j, p)), i) == pcoef(shiftn(j + 1, p), i) by {
        lemma_pmulx_pcoef(shiftn(j, p), i);
    }
}

/// The `x`-multiplication step respects polynomial equality.
proof fn lemma_pmulx_peq(a: Seq<int>, b: Seq<int>)
    requires
        peq(a, b),
    ensures
        peq(pmulx(a), pmulx(b)),
{
    assert forall|i: int|
        #![trigger pcoef(pmulx(a), i), pcoef(pmulx(b), i)]
        true implies pcoef(pmulx(a), i) == pcoef(pmulx(b), i) by {
        lemma_pmulx_pcoef(a, i);
        lemma_pmulx_pcoef(b, i);
        if i != 0 {
            assert(pcoef(a, i - 1) == pcoef(b, i - 1));
        }
    }
}

/// Writing `c` into a zero slot of `q` adds the single term
/// `c · x^j · d` to the product `q · d`.
pub proof fn lemma_pmul_update(q: Seq<int>, j: int, c: int, d: Seq<int>)
    requires
        0 <= j < q.len(),
        q[j] == 0,
    ensures
        peq(pmul(q.update(j, c), d), padd(pmul(q, d), shiftn(j as nat, pscale(c, d)))),
    decreases j,
{
    let m = fr_order();
    let q2 = q.update(j, c);
    let s = shiftn(j as nat, pscale(c, d));
    if j == 0 {
        let tq = q.drop_first();
        assert(q2.drop_first() =~= tq);
        assert(q2[0] == c);
        assert(pmul(q2, d) == padd(pscale(c, d), pmulx(pmul(tq, d))));
        assert(pmul(q, d) == padd(pscale(0, d), pmulx(pmul(tq, d))));
        assert forall|i: int|
            #![trigger pcoef(pmul(q2, d), i)]
            true implies pcoef(pmul(q2, d), i) == pcoef(padd(pmul(q, d), s), i) by {
            let x = pcoef(pmulx(pmul(tq, d)), i);
            let sc = pcoef(pscale(c, d), i);
            lemma_padd_pcoef(pscale(c, d), pmulx(pmul(tq, d)), i);
            lemma_padd_pcoef(pscale(0, d), pmulx(pmul(tq, d)), i);
            lemma_padd_pcoef(pmul(q, d), s, i);
            lemma_pscale_pcoef(0, d, i);
            lemma_pscale_pcoef(c, d, i);
            assert((0int * pcoef(d, i)) % m == 0);
            assert(pcoef(s, i) == sc) by {
                assert(s =~= pscale(c, d));
            }
            // lhs: (sc + x) % m ; rhs: ((0 + x) % m + sc) % m
            lemma_mod_add_left(0 + x, sc, m);
            assert(((0 + x) % m + sc) % m == (x + sc) % m);
        }
    } else {
        let tq = q.drop_first();
        let tq2 = q2.drop_first();
        assert(tq2 =~= tq.update(j - 1, c));
        assert(tq[j - 1] == 0);
        lemma_pmul_update(tq, j - 1, c, d);
        let inner = pscale(c, d);
        // pmul(q2, d) = padd(pscale(q[0], d), pmulx(pmul(tq2, d)))
        assert(q2[0] == q[0]);
        lemma_pmulx_peq(pmul(tq2, d), padd(pmul(tq, d), shiftn((j - 1) as nat, inner)));
        lemma_pmulx_padd(pmul(tq, d), shiftn((j - 1) as nat, inner));
        lemma_pmulx_shiftn((j - 1) as nat, inner);
        assert forall|i: int|
            #![trigger pcoef(pmul(q2, d), i)]
            true implies pcoef(pmul(q2, d), i) == pcoef(padd(pmul(q, d), s), i) by {
            let h = pcoef(pscale(q[0], d), i);
            lemma_padd_pcoef(pscale(q[0], d), pmulx(pmul(tq2, d)), i);
            lemma_padd_pcoef(pscale(q[0], d), pmulx(pmul(tq, d)), i);
            lemma_padd_pcoef(pmul(q, d), s, i);
            // pcoef(pmulx(pmul(tq2,d)), i) == (pcoef(pmulx(pmul(tq,d)),i) + pcoef(shiftn(j,inner),i)) % m
            let u = pcoef(pmulx(pmul(tq, d)), i);
            let v = pcoef(s, i);
            assert(pcoef(pmulx(pmul(tq2, d)), i) == pcoef(
                pmulx(padd(pmul(tq, d), shiftn((j - 1) as nat, inner))),
                i,
            ));
            assert(pcoef(pmulx(padd(pmul(tq, d), shiftn((j - 1) as nat, inner))), i) == pcoef(
                padd(pmulx(pmul(tq, d)), pmulx(shiftn((j - 1) as nat, inner))),
                i,
            ));
            lemma_padd_pcoef(pmulx(pmul(tq, d)), pmulx(shiftn((j - 1) as nat, inner)), i);
            assert(pcoef(pmulx(shiftn((j - 1) as nat, inner)), i) == pcoef(
                shiftn(j as nat, inner),
                i,
            ));
            // lhs: (h + (u + v) % m) % m ; rhs: ((h + u) % m + v) % m
            lemma_mod_add_right(h, u + v, m);
            lemma_mod_add_left(h + u, v, m);
        }
    }
}

/// Distributing the `x`-multiplication step over a pointwise sum.
proof fn lemma_pmulx_padd(a: Seq<int>, b: Seq<int>)
    ensures
        peq(pmulx(padd(a, b)), padd(pmulx(a), pmulx(b))),
{
    let m = fr_order();
    assert forall|i: int|
        #![trigger pcoef(pmulx(padd(a, b)), i)]
        true implies pcoef(pmulx(padd(a, b)), i) == pcoef(padd(pmulx(a), pmulx(b)), i) by {
        lemma_pmulx_pcoef(padd(a, b), i);
        lemma_padd_pcoef(pmulx(a), pmulx(b), i);
        lemma_pmulx_pcoef(a, i);
        lemma_pmulx_pcoef(b, i);
        if i == 0 {
            assert((0int + 0int) % m == 0);
        } else {
            lemma_padd_pcoef(a, b, i - 1);
        }
    }
}

/// Zeros at the tail of a sequence are exactly what trimming removes.
pub proof fn lemma_ptrim_zeros(p: Seq<int>, k: int)
    requires
        0 <= k <= p.len(),
        forall|j: int| #![trigger p[j]] k <= j < p.len() ==> p[j] == 0,
    ensures
        ptrim(p) == ptrim(p.subrange(0, k)),
    decreases p.len() - k,
{
    if k == p.len() {
        assert(p.subrange(0, k) =~= p);
    } else {
        assert(p.last() == 0);
        assert(p.drop_last() =~= p.subrange(0, p.len() - 1));
        lemma_ptrim_zeros(p.drop_last(), k);
        assert(p.drop_last().subrange(0, k) =~= p.subrange(0, k));
    }
}

/// Division failure: the divisor denoted the zero polynomial.
#[derive(Debug, Clone, Copy, PartialEq, Eq, Structural)]
pub enum DivisionError {
    ZeroDivisor,
}

/// The top coefficient vanishes after one elimination step:
/// `r - ((r·li) mod m)·ld ≡ 0 (mod m)` whenever `li·ld ≡ 1 (mod m)`.
proof fn lemma_reduce_top(r: int, li: int, ld: int, m: int)
    requires
        m > 0,
        0 <= r < m,
        (li * ld) % m == 1,
    ensures
        (r - ((r * li) % m * ld) % m) % m == 0,
{
    lemma_mul_mod_noop_left(r * li, ld, m);
    assert(((r * li) % m * ld) % m == (r * li * ld) % m);
    lemma_mul_is_associative(r, li, ld);
    assert(r * li * ld == r * (li * ld));
    lemma_mul_mod_noop_right(r, li * ld, m);
    assert((r * (li * ld)) % m == (r * ((li * ld) % m)) % m);
    assert(r * 1 == r);
    lemma_small_mod(r as nat, m as nat);
    assert(((r * li) % m * ld) % m == r);
    assert((0int) % m == 0);
}

impl Polynomial {
    /// Long division with remainder in the scalar field: on a non-zero
    /// divisor `d`, returns `(q, r)` with `self = q·d + r` and
    /// `deg r < deg d`; a divisor denoting the zero polynomial is
    /// rejected with [`DivisionError::ZeroDivisor`].
    #[verifier::loop_isolation(false)]
    pub fn divide_with_remainder(&self, divisor: &Polynomial) -> (res: Result<
        (Polynomial, Polynomial),
        DivisionError,
    >)
        ensures
            ptrim(divisor@).len() == 0 <==> (res matches Err(DivisionError::ZeroDivisor)),
            res matches Ok(qr) ==> {
                &&& peq(self@, padd(pmul(qr.0@, divisor@), qr.1@))
                &&& qr.1@.len() < ptrim(divisor@).len()
                &&& qr.0@.len() == if self@.len() >= ptrim(divisor@).len() {
                    self@.len() - ptrim(divisor@).len() + 1
                } else {
                    0int
                }
            },
    {
        proof {
            use_type_invariant(self);
            use_type_invariant(divisor);
        }
        let dlen = divisor.coeffs.len();
        let zs = Scalar::from_u64(0);
        let mut dd: usize = dlen;
        let mut scanning = true;
        while scanning && dd > 0
            invariant
                0 <= dd <= divisor@.len(),
                forall|j: int| #![trigger divisor@[j]] dd <= j < divisor@.len() ==> divisor@[j]
                    == 0,
                !scanning ==> dd > 0 && divisor@[dd - 1] != 0,
            decreases dd + (if scanning { 1int } else { 0int }),
        {
            let c = &divisor.coeffs[dd - 1];
            proof {
                assert(divisor@[dd - 1] == divisor.coeffs@[dd - 1]@);
            }
            if c.equals(&zs) {
                dd -= 1;
            } else {
                scanning = false;
            }
        }
        proof {
            lemma_ptrim_zeros(divisor@, dd as int);
            if dd > 0 {
                let sub = divisor@.subrange(0, dd as int);
                assert(sub.last() == divisor@[dd - 1]);
                assert(ptrim(sub) == sub);
            }
        }
        if dd == 0 {
            return Err(DivisionError::ZeroDivisor);
        }
        let ghost dv = divisor@;
        let ghost dt = ptrim(dv);
        let ghost m = fr_order();
        proof {
            assert(dt.len() == dd as int);
        }
        let lead = &divisor.coeffs[dd - 1];
        proof {
            assert(divisor@[dd - 1] == divisor.coeffs@[dd - 1]@);
        }
        let linv = match lead.inverse() {
            Some(s) => s,
            None => {
                proof {
                    assert(false);
                }
                vstd::pervasive::unreached()
            },
        };
        proof {
            assert((linv@ * dv[dd - 1]) % m == 1);
        }
        let n = self.coeffs.len();
        let mut rem: Vec<Scalar> = clone_scalar_vec(&self.coeffs);
        proof {
            assert(in_range(self@));
            assert forall|j: int| 0 <= j < n implies 0 <= #[trigger] rem@[j]@ < m by {
                assert(rem@[j]@ == self.coeffs@[j]@);
                assert(self@[j] == self.coeffs@[j]@);
            }
        }
        let qlen: usize = if n >= dd {
            n - dd + 1
        } else {
            0
        };
        let mut quot: Vec<Scalar> = Vec::new();
        while quot.len() < qlen
            invariant
                quot@.len() <= qlen,
                forall|j: int| #![trigger quot@[j]] 0 <= j < quot@.len() ==> quot@[j]@ == 0,
            decreases qlen - quot@.len(),
        {
            quot.push(Scalar::from_u64(0));
        }
        let mut k: usize = n;
        proof {
            lemma_pmul_zero_left(views_of(quot@), dv);
            assert(views_of(rem@) =~= self@);
            lemma_padd_zero_left(pmul(views_of(quot@), dv), views_of(rem@));
            assert forall|i: int|
                #![trigger pcoef(self@, i)]
                true implies pcoef(self@, i) == pcoef(
                padd(pmul(views_of(quot@), dv), views_of(rem@)),
                i,
            ) by {
                assert(pcoef(views_of(rem@), i) == pcoef(self@, i));
            }
        }
        while k >= dd
            invariant
                k <= n,
                rem@.len() == n,
                quot@.len() == qlen,
                forall|j: int| #![trigger rem@[j]] 0 <= j < n ==> 0 <= rem@[j]@ < m,
                forall|j: int| #![trigger rem@[j]] k <= j < n ==> rem@[j]@ == 0,
                forall|j: int| #![trigger quot@[j]] 0 <= j < qlen && j + dd <= k ==> quot@[j]@
                    == 0,
                peq(self@, padd(pmul(views_of(quot@), dv), views_of(rem@))),
            decreases k,
        {
            let idx = k - dd;
            let ghost old_rv = views_of(rem@);
            let ghost old_qv = views_of(quot@);
            let rtop = &rem[k - 1];
            let factor = rtop.mul(&linv);
            proof {
                assert(old_rv[k - 1] == rem@[k - 1]@);
                assert(factor@ == (old_rv[k - 1] * linv@) % m);
            }
            quot.set(idx, factor.clone());
            proof {
                assert(views_of(quot@) =~= old_qv.update(idx as int, factor@));
                assert(old_qv[idx as int] == 0);
                lemma_pmul_update(old_qv, idx as int, factor@, dv);
            }
            let ghost shift_term = shiftn(idx as nat, pscale(factor@, dv));
            let mut j: usize = 0;
            while j < dd
                invariant
                    j <= dd,
                    rem@.len() == n,
                    forall|t: int| #![trigger rem@[t]] 0 <= t < n && !(idx <= t < idx + j)
                        ==> rem@[t]@ == old_rv[t],
                    forall|t: int| #![trigger rem@[t]] idx <= t < idx + j ==> rem@[t]@ == (
                    old_rv[t] - (factor@ * dv[t - idx]) % m) % m,
                    forall|t: int| #![trigger rem@[t]] 0 <= t < n ==> 0 <= rem@[t]@ < m,
                decreases dd - j,
            {
                let t = factor.mul(&divisor.coeffs[j]);
                let relem = &rem[idx + j];
                let nv = relem.sub(&t);
                proof {
                    use_type_invariant(&nv);
                    assert(divisor.coeffs@[j as int]@ == dv[j as int]);
                    assert(t@ == (factor@ * dv[j as int]) % m);
                }
                rem.set(idx + j, nv);
                j += 1;
            }
            proof {
                let rv = views_of(rem@);
                // the window update is exactly a shifted, scaled subtraction
                assert forall|t: int|
                    #![trigger pcoef(rv, t)]
                    true implies pcoef(rv, t) == pcoef(psub(old_rv, shift_term), t) by {
                    lemma_psub_pcoef(old_rv, shift_term, t);
                    if 0 <= t < n {
                        assert(rv[t] == rem@[t]@);
                        if idx <= t < idx + dd {
                            assert(pcoef(shift_term, t) == pcoef(pscale(factor@, dv), t - idx));
                            lemma_pscale_pcoef(factor@, dv, t - idx);
                        } else {
                            if t >= idx + dd {
                                assert(pcoef(shift_term, t) == pcoef(
                                    pscale(factor@, dv),
                                    t - idx,
                                ));
                                lemma_pscale_pcoef(factor@, dv, t - idx);
                                if t - idx < dv.len() {
                                    assert(dv[t - idx] == 0);
                                }
                                assert((factor@ * 0) % m == 0);
                                assert(pcoef(shift_term, t) == 0);
                            } else {
                                assert(pcoef(shift_term, t) == 0);
                            }
                            lemma_small_mod(old_rv[t] as nat, m as nat);
                        }
                    } else {
                        if t >= 0 {
                            if 0 <= t - idx < dv.len() {
                                assert(dv[t - idx] == 0);
                                lemma_pscale_pcoef(factor@, dv, t - idx);
                                assert((factor@ * 0) % m == 0);
                            } else if t - idx >= 0 {
                                lemma_pscale_pcoef(factor@, dv, t - idx);
                            }
                            assert(pcoef(shift_term, t) == 0);
                            assert((0int - 0int) % m == 0);
                        }
                    }
                }
                // carry the division identity across the step
                let new_qv = views_of(quot@);
                assert(peq(pmul(new_qv, dv), padd(pmul(old_qv, dv), shift_term))) by {
                    assert(new_qv =~= old_qv.update(idx as int, factor@));
                }
                lemma_padd_peq2(
                    pmul(new_qv, dv),
                    padd(pmul(old_qv, dv), shift_term),
                    rv,
                    psub(old_rv, shift_term),
                );
                lemma_padd_psub_cancel(pmul(old_qv, dv), old_rv, shift_term);
                assert forall|i: int|
                    #![trigger pcoef(self@, i)]
                    true implies pcoef(self@, i) == pcoef(padd(pmul(new_qv, dv), rv), i) by {
                    assert(pcoef(padd(pmul(new_qv, dv), rv), i) == pcoef(
                        padd(padd(pmul(old_qv, dv), shift_term), psub(old_rv, shift_term)),
                        i,
                    ));
                    assert(pcoef(
                        padd(padd(pmul(old_qv, dv), shift_term), psub(old_rv, shift_term)),
                        i,
                    ) == pcoef(padd(pmul(old_qv, dv), old_rv), i));
                    assert(pcoef(self@, i) == pcoef(padd(pmul(old_qv, dv), old_rv), i));
                }
                // the eliminated top coefficient is now zero
                assert(rv[k - 1] == (old_rv[k - 1] - (factor@ * dv[dd - 1]) % m) % m);
                lemma_reduce_top(old_rv[k - 1], linv@, dv[dd - 1], m);
                assert(rv[k - 1] == 0);
                assert(rem@[k - 1]@ == 0);
            }
            k -= 1;
        }
        let ghost rv_pre = views_of(rem@);
        rem.truncate(k);
        let q = make_poly(quot);
        let r = make_poly(rem);
        proof {
            assert(r@ =~= rv_pre.subrange(0, k as int));
            assert forall|t: int|
                #![trigger pcoef(r@, t)]
                true implies pcoef(r@, t) == pcoef(rv_pre, t) by {
                if k <= t < n {
                    assert(rv_pre[t] == 0);
                }
            }
            lemma_padd_peq2(pmul(q@, dv), pmul(q@, dv), rv_pre, r@);
            assert forall|i: int|
                #![trigger pcoef(self@, i)]
                true implies pcoef(self@, i) == pcoef(padd(pmul(q@, dv), r@), i) by {
                assert(pcoef(self@, i) == pcoef(padd(pmul(q@, dv), rv_pre), i));
                assert(pcoef(padd(pmul(q@, dv), rv_pre), i) == pcoef(padd(pmul(q@, dv), r@), i));
            }
            assert(r@.len() == k as int);
            assert(q@.len() == qlen as int);
        }
        Ok((q, r))
    }
}

/// Product entries are reduced residues.
pub proof fn lemma_pmul_in_range(a: Seq<int>, b: Seq<int>)
    ensures
        in_range(pmul(a, b)),
    decreases a.len(),
{
    if a.len() == 0 {
    } else {
        assert forall|i: int| 0 <= i < pmul(a, b).len() implies 0 <= #[trigger] pmul(a, b)[i]
            < fr_order() by {
            assert(pmul(a, b)[i] == (pcoef(pscale(a[0], b), i) + pcoef(
                pmulx(pmul(a.drop_first(), b)),
                i,
            )) % fr_order());
        }
    }
}

/// The leading coefficient of a product is the reduced product of the
/// leading coefficients.
pub proof fn lemma_pmul_last(a: Seq<int>, b: Seq<int>)
    requires
        a.len() >= 1,
        b.len() >= 1,
    ensures
        pmul(a, b).last() == (a.last() * b.last()) % fr_order(),
    decreases a.len(),
{
    let m = fr_order();
    lemma_pmul_len(a, b);
    let idx = a.len() + b.len() - 2;
    if a.len() == 1 {
        let ta = a.drop_first();
        assert(pmul(ta, b) =~= Seq::<int>::empty());
        assert(pmulx(pmul(ta, b)) =~= Seq::<int>::empty());
        assert(pmul(a, b)[idx as int] == (pcoef(pscale(a[0], b), idx as int) + 0) % m);
        assert(pcoef(pscale(a[0], b), idx as int) == (a[0] * b.last()) % m);
        lemma_mod_twice_pub((a[0] * b.last()), m);
        assert(a[0] == a.last());
    } else {
        let ta = a.drop_first();
        lemma_pmul_last(ta, b);
        lemma_pmul_len(ta, b);
        let x = pmul(ta, b);
        assert(x.len() == ta.len() + b.len() - 1);
        assert(pmul(a, b)[idx as int] == (pcoef(pscale(a[0], b), idx as int) + pcoef(
            pmulx(x),
            idx as int,
        )) % m);
        assert(pcoef(pscale(a[0], b), idx as int) == 0);
        assert(pcoef(pmulx(x), idx as int) == pcoef(x, idx - 1)) by {
            lemma_pmulx_pcoef(x, idx as int);
        }
        assert(pcoef(x, idx - 1) == x.last());
        assert(x.last() == (ta.last() * b.last()) % m);
        lemma_pmul_in_range(ta, b);
        assert(0 <= x.last() < m);
        lemma_small_mod(x.last() as nat, m as nat);
        assert(ta.last() == a.last());
    }
}

/// Reducing twice is reducing once.
proof fn lemma_mod_twice_pub(x: int, m: int)
    requires
        m > 0,
    ensures
        (x % m) % m == x % m,
{
    vstd::arithmetic::div_mod::lemma_mod_twice(x, m);
}

/// Evaluation results are reduced residues.
pub proof fn lemma_eval_range(p: Seq<int>, x: int)
    ensures
        0 <= poly_eval(p, x) < fr_order(),
    decreases p.len(),
{
    if p.len() == 0 {
    } else {
        lemma_mod_bound(p[0] + x * poly_eval(p.drop_first(), x), fr_order());
    }
}

/// Evaluation distributes over pointwise subtraction.
pub proof fn lemma_eval_psub(a: Seq<int>, b: Seq<int>, x: int)
    ensures
        poly_eval(psub(a, b), x) == (poly_eval(a, x) - poly_eval(b, x)) % fr_order(),
    decreases a.len() + b.len(),
{
    let m = fr_order();
    let s = psub(a, b);
    if s.len() == 0 {
        assert(0int % m == 0);
    } else {
        let ta = ptail(a);
        let tb = ptail(b);
        assert(s.drop_first() =~= psub(ta, tb)) by {
            assert forall|i: int| 0 <= i < s.len() - 1 implies s.drop_first()[i] == psub(
                ta,
                tb,
            )[i] by {
                assert(pcoef(ta, i) == pcoef(a, i + 1));
                assert(pcoef(tb, i) == pcoef(b, i + 1));
            }
        }
        lemma_eval_psub(ta, tb, x);
        let ea = poly_eval(ta, x);
        let eb = poly_eval(tb, x);
        let a0 = pcoef(a, 0);
        let b0 = pcoef(b, 0);
        assert(s[0] == (a0 - b0) % m);
        assert(poly_eval(s, x) == ((a0 - b0) % m + x * ((ea - eb) % m)) % m);
        assert((x * ((ea - eb) % m)) % m == (x * (ea - eb)) % m) by {
            lemma_mul_mod_noop_right(x, ea - eb, m);
        }
        assert(((a0 - b0) % m + x * ((ea - eb) % m)) % m == ((a0 - b0) + x * ((ea - eb) % m)) % m)
            by {
            lemma_add_mod_noop((a0 - b0), x * ((ea - eb) % m), m);
            lemma_add_mod_noop((a0 - b0) % m, x * ((ea - eb) % m), m);
            vstd::arithmetic::div_mod::lemma_mod_twice(a0 - b0, m);
        }
        assert(((a0 - b0) + x * ((ea - eb) % m)) % m == ((a0 - b0) + x * (ea - eb)) % m) by {
            lemma_add_mod_noop_right_helper(a0 - b0, x * ((ea - eb) % m), x * (ea - eb), m);
            vstd::arithmetic::div_mod::lemma_mod_twice(x * (ea - eb), m);
        }
        assert(x * (ea - eb) == x * ea - x * eb) by {
            vstd::arithmetic::mul::lemma_mul_is_distributive_sub(x, ea, eb);
        }
        assert(((a0 + x * ea) - (b0 + x * eb)) % m == ((a0 + x * ea) % m - (b0 + x * eb) % m) % m)
            by {
            vstd::arithmetic::div_mod::lemma_sub_mod_noop(a0 + x * ea, b0 + x * eb, m);
        }
        if a.len() == 0 {
            assert(a0 == 0);
            assert(ea == 0);
            assert(poly_eval(a, x) == 0);
            assert((a0 + x * ea) % m == 0);
            assert(poly_eval(b, x) == (b0 + x * eb) % m);
            lemma_small_mod(poly_eval(b, x) as nat, m as nat);
            lemma_mod_bound(b0 + x * eb, m);
        } else if b.len() == 0 {
            assert(b0 == 0);
            assert(eb == 0);
            assert(poly_eval(b, x) == 0);
            assert((b0 + x * eb) % m == 0);
            assert(poly_eval(a, x) == (a0 + x * ea) % m);
            lemma_small_mod(poly_eval(a, x) as nat, m as nat);
            lemma_mod_bound(a0 + x * ea, m);
        } else {
            assert(poly_eval(a, x) == (a0 + x * ea) % m);
            assert(poly_eval(b, x) == (b0 + x * eb) % m);
        }
    }
}

} // verus!
