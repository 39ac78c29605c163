//! Polynomials over F_q: random sampling, evaluation and the Lagrange basis at zero.

use crate::field::{
    all_wf, dot, inner_product, pow, q, scalar_add, scalar_from_u64, scalar_inverse,
    scalar_is_zero, scalar_mul, scalar_neg, scalar_random_vec, vals, vandermonde, Scalar,
};
use vstd::arithmetic::div_mod::{
    lemma_add_mod_noop, lemma_mod_add_multiples_vanish, lemma_mul_mod_noop_left,
    lemma_mul_mod_noop_right, lemma_small_mod,
};
use vstd::arithmetic::mul::lemma_mul_is_associative;
use vstd::prelude::*;

verus! {

/// `c_0 + c_1 * x + ... + c_d * x^d` over the integers.
pub open spec fn poly_sum(c: Seq<int>, x: int) -> int
    decreases c.len(),
{
    if c.len() == 0 {
        0
    } else {
        poly_sum(c.drop_last(), x) + c.last() * pow(x, (c.len() - 1) as nat)
    }
}

/// The sum of a sequence of integers.
pub open spec fn seq_sum(c: Seq<int>) -> int
    decreases c.len(),
{
    if c.len() == 0 {
        0
    } else {
        seq_sum(c.drop_last()) + c.last()
    }
}

/// The value in F_q of the polynomial with coefficients `c` (lowest degree first) at `x`.
pub open spec fn poly_eval(c: Seq<int>, x: int) -> int {
    poly_sum(c, x) % q()
}

/// The product in F_q of the identifiers of `xs` other than `i`.
pub open spec fn lagrange_numerator(xs: Seq<usize>, i: usize) -> int
    decreases xs.len(),
{
    if xs.len() == 0 {
        1
    } else if xs.last() == i {
        lagrange_numerator(xs.drop_last(), i)
    } else {
        (lagrange_numerator(xs.drop_last(), i) * xs.last()) % q()
    }
}

/// The product in F_q of `x - i` over the identifiers `x` of `xs` other than `i`.
pub open spec fn lagrange_denominator(xs: Seq<usize>, i: usize) -> int
    decreases xs.len(),
{
    if xs.len() == 0 {
        1
    } else if xs.last() == i {
        lagrange_denominator(xs.drop_last(), i)
    } else {
        (lagrange_denominator(xs.drop_last(), i) * ((xs.last() - i) % q())) % q()
    }
}

/// `lambda` is the Lagrange basis value at zero for `i` over the identifiers `xs`: the
/// quotient in F_q of the products of `x` and of `x - i` over the other identifiers `x`.
/// The denominator is never zero for distinct identifiers below q, as q is prime.
pub open spec fn is_lagrange_basis_at_0(xs: Seq<usize>, i: usize, lambda: int) -> bool {
    &&& 0 <= lambda < q()
    &&& lagrange_denominator(xs, i) != 0 ==> (lambda * lagrange_denominator(xs, i)) % q()
        == lagrange_numerator(xs, i)
    &&& lagrange_denominator(xs, i) == 0 ==> lambda == 0
}

/// A polynomial over F_q, held as its coefficients, lowest degree first.
pub struct Polynomial {
    coeffs: Vec<Scalar>,
}

impl View for Polynomial {
    type V = Seq<Scalar>;

    closed spec fn view(&self) -> Seq<Scalar> {
        self.coeffs@
    }
}

impl Polynomial {
    /// At least one coefficient, each of them canonical.
    pub open spec fn wf(&self) -> bool {
        &&& self@.len() >= 1
        &&& all_wf(self@)
    }

    /// Return a randomly chosen polynomial (each coefficient is randomly chosen) of degree `degree`.
    pub fn random(degree: usize) -> (r: Self)
        requires
            degree < usize::MAX,
        ensures
            r.wf(),
            r@.len() == degree + 1,
    {
        Polynomial { coeffs: scalar_random_vec(degree + 1) }
    }

    pub fn degree(&self) -> (r: usize)
        requires
            self.wf(),
        ensures
            r == self@.len() - 1,
    {
        self.coeffs.len() - 1
    }

    /// Return coefficients starting from lowest degree term
    pub fn coefficients(&self) -> (r: &Vec<Scalar>)
        ensures
            r@ == self@,
    {
        &self.coeffs
    }

    /// Evaluate polynomial at given `x`
    pub fn eval(&self, x: &Scalar) -> (r: Scalar)
        requires
            self.wf(),
            x.wf(),
        ensures
            r.wf(),
            r.val() == poly_eval(vals(self@), x.val()),
    {
        if scalar_is_zero(x) {
            proof {
                lemma_eval_at_zero(vals(self@));
            }
            self.coeffs[0]
        } else {
            let exp = vandermonde(x, self.coeffs.len());
            let r = inner_product(&self.coeffs, &exp);
            proof {
                lemma_dot_powers(vals(self@), vals(exp@), x.val());
            }
            r
        }
    }

    /// Return the Lagrange basis polynomial at x = 0 given the x coordinates
    pub fn lagrange_basis_at_0(x_coords: &Vec<usize>, i: usize) -> (r: Scalar)
        requires
            i <= i64::MAX,
            forall|j: int| 0 <= j < x_coords@.len() ==> #[trigger] x_coords@[j] <= i64::MAX,
        ensures
            r.wf(),
            is_lagrange_basis_at_0(x_coords@, i, r.val()),
    {
        let mut numerator = scalar_from_u64(1);
        let mut denominator = scalar_from_u64(1);
        let i_as_field_elem = scalar_from_u64(i as u64);
        let neg_i = scalar_neg(&i_as_field_elem);
        let mut k: usize = 0;
        while k < x_coords.len()
            invariant
                k <= x_coords@.len(),
                numerator.wf(),
                denominator.wf(),
                neg_i.val() == (q() - i) % q(),
                numerator.val() == lagrange_numerator(x_coords@.take(k as int), i),
                denominator.val() == lagrange_denominator(x_coords@.take(k as int), i),
                forall|j: int| 0 <= j < x_coords@.len() ==> #[trigger] x_coords@[j] <= i64::MAX,
            decreases x_coords@.len() - k,
        {
            let x = x_coords[k];
            proof {
                assert(x_coords@.take(k + 1).drop_last() =~= x_coords@.take(k as int));
            }
            if x != i {
                let x_as_field_elem = scalar_from_u64(x as u64);
                numerator = scalar_mul(&numerator, &x_as_field_elem);
                let x_minus_i = scalar_add(&x_as_field_elem, &neg_i);
                proof {
                    lemma_sub_mod(x as int, i as int);
                }
                denominator = scalar_mul(&denominator, &x_minus_i);
            }
            k = k + 1;
        }
        proof {
            assert(x_coords@.take(k as int) =~= x_coords@);
        }
        let inv = scalar_inverse(&denominator);
        let r = scalar_mul(&numerator, &inv);
        proof {
            let n = numerator.val();
            let d = denominator.val();
            let v = inv.val();
            assert(x_coords@.take(k as int) == x_coords@);
            assert(d == lagrange_denominator(x_coords@, i));
            assert(n == lagrange_numerator(x_coords@, i));
            if d != 0 {
                lemma_mul_mod_noop_left(n * v, d, q());
                lemma_mul_is_associative(n, v, d);
                lemma_mul_mod_noop_right(n, v * d, q());
                assert((v * d) % q() == 1);
                assert(n * 1 == n);
                lemma_small_mod(n as nat, q() as nat);
                assert((r.val() * d) % q() == n);
            } else {
                assert(v == 0);
                assert(n * v == 0) by (nonlinear_arith) requires v == 0;
                assert(r.val() == 0);
            }
        }
        r
    }
}

/// `x + (q - i) mod q` is `x - i` in F_q.
proof fn lemma_sub_mod(x: int, i: int)
    requires
        0 <= x < q(),
        0 <= i < q(),
    ensures
        (x + (q() - i) % q()) % q() == (x - i) % q(),
{
    if i == 0 {
        lemma_mod_add_multiples_vanish(x, q());
        assert((q() - i) % q() == 0) by {
            vstd::arithmetic::div_mod::lemma_mod_self_0(q());
        }
    } else {
        lemma_small_mod((q() - i) as nat, q() as nat);
        lemma_mod_add_multiples_vanish(x - i, q());
    }
}

/// Evaluating with powers reduced modulo q gives the value of the polynomial modulo q.
pub proof fn lemma_dot_powers(a: Seq<int>, b: Seq<int>, x: int)
    requires
        a.len() == b.len(),
        forall|i: int| 0 <= i < b.len() ==> #[trigger] b[i] == if x == 0 {
            0
        } else {
            pow(x, i as nat) % q()
        },
        x != 0,
    ensures
        dot(a, b) % q() == poly_sum(a, x) % q(),
    decreases a.len(),
{
    if a.len() > 0 {
        let n = a.len() - 1;
        let bt = b.take(n);
        assert forall|i: int| 0 <= i < bt.len() implies #[trigger] bt[i] == if x == 0 {
            0
        } else {
            pow(x, i as nat) % q()
        } by {
            assert(bt[i] == b[i]);
        }
        lemma_dot_powers(a.drop_last(), bt, x);
        let d = dot(a.drop_last(), bt);
        let p = poly_sum(a.drop_last(), x);
        let c = a.last();
        let w = pow(x, n as nat);
        assert(b[n] == w % q());
        lemma_mul_mod_noop_right(c, w, q());
        lemma_add_mod_noop(d, c * (w % q()), q());
        lemma_add_mod_noop(p, c * w, q());
    }
}

/// Zero to a positive power is zero.
proof fn lemma_pow_zero(n: nat)
    requires
        n >= 1,
    ensures
        pow(0, n) == 0,
{
}

/// At zero a polynomial is its constant term.
proof fn lemma_poly_sum_at_zero(c: Seq<int>)
    requires
        c.len() >= 1,
    ensures
        poly_sum(c, 0) == c[0],
    decreases c.len(),
{
    if c.len() > 1 {
        lemma_poly_sum_at_zero(c.drop_last());
        lemma_pow_zero((c.len() - 1) as nat);
        assert(c.drop_last()[0] == c[0]);
        let w = pow(0, (c.len() - 1) as nat);
        assert(w == 0);
        assert(c.last() * w == 0) by (nonlinear_arith) requires w == 0;
    } else {
        assert(pow(0, 0) == 1);
        assert(c.drop_last().len() == 0);
        assert(poly_sum(c.drop_last(), 0) == 0);
        assert(c.last() == c[0]);
        assert(c[0] * 1 == c[0]);
    }
}

/// One to any power is one.
proof fn lemma_pow_one(n: nat)
    ensures
        pow(1, n) == 1,
    decreases n,
{
    if n > 0 {
        lemma_pow_one((n - 1) as nat);
    }
}

/// At one a polynomial is the sum of its coefficients.
proof fn lemma_poly_sum_at_one(c: Seq<int>)
    ensures
        poly_sum(c, 1) == seq_sum(c),
    decreases c.len(),
{
    if c.len() > 0 {
        lemma_poly_sum_at_one(c.drop_last());
        lemma_pow_one((c.len() - 1) as nat);
    }
}

/// The polynomial whose coefficients are the sums in F_q of those of `a` and `b` is their
/// sum in F_q.
pub proof fn lemma_poly_sum_add(a: Seq<int>, b: Seq<int>, c: Seq<int>, x: int)
    requires
        a.len() == c.len(),
        b.len() == c.len(),
        forall|j: int| 0 <= j < c.len() ==> #[trigger] c[j] == (a[j] + b[j]) % q(),
    ensures
        poly_sum(c, x) % q() == (poly_sum(a, x) + poly_sum(b, x)) % q(),
    decreases c.len(),
{
    if c.len() > 0 {
        let n = c.len() - 1;
        let c2 = c.drop_last();
        assert forall|j: int| 0 <= j < c2.len() implies #[trigger] c2[j] == (a.drop_last()[j]
            + b.drop_last()[j]) % q() by {
            assert(c2[j] == c[j]);
        }
        lemma_poly_sum_add(a.drop_last(), b.drop_last(), c2, x);
        let w = pow(x, n as nat);
        let pa = poly_sum(a.drop_last(), x);
        let pb = poly_sum(b.drop_last(), x);
        let pc = poly_sum(c2, x);
        let an = a[n];
        let bn = b[n];
        assert((an + bn) * w == an * w + bn * w) by (nonlinear_arith);
        lemma_mul_mod_noop_left(an + bn, w, q());
        lemma_add_mod_noop(pc, c[n] * w, q());
        lemma_add_mod_noop(pa + pb, (an + bn) * w, q());
        assert(poly_sum(a, x) == pa + an * w);
        assert(poly_sum(b, x) == pb + bn * w);
        assert(poly_sum(c, x) == pc + c[n] * w);
    }
}

/// The polynomial with only zero coefficients is zero.
pub proof fn lemma_poly_sum_zeros(c: Seq<int>, x: int)
    requires
        forall|j: int| 0 <= j < c.len() ==> #[trigger] c[j] == 0,
    ensures
        poly_sum(c, x) == 0,
    decreases c.len(),
{
    if c.len() > 0 {
        let c2 = c.drop_last();
        assert forall|j: int| 0 <= j < c2.len() implies #[trigger] c2[j] == 0 by {
            assert(c2[j] == c[j]);
        }
        lemma_poly_sum_zeros(c2, x);
        let w = pow(x, (c.len() - 1) as nat);
        assert(c.last() * w == 0) by (nonlinear_arith) requires c.last() == 0;
    }
}

/// A polynomial over F_q evaluates at zero to its constant coefficient.
pub proof fn lemma_eval_at_zero(c: Seq<int>)
    requires
        c.len() >= 1,
        0 <= c[0] < q(),
    ensures
        poly_eval(c, 0) == c[0],
{
    lemma_poly_sum_at_zero(c);
    lemma_small_mod(c[0] as nat, q() as nat);
}

/// A polynomial over F_q evaluates at one to the sum in F_q of its coefficients.
pub proof fn lemma_eval_at_one(c: Seq<int>)
    ensures
        poly_eval(c, 1) == seq_sum(c) % q(),
{
    lemma_poly_sum_at_one(c);
}

} // verus!
