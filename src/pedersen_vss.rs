//! Pedersen verifiable secret sharing: the dealer commits to the coefficients of the
//! secret polynomial F and of a blinding polynomial G as `C_j = g^{F_j} h^{G_j}`, and each
//! participant checks its share `(F(i), G(i))` against those commitments.

use crate::field::{dot, q, scalar_from_u64, vals, vandermonde, Scalar};
use crate::group::{
    binary_scalar_mul, hashed_point, logs, multi_scalar_mul, point_from_msg_hash,
    point_is_identity, point_neg, Point,
};
use crate::polynomial::{lemma_dot_powers, poly_eval, poly_sum};
use crate::shamir_secret_sharing::{get_shared_secret_with_polynomial, is_share_set};
use std::collections::HashMap;
use vstd::arithmetic::div_mod::{
    lemma_add_mod_noop, lemma_mod_add_multiples_vanish, lemma_mod_multiples_vanish,
    lemma_mul_mod_noop_left, lemma_mul_mod_noop_right, lemma_small_mod, lemma_sub_mod_noop,
};
use vstd::prelude::*;

verus! {

/// The logarithm of the Pedersen commitment `g^s h^t`.
pub open spec fn commit_log(g: Point, h: Point, s: int, t: int) -> int {
    (g.log() * s + h.log() * t) % q()
}

/// The share `(s, t)` of participant `id` agrees with the first `k` commitments:
/// `prod_j C_j^(id^j) == g^s h^t`.
pub open spec fn share_verifies(
    k: nat,
    id: int,
    s: int,
    t: int,
    comm: Seq<Point>,
    g: Point,
    h: Point,
) -> bool {
    poly_eval(logs(comm.take(k as int)), id) == commit_log(g, h, s, t)
}

/// `label` followed by the bytes of `" : "` and `tag`.
pub open spec fn tagged_label(label: Seq<u8>, tag: u8) -> Seq<u8> {
    label + seq![32u8, 58u8, 32u8, tag]
}

/// `comm` holds the commitments to the coefficients `f` and `gc` of two polynomials.
pub open spec fn commits_to(comm: Seq<Point>, f: Seq<int>, gc: Seq<int>, g: Point, h: Point) -> bool {
    &&& comm.len() == f.len()
    &&& comm.len() == gc.len()
    &&& forall|j: int| 0 <= j < comm.len() ==> #[trigger] comm[j].log() == commit_log(g, h, f[j], gc[j])
}

/// The output of a dealing: for some polynomials F and G with `threshold` coefficients, `s`
/// and `t` are F(0) and G(0), `comm` commits to their coefficients, and the two share sets
/// hold F and G at the identifiers `1..=total`.
pub open spec fn is_dealing(
    s: int,
    t: int,
    comm: Seq<Point>,
    s_shares: Map<usize, Scalar>,
    t_shares: Map<usize, Scalar>,
    threshold: nat,
    total: nat,
    g: Point,
    h: Point,
) -> bool {
    exists|f: Seq<int>, gc: Seq<int>|
        {
            &&& #[trigger] commits_to(comm, f, gc, g, h)
            &&& f.len() == threshold
            &&& s == poly_eval(f, 0)
            &&& t == poly_eval(gc, 0)
            &&& is_share_set(s_shares, f, total)
            &&& is_share_set(t_shares, gc, total)
        }
}

// Pedersen Verifiable secret sharing, after "Non-interactive and information-theoretic
// secure verifiable secret sharing", section 4.
pub struct PedersenVSS {}

impl PedersenVSS {
    /// Generators used for commitment.
    pub fn gens(label: &[u8]) -> (r: (Point, Point))
        ensures
            r.0.encoding() == hashed_point(tagged_label(label@, 103u8)),
            r.1.encoding() == hashed_point(tagged_label(label@, 104u8)),
    {
        let g = point_from_msg_hash(&with_tag(label, 103u8));
        let h = point_from_msg_hash(&with_tag(label, 104u8));
        (g, h)
    }

    /// Executed by dealer. Output secret, blinding, commitment to coefficients of both polynomials
    /// and shares for each participant. Each participant has access to all commitments to coefficients
    /// but only to its own share.
    pub fn deal(threshold: usize, total: usize, g: &Point, h: &Point) -> (r: (
        Scalar,
        Scalar,
        Vec<Point>,
        HashMap<usize, Scalar>,
        HashMap<usize, Scalar>,
    ))
        requires
            1 <= threshold <= total <= i64::MAX,
        ensures
            r.0.wf(),
            r.1.wf(),
            r.2@.len() == threshold,
            is_dealing(r.0.val(), r.1.val(), r.2@, r.3@, r.4@, threshold as nat, total as nat, *g, *h),
            forall|i: usize| #[trigger] r.3@.contains_key(i) <==> 1 <= i <= total,
            forall|i: usize| #[trigger] r.4@.contains_key(i) <==> 1 <= i <= total,
            forall|i: usize| #[trigger] r.3@.contains_key(i) ==> r.3@[i].wf() && r.4@[i].wf(),
            forall|i: usize|
                1 <= i <= total ==> share_verifies(
                    threshold as nat,
                    i as int,
                    #[trigger] r.3@[i].val(),
                    r.4@[i].val(),
                    r.2@,
                    *g,
                    *h,
                ),
    {
        let (s, s_shares, s_poly) = get_shared_secret_with_polynomial(threshold, total);
        let (t, t_shares, t_poly) = get_shared_secret_with_polynomial(threshold, total);
        let ghost f = vals(s_poly@);
        let ghost gc = vals(t_poly@);
        // commitment_coeffs[i] = g^s_poly.coefficients[i] * h^t_poly.coefficients[i]
        let mut commitment_coeffs: Vec<Point> = Vec::new();
        let mut i: usize = 0;
        while i < threshold
            invariant
                i <= threshold,
                s_poly.wf(),
                t_poly.wf(),
                s_poly@.len() == threshold,
                t_poly@.len() == threshold,
                f == vals(s_poly@),
                gc == vals(t_poly@),
                commitment_coeffs@.len() == i,
                forall|j: int|
                    0 <= j < i ==> #[trigger] commitment_coeffs@[j].log() == commit_log(
                        *g,
                        *h,
                        f[j],
                        gc[j],
                    ),
            decreases threshold - i,
        {
            let c = binary_scalar_mul(g, h, &s_poly.coefficients()[i], &t_poly.coefficients()[i]);
            commitment_coeffs.push(c);
            i = i + 1;
        }
        proof {
            assert(commits_to(commitment_coeffs@, f, gc, *g, *h));
            assert forall|i: usize| #[trigger] s_shares@.contains_key(i) implies s_shares@[i].wf()
                && t_shares@[i].wf() by {
                assert(t_shares@.contains_key(i));
            }
            assert forall|i: usize| 1 <= i <= total implies share_verifies(
                threshold as nat,
                i as int,
                #[trigger] s_shares@[i].val(),
                t_shares@[i].val(),
                commitment_coeffs@,
                *g,
                *h,
            ) by {
                assert(s_shares@.contains_key(i));
                assert(t_shares@.contains_key(i));
                assert(commitment_coeffs@.take(threshold as int) =~= commitment_coeffs@);
                lemma_commitments_evaluate(commitment_coeffs@, f, gc, *g, *h, i as int);
            }
        }
        (s, t, commitment_coeffs, s_shares, t_shares)
    }

    /// Executed by each participant to verify its share received from the dealer.
    pub fn verify_share(
        threshold: usize,
        id: usize,
        share: (&Scalar, &Scalar),
        commitment_coeffs: &Vec<Point>,
        g: &Point,
        h: &Point,
    ) -> (r: bool)
        requires
            commitment_coeffs@.len() >= threshold,
            threshold <= i64::MAX,
            1 <= id <= i64::MAX,
            share.0.wf(),
            share.1.wf(),
        ensures
            r == share_verifies(
                threshold as nat,
                id as int,
                share.0.val(),
                share.1.val(),
                commitment_coeffs@,
                *g,
                *h,
            ),
    {
        // exp will be [1, id, id^2, ... id^threshold-1, share.0, share.1]
        let x = scalar_from_u64(id as u64);
        let mut exp = vandermonde(&x, threshold);
        let ghost powers = exp@;
        exp.push(*share.0);
        exp.push(*share.1);
        let mut bases: Vec<Point> = Vec::new();
        let mut i: usize = 0;
        while i < threshold
            invariant
                i <= threshold <= commitment_coeffs@.len(),
                bases@ == commitment_coeffs@.take(i as int),
            decreases threshold - i,
        {
            bases.push(commitment_coeffs[i].duplicate());
            proof {
                assert(bases@ =~= commitment_coeffs@.take(i + 1));
            }
            i = i + 1;
        }
        let ghost comm = bases@;
        // g^share.0 and h^share.1 are inverted so that one multi-scalar multiplication does
        let ng = point_neg(g);
        let nh = point_neg(h);
        let ghost ngl = ng.log();
        let ghost nhl = nh.log();
        bases.push(ng);
        bases.push(nh);
        proof {
            assert forall|j: int| 0 <= j < exp@.len() implies (#[trigger] exp@[j]).wf() by {
                if j < threshold {
                    assert(exp@[j] == powers[j]);
                }
            }
        }
        let m = multi_scalar_mul(&bases, &exp);
        proof {
            let a = logs(comm);
            let v = vals(powers);
            assert(logs(bases@).drop_last().drop_last() =~= a);
            assert(vals(exp@).take(exp@.len() - 1).take(exp@.len() - 2) =~= v);
            assert(logs(bases@).drop_last() =~= logs(bases@.drop_last()));
            assert(vals(exp@).take(exp@.len() - 1) =~= vals(exp@.drop_last()));
            let d = dot(a, v);
            let big_l = logs(bases@);
            let big_e = vals(exp@);
            let k = threshold as int;
            assert(big_l.len() == k + 2 && big_e.len() == k + 2);
            assert(big_l.last() == nhl);
            assert(big_l[k] == ngl);
            assert(big_e[k + 1] == share.1.val());
            assert(big_e[k] == share.0.val());
            assert(dot(big_l, big_e) == dot(big_l.drop_last(), big_e.take(k + 1)) + big_l.last() * big_e[k + 1]);
            assert(dot(big_l.drop_last(), big_e.take(k + 1)) == dot(a, v) + big_l[k] * big_e[k]);
            lemma_dot_powers(a, v, id as int);
            lemma_check(d, g.log(), h.log(), share.0.val(), share.1.val());
        }
        point_is_identity(&m)
    }
}

/// `label` followed by `" : "` and `tag`.
fn with_tag(label: &[u8], tag: u8) -> (r: Vec<u8>)
    ensures
        r@ == tagged_label(label@, tag),
{
    let mut m: Vec<u8> = Vec::new();
    let mut i: usize = 0;
    while i < label.len()
        invariant
            i <= label@.len(),
            m@ == label@.take(i as int),
        decreases label@.len() - i,
    {
        m.push(label[i]);
        proof {
            assert(m@ =~= label@.take(i + 1));
        }
        i = i + 1;
    }
    m.push(32u8);
    m.push(58u8);
    m.push(32u8);
    m.push(tag);
    proof {
        assert(m@ =~= tagged_label(label@, tag));
    }
    m
}

/// The commitments to the coefficients of F and G, evaluated as a polynomial in the
/// exponent at `x`, give the commitment to `(F(x), G(x))`.
pub proof fn lemma_commitments_evaluate(comm: Seq<Point>, f: Seq<int>, gc: Seq<int>, g: Point, h: Point, x: int)
    requires
        commits_to(comm, f, gc, g, h),
    ensures
        poly_eval(logs(comm), x) == commit_log(g, h, poly_eval(f, x), poly_eval(gc, x)),
{
    lemma_commitments_sum(comm, f, gc, g, h, x);
    let pf = poly_sum(f, x);
    let pg = poly_sum(gc, x);
    lemma_mul_mod_noop_right(g.log(), pf, q());
    lemma_mul_mod_noop_right(h.log(), pg, q());
    lemma_add_mod_noop(g.log() * (pf % q()), h.log() * (pg % q()), q());
    lemma_add_mod_noop(g.log() * pf, h.log() * pg, q());
}

proof fn lemma_commitments_sum(comm: Seq<Point>, f: Seq<int>, gc: Seq<int>, g: Point, h: Point, x: int)
    requires
        commits_to(comm, f, gc, g, h),
    ensures
        poly_sum(logs(comm), x) % q() == (g.log() * poly_sum(f, x)
            + h.log() * poly_sum(gc, x)) % q(),
    decreases comm.len(),
{
    if comm.len() > 0 {
        let n = comm.len() - 1;
        assert(commits_to(comm.drop_last(), f.drop_last(), gc.drop_last(), g, h));
        lemma_commitments_sum(comm.drop_last(), f.drop_last(), gc.drop_last(), g, h, x);
        assert(logs(comm).drop_last() =~= logs(comm.drop_last()));
        let w = crate::field::pow(x, n as nat);
        let gl = g.log();
        let hl = h.log();
        let ps = poly_sum(logs(comm.drop_last()), x);
        let pf = poly_sum(f.drop_last(), x);
        let pg = poly_sum(gc.drop_last(), x);
        let e = gl * f[n] + hl * gc[n];
        assert(comm[n].log() == e % q());
        assert(poly_sum(logs(comm), x) == ps + comm[n].log() * w);
        assert(poly_sum(f, x) == pf + f[n] * w);
        assert(poly_sum(gc, x) == pg + gc[n] * w);
        let a = f[n];
        let b = gc[n];
        assert(gl * (pf + a * w) + hl * (pg + b * w) == (gl * pf + hl * pg) + e * w)
            by (nonlinear_arith)
            requires
                e == gl * a + hl * b,
        ;
        lemma_mul_mod_noop_left(e, w, q());
        lemma_add_mod_noop(ps, (e % q()) * w, q());
        lemma_add_mod_noop(gl * pf + hl * pg, e * w, q());
    }
}

/// Pedersen commitments are additively homomorphic: the sum of the commitments to
/// `(s1, t1)` and `(s2, t2)` is the commitment to `(s1 + s2, t1 + t2)`.
pub proof fn lemma_commitment_homomorphic(g: Point, h: Point, s1: int, t1: int, s2: int, t2: int)
    ensures
        (commit_log(g, h, s1, t1) + commit_log(g, h, s2, t2)) % q() == commit_log(
            g,
            h,
            (s1 + s2) % q(),
            (t1 + t2) % q(),
        ),
{
    let gl = g.log();
    let hl = h.log();
    lemma_add_mod_noop(gl * s1 + hl * t1, gl * s2 + hl * t2, q());
    assert((gl * s1 + hl * t1) + (gl * s2 + hl * t2) == gl * (s1 + s2) + hl * (t1 + t2))
        by (nonlinear_arith);
    lemma_mul_mod_noop_right(gl, s1 + s2, q());
    lemma_mul_mod_noop_right(hl, t1 + t2, q());
    lemma_add_mod_noop(gl * ((s1 + s2) % q()), hl * ((t1 + t2) % q()), q());
    lemma_add_mod_noop(gl * (s1 + s2), hl * (t1 + t2), q());
}

/// A difference is zero modulo q exactly when both sides agree modulo q.
proof fn lemma_mod_zero_iff_eq(d: int, e: int)
    ensures
        ((d - e) % q() == 0) == (d % q() == e % q()),
{
    assert(q() > 1);
    lemma_sub_mod_noop(d, e, q());
    let a = d % q();
    let b = e % q();
    assert(0 <= a < q() && 0 <= b < q());
    if a == b {
        assert(0int % q() == 0);
    } else if a > b {
        lemma_small_mod((a - b) as nat, q() as nat);
    } else if a < b {
        lemma_mod_add_multiples_vanish(a - b, q());
        lemma_small_mod((q() + a - b) as nat, q() as nat);
    }
}

/// `d + (-gl) s + (-hl) t` is zero in F_q exactly when `d` is `gl s + hl t` in F_q.
proof fn lemma_check(d: int, gl: int, hl: int, s: int, t: int)
    requires
        0 <= gl < q(),
        0 <= hl < q(),
    ensures
        ((d + ((q() - gl) % q()) * s + ((q() - hl) % q()) * t) % q() == 0) == (d % q() == (gl
            * s + hl * t) % q()),
{
    let a = (q() - gl) % q();
    let b = (q() - hl) % q();
    let dg: int = if gl == 0 { 0 } else { 1 };
    let dh: int = if hl == 0 { 0 } else { 1 };
    if gl == 0 {
        vstd::arithmetic::div_mod::lemma_mod_self_0(q());
    } else {
        lemma_small_mod((q() - gl) as nat, q() as nat);
    }
    if hl == 0 {
        vstd::arithmetic::div_mod::lemma_mod_self_0(q());
    } else {
        lemma_small_mod((q() - hl) as nat, q() as nat);
    }
    assert(a == q() * dg - gl);
    assert(b == q() * dh - hl);
    let qq = q();
    assert(a * s == qq * (dg * s) - gl * s) by (nonlinear_arith)
        requires
            a == qq * dg - gl,
    ;
    assert(b * t == qq * (dh * t) - hl * t) by (nonlinear_arith)
        requires
            b == qq * dh - hl,
    ;
    assert(qq * (dg * s) + qq * (dh * t) == qq * (dg * s + dh * t)) by (nonlinear_arith);
    lemma_mod_multiples_vanish(dg * s + dh * t, d - (gl * s + hl * t), q());
    lemma_mod_zero_iff_eq(d, gl * s + hl * t);
}

} // verus!
