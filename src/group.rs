//! Points of the group G1 of BLS12-381, a cyclic group of prime order q.
//!
//! A point is held as its canonical text encoding (affine coordinates in hex, or
//! `infinity`). Since G1 is cyclic of order q, a point is fixed by its discrete logarithm
//! to a fixed generator; the contracts speak of that logarithm, `log()`, which no code
//! computes. The group arithmetic is done by `amcl_wrapper`.

use crate::field::{dot, q, vals, all_wf, Scalar};
use amcl_wrapper::group_elem::{GroupElement, GroupElementVector};
use amcl_wrapper::group_elem_g1::{G1, G1Vector};
use amcl_wrapper::field_elem::FieldElement;
use vstd::prelude::*;

verus! {

/// The discrete logarithm, to a fixed generator of G1, of the point whose canonical
/// encoding is `p`.
pub uninterp spec fn discrete_log(p: Seq<char>) -> int;

/// The encoding of the point that `G1::from_msg_hash` maps the message `m` to.
pub uninterp spec fn hashed_point(m: Seq<u8>) -> Seq<char>;

/// An element of G1.
#[derive(Clone, Debug, PartialEq, Eq)]
pub struct Point {
    hex: String,
}

impl Point {
    /// The discrete logarithm of the point, as an element of F_q.
    pub open spec fn log(&self) -> int {
        discrete_log(self.encoding()) % q()
    }

    /// The encoding of the point.
    pub closed spec fn encoding(&self) -> Seq<char> {
        self.hex@
    }

    /// A copy of the point.
    pub fn duplicate(&self) -> (r: Point)
        ensures
            r == *self,
    {
        Point { hex: self.hex.clone() }
    }
}

/// The discrete logarithms of a sequence of points.
pub open spec fn logs(s: Seq<Point>) -> Seq<int> {
    s.map_values(|p: Point| p.log())
}

/// Relies on `G1::identity`: the neutral element, whose logarithm is zero.
#[verifier::external_body]
pub(crate) fn point_identity() -> (r: Point)
    ensures
        discrete_log(r.encoding()) % q() == 0,
{
    Point { hex: G1::identity().to_hex() }
}

/// Relies on `G1::is_identity`.
#[verifier::external_body]
pub(crate) fn point_is_identity(a: &Point) -> (r: bool)
    ensures
        r == (a.log() == 0),
{
    G1::from_hex(a.hex.clone()).unwrap().is_identity()
}

/// Relies on `G1::plus`: the group operation, which adds logarithms.
#[verifier::external_body]
pub(crate) fn point_add(a: &Point, b: &Point) -> (r: Point)
    ensures
        r.log() == (a.log() + b.log()) % q(),
{
    let x = G1::from_hex(a.hex.clone()).unwrap();
    let y = G1::from_hex(b.hex.clone()).unwrap();
    Point { hex: x.plus(&y).to_hex() }
}

/// Relies on `G1::negation`: the inverse in the group.
#[verifier::external_body]
pub(crate) fn point_neg(a: &Point) -> (r: Point)
    ensures
        r.log() == (q() - a.log()) % q(),
{
    Point { hex: G1::from_hex(a.hex.clone()).unwrap().negation().to_hex() }
}

/// Relies on `G1::binary_scalar_mul`: `g * a + h * b`.
#[verifier::external_body]
pub(crate) fn binary_scalar_mul(g: &Point, h: &Point, a: &Scalar, b: &Scalar) -> (r: Point)
    requires
        a.wf(),
        b.wf(),
    ensures
        r.log() == (g.log() * a.val() + h.log() * b.val()) % q(),
{
    let x = G1::from_hex(g.hex.clone()).unwrap();
    let y = G1::from_hex(h.hex.clone()).unwrap();
    let s = FieldElement::from_bytes(&a.bytes).unwrap();
    let t = FieldElement::from_bytes(&b.bytes).unwrap();
    Point { hex: x.binary_scalar_mul(&y, &s, &t).to_hex() }
}

/// Relies on `G1Vector::multi_scalar_mul_var_time`: `b_0 * e_0 + b_1 * e_1 + ...`, for
/// vectors of one length.
#[verifier::external_body]
pub(crate) fn multi_scalar_mul(bases: &Vec<Point>, exps: &Vec<Scalar>) -> (r: Point)
    requires
        bases@.len() == exps@.len(),
        all_wf(exps@),
    ensures
        r.log() == dot(logs(bases@), vals(exps@)) % q(),
{
    let b: Vec<G1> = bases.iter().map(|p| G1::from_hex(p.hex.clone()).unwrap()).collect();
    let e: Vec<FieldElement> = exps.iter().map(|s| FieldElement::from_bytes(&s.bytes).unwrap()).collect();
    Point { hex: G1Vector::from(b).multi_scalar_mul_var_time(&e).unwrap().to_hex() }
}

/// Relies on `G1::from_msg_hash`: a point of G1 that depends on the message alone.
#[verifier::external_body]
pub(crate) fn point_from_msg_hash(m: &Vec<u8>) -> (r: Point)
    ensures
        r.encoding() == hashed_point(m@),
{
    Point { hex: G1::from_msg_hash(m).to_hex() }
}

} // verus!
