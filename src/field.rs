//! Scalars of the prime field F_q, where q is the order of the BLS12-381 group G1.
//!
//! A scalar is held as its 48-byte big-endian encoding; its mathematical value is `val()`.
//! The arithmetic itself is done by `amcl_wrapper`.

use amcl_wrapper::field_elem::{FieldElement, FieldElementVector};
use vstd::prelude::*;

verus! {

/// The order q of G1 on BLS12-381, which is prime.
pub open spec fn q() -> int {
    (0x73eda753299d7d483339d80809a1d805 * 0x10000000000000000 * 0x10000000000000000
        + 0x53bda402fffe5bfeffffffff00000001) as int
}


/// The integer that a big-endian byte string denotes.
pub open spec fn be_value(b: Seq<u8>) -> int
    decreases b.len(),
{
    if b.len() == 0 {
        0
    } else {
        be_value(b.drop_last()) * 256 + b.last()
    }
}

/// An element of F_q.
#[derive(Clone, Copy, Debug, PartialEq, Eq)]
pub struct Scalar {
    pub bytes: [u8; 48],
}

/// The values of a sequence of scalars.
pub open spec fn vals(s: Seq<Scalar>) -> Seq<int> {
    s.map_values(|x: Scalar| x.val())
}

/// Every scalar of the sequence is well formed.
pub open spec fn all_wf(s: Seq<Scalar>) -> bool {
    forall|i: int| 0 <= i < s.len() ==> (#[trigger] s[i]).wf()
}

/// `a_0 * b_0 + a_1 * b_1 + ...` over the integers, on the common prefix.
pub open spec fn dot(a: Seq<int>, b: Seq<int>) -> int
    decreases a.len(),
{
    if a.len() == 0 || b.len() == 0 {
        0
    } else {
        dot(a.drop_last(), b.take(a.len() - 1)) + a.last() * b[a.len() - 1]
    }
}

/// `x` to the power `n`, over the integers.
pub open spec fn pow(x: int, n: nat) -> int
    decreases n,
{
    if n == 0 {
        1
    } else {
        x * pow(x, (n - 1) as nat)
    }
}

impl Scalar {
    /// The value of the scalar.
    pub open spec fn val(&self) -> int {
        be_value(self.bytes@)
    }

    /// The encoding is canonical: the value is below q.
    pub open spec fn wf(&self) -> bool {
        0 <= self.val() < q()
    }
}

/// Relies on `FieldElement::from(u64)`: the field element whose value is `x`,
/// and on `FieldElement::to_bytes` for the 48-byte big-endian encoding.
#[verifier::external_body]
pub(crate) fn scalar_from_u64(x: u64) -> (r: Scalar)
    requires
        x <= i64::MAX,
    ensures
        r.wf(),
        r.val() == x,
{
    let v = FieldElement::from(x).to_bytes();
    let mut bytes = [0u8; 48];
    bytes.copy_from_slice(&v);
    Scalar { bytes }
}

/// Relies on `FieldElement::random`: a uniformly drawn element of F_q.
#[verifier::external_body]
pub(crate) fn scalar_random() -> (r: Scalar)
    ensures
        r.wf(),
{
    let v = FieldElement::random().to_bytes();
    let mut bytes = [0u8; 48];
    bytes.copy_from_slice(&v);
    Scalar { bytes }
}

/// Relies on `FieldElement::is_zero`.
#[verifier::external_body]
pub(crate) fn scalar_is_zero(a: &Scalar) -> (r: bool)
    requires
        a.wf(),
    ensures
        r == (a.val() == 0),
{
    FieldElement::from_bytes(&a.bytes).unwrap().is_zero()
}

/// Relies on `FieldElement::plus`: the sum modulo q.
#[verifier::external_body]
pub(crate) fn scalar_add(a: &Scalar, b: &Scalar) -> (r: Scalar)
    requires
        a.wf(),
        b.wf(),
    ensures
        r.wf(),
        r.val() == (a.val() + b.val()) % q(),
{
    let x = FieldElement::from_bytes(&a.bytes).unwrap();
    let y = FieldElement::from_bytes(&b.bytes).unwrap();
    let v = x.plus(&y).to_bytes();
    let mut bytes = [0u8; 48];
    bytes.copy_from_slice(&v);
    Scalar { bytes }
}

/// Relies on `FieldElement::multiply`: the product modulo q.
#[verifier::external_body]
pub(crate) fn scalar_mul(a: &Scalar, b: &Scalar) -> (r: Scalar)
    requires
        a.wf(),
        b.wf(),
    ensures
        r.wf(),
        r.val() == (a.val() * b.val()) % q(),
{
    let x = FieldElement::from_bytes(&a.bytes).unwrap();
    let y = FieldElement::from_bytes(&b.bytes).unwrap();
    let v = x.multiply(&y).to_bytes();
    let mut bytes = [0u8; 48];
    bytes.copy_from_slice(&v);
    Scalar { bytes }
}

/// Relies on `FieldElement::negation`: `q - a` modulo q.
#[verifier::external_body]
pub(crate) fn scalar_neg(a: &Scalar) -> (r: Scalar)
    requires
        a.wf(),
    ensures
        r.wf(),
        r.val() == (q() - a.val()) % q(),
{
    let v = FieldElement::from_bytes(&a.bytes).unwrap().negation().to_bytes();
    let mut bytes = [0u8; 48];
    bytes.copy_from_slice(&v);
    Scalar { bytes }
}

/// Relies on `FieldElement::inverse`: the multiplicative inverse modulo q, and zero for zero.
#[verifier::external_body]
pub(crate) fn scalar_inverse(a: &Scalar) -> (r: Scalar)
    requires
        a.wf(),
    ensures
        r.wf(),
        a.val() == 0 ==> r.val() == 0,
        a.val() != 0 ==> (r.val() * a.val()) % q() == 1,
{
    let v = FieldElement::from_bytes(&a.bytes).unwrap().inverse().to_bytes();
    let mut bytes = [0u8; 48];
    bytes.copy_from_slice(&v);
    Scalar { bytes }
}

/// Relies on `FieldElementVector::random`: `n` uniformly drawn elements of F_q.
#[verifier::external_body]
pub(crate) fn scalar_random_vec(n: usize) -> (r: Vec<Scalar>)
    ensures
        r@.len() == n,
        all_wf(r@),
{
    let v = FieldElementVector::random(n);
    v.as_slice().iter().map(|e| {
        let mut bytes = [0u8; 48];
        bytes.copy_from_slice(&e.to_bytes());
        Scalar { bytes }
    }).collect()
}

/// Relies on `FieldElementVector::new_vandermonde_vector`: `[1, x, x^2, ..., x^(n-1)]`
/// modulo q, and `n` zeros when `x` is zero.
#[verifier::external_body]
pub(crate) fn vandermonde(x: &Scalar, n: usize) -> (r: Vec<Scalar>)
    requires
        x.wf(),
    ensures
        r@.len() == n,
        all_wf(r@),
        forall|i: int| 0 <= i < n ==> (#[trigger] r@[i]).val() == if x.val() == 0 {
            0
        } else {
            pow(x.val(), i as nat) % q()
        },
{
    let e = FieldElement::from_bytes(&x.bytes).unwrap();
    let v = FieldElementVector::new_vandermonde_vector(&e, n);
    v.as_slice().iter().map(|e| {
        let mut bytes = [0u8; 48];
        bytes.copy_from_slice(&e.to_bytes());
        Scalar { bytes }
    }).collect()
}

/// Relies on `FieldElementVector::inner_product`: `a_0 * b_0 + a_1 * b_1 + ...` modulo q,
/// for vectors of one length.
#[verifier::external_body]
pub(crate) fn inner_product(a: &Vec<Scalar>, b: &Vec<Scalar>) -> (r: Scalar)
    requires
        a@.len() == b@.len(),
        all_wf(a@),
        all_wf(b@),
    ensures
        r.wf(),
        r.val() == dot(vals(a@), vals(b@)) % q(),
{
    let x: Vec<FieldElement> = a.iter().map(|s| FieldElement::from_bytes(&s.bytes).unwrap()).collect();
    let y: Vec<FieldElement> = b.iter().map(|s| FieldElement::from_bytes(&s.bytes).unwrap()).collect();
    let v = FieldElementVector::from(x).inner_product(&FieldElementVector::from(y)).unwrap().to_bytes();
    let mut bytes = [0u8; 48];
    bytes.copy_from_slice(&v);
    Scalar { bytes }
}

} // verus!
