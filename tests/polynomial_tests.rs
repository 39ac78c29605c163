use amcl_wrapper::field_elem::FieldElement;
use secret_sharing::field::Scalar;
use secret_sharing::polynomial::Polynomial;

fn scalar_of(fe: &FieldElement) -> Scalar {
    let mut bytes = [0u8; 48];
    bytes.copy_from_slice(&fe.to_bytes());
    Scalar { bytes }
}

fn field_of(s: &Scalar) -> FieldElement {
    FieldElement::from_bytes(&s.bytes).unwrap()
}

#[test]
fn test_poly() {
    for _ in 0..10 {
        let degree = 10;
        let poly = Polynomial::random(degree);
        assert_eq!(poly.degree(), degree);
        let coeffs = poly.coefficients();

        // Evaluation at 0 results in coefficient of constant term
        assert_eq!(poly.eval(&scalar_of(&FieldElement::zero())), coeffs[0]);

        // Evaluation at 1 results in sum of all coefficients
        let mut sum = FieldElement::zero();
        for c in coeffs.iter() {
            sum = sum + field_of(c);
        }
        assert_eq!(poly.eval(&scalar_of(&FieldElement::one())), scalar_of(&sum));
    }
}

#[test]
fn eval_matches_horner_at_two() {
    let poly = Polynomial::random(4);
    let two = FieldElement::from(2u64);
    let mut expected = FieldElement::zero();
    for c in poly.coefficients().iter().rev() {
        expected = expected * two.clone() + field_of(c);
    }
    assert_eq!(poly.eval(&scalar_of(&two)), scalar_of(&expected));
}

#[test]
fn degree_zero_polynomial_is_constant() {
    let poly = Polynomial::random(0);
    assert_eq!(poly.degree(), 0);
    let c = poly.coefficients()[0];
    assert_eq!(poly.eval(&scalar_of(&FieldElement::from(7u64))), c);
    assert_eq!(poly.eval(&scalar_of(&FieldElement::zero())), c);
}

#[test]
fn lagrange_basis_two_points() {
    // X = {1, 2}: lambda_1 = 2 / (2 - 1) = 2, lambda_2 = 1 / (1 - 2) = -1
    let xs = vec![1usize, 2];
    assert_eq!(Polynomial::lagrange_basis_at_0(&xs, 1), scalar_of(&FieldElement::from(2u64)));
    assert_eq!(Polynomial::lagrange_basis_at_0(&xs, 2), scalar_of(&FieldElement::minus_one()));
}

#[test]
fn lagrange_basis_three_points() {
    // X = {1, 2, 3}: lambda_1 = (2 * 3) / ((2 - 1) * (3 - 1)) = 3
    let xs = vec![1usize, 2, 3];
    assert_eq!(Polynomial::lagrange_basis_at_0(&xs, 1), scalar_of(&FieldElement::from(3u64)));
    // lambda_2 = (1 * 3) / ((1 - 2) * (3 - 2)) = -3
    assert_eq!(
        Polynomial::lagrange_basis_at_0(&xs, 2),
        scalar_of(&FieldElement::from(3u64).negation())
    );
}

#[test]
fn lagrange_basis_single_point_is_one() {
    let xs = vec![4usize];
    assert_eq!(Polynomial::lagrange_basis_at_0(&xs, 4), scalar_of(&FieldElement::one()));
}
