use secret_sharing::field::Scalar;
use secret_sharing::shamir_secret_sharing::{
    get_shared_secret, get_shared_secret_with_polynomial, reconstruct_secret,
};

fn pick(shares: &std::collections::HashMap<usize, Scalar>, ids: &[usize]) -> Vec<(usize, Scalar)> {
    ids.iter().map(|i| (*i, *shares.get(i).unwrap())).collect()
}

#[test]
fn test_secret_sharing() {
    for _ in 0..10 {
        let threshold = 5;
        let total = 10;
        let (secret, shares) = get_shared_secret(threshold, total);
        assert_eq!(shares.len(), total);
        let recon_secret = reconstruct_secret(
            threshold,
            shares.into_iter().take(threshold).collect::<Vec<(usize, Scalar)>>(),
        );
        assert_eq!(secret, recon_secret);
    }
}

#[test]
fn test_secret_sharing_1() {
    {
        let threshold = 5;
        let total = 10;
        let (secret, shares) = get_shared_secret(threshold, total);
        let recon_secret = reconstruct_secret(threshold, pick(&shares, &[1, 3, 4, 7, 9]));
        assert_eq!(secret, recon_secret);
    }

    {
        let threshold = 3;
        let total = 5;
        let (secret, shares) = get_shared_secret(threshold, total);
        let recon_secret = reconstruct_secret(threshold, pick(&shares, &[1, 2, 4]));
        assert_eq!(secret, recon_secret);
    }

    {
        let threshold = 2;
        let total = 5;
        let (secret, shares) = get_shared_secret(threshold, total);
        let recon_secret = reconstruct_secret(threshold, pick(&shares, &[1, 4]));
        assert_eq!(secret, recon_secret);
    }

    {
        let threshold = 3;
        let total = 5;
        let (secret, shares) = get_shared_secret(threshold, total);
        let recon_secret = reconstruct_secret(threshold, pick(&shares, &[1, 2, 4, 5]));
        assert_eq!(secret, recon_secret);
    }
}

#[test]
fn shares_are_the_polynomial_at_each_id() {
    let (secret, shares, poly) = get_shared_secret_with_polynomial(3, 6);
    assert_eq!(shares.len(), 6);
    assert_eq!(poly.degree(), 2);
    assert_eq!(secret, poly.coefficients()[0]);
    for (id, share) in shares.iter() {
        let mut bytes = [0u8; 48];
        bytes.copy_from_slice(&amcl_wrapper::field_elem::FieldElement::from(*id as u64).to_bytes());
        assert_eq!(poly.eval(&Scalar { bytes }), *share);
    }
}

#[test]
fn every_subset_of_threshold_size_reconstructs() {
    let (secret, shares) = get_shared_secret(3, 5);
    for a in 1..=5usize {
        for b in (a + 1)..=5 {
            for c in (b + 1)..=5 {
                assert_eq!(reconstruct_secret(3, pick(&shares, &[c, a, b])), secret);
            }
        }
    }
}

#[test]
fn fewer_than_threshold_shares_miss_the_secret() {
    let (secret, shares) = get_shared_secret(4, 8);
    assert_ne!(reconstruct_secret(3, pick(&shares, &[2, 5, 7])), secret);
}

#[test]
fn threshold_one_shares_are_the_secret() {
    let (secret, shares) = get_shared_secret(1, 4);
    for i in 1..=4usize {
        assert_eq!(*shares.get(&i).unwrap(), secret);
    }
    assert_eq!(reconstruct_secret(1, pick(&shares, &[3])), secret);
}

#[test]
fn threshold_equal_to_total() {
    let (secret, shares) = get_shared_secret(4, 4);
    assert_eq!(reconstruct_secret(4, pick(&shares, &[4, 3, 2, 1])), secret);
}

fn small_scalar(x: u64) -> Scalar {
    let mut bytes = [0u8; 48];
    bytes.copy_from_slice(&amcl_wrapper::field_elem::FieldElement::from(x).to_bytes());
    Scalar { bytes }
}

#[test]
fn reconstruction_uses_the_smallest_identifiers() {
    // threshold 1: the share with identifier 1 is taken, whatever the list order
    let shares = vec![(2usize, small_scalar(5)), (1usize, small_scalar(7))];
    assert_eq!(reconstruct_secret(1, shares), small_scalar(7));
}

#[test]
fn a_share_with_a_larger_identifier_is_left_out() {
    let (secret, shares) = get_shared_secret(3, 5);
    let mut list = vec![(9usize, small_scalar(12345))];
    list.extend(pick(&shares, &[3, 1, 2]));
    assert_eq!(reconstruct_secret(3, list), secret);
}
