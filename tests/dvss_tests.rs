use amcl_wrapper::field_elem::FieldElement;
use secret_sharing::field::Scalar;
use secret_sharing::pedersen_dvss::{share_secret_for_testing, DvssError, PedersenDVSSParticipant};
use secret_sharing::pedersen_vss::PedersenVSS;
use secret_sharing::shamir_secret_sharing::reconstruct_secret;

fn to_field(s: &Scalar) -> FieldElement {
    FieldElement::from_bytes(&s.bytes).unwrap()
}

#[test]
fn test_Pedersen_DVSS() {
    let threshold = 5;
    let total = 10;
    let (g, h) = PedersenVSS::gens("test".as_bytes());
    let participants = share_secret_for_testing(threshold, total, &g, &h);

    let mut expected_shared_secret = FieldElement::zero();
    for p in &participants {
        expected_shared_secret = expected_shared_secret + to_field(&p.secret);
    }
    let mut shares = Vec::new();
    for i in 0..threshold {
        shares.push((participants[i].id, participants[i].secret_share));
    }

    // Verify that the secret can be recomputed.
    let recon_secret = reconstruct_secret(threshold, shares);

    assert_eq!(expected_shared_secret, to_field(&recon_secret));
}

#[test]
fn any_threshold_participants_reconstruct_the_joint_secret() {
    let (threshold, total) = (3, 6);
    let (g, h) = PedersenVSS::gens("joint".as_bytes());
    let participants = share_secret_for_testing(threshold, total, &g, &h);
    let mut expected = FieldElement::zero();
    for p in &participants {
        expected = expected + to_field(&p.secret);
    }
    let shares: Vec<(usize, Scalar)> =
        [5usize, 2, 6].iter().map(|i| (*i, participants[i - 1].secret_share)).collect();
    assert_eq!(to_field(&reconstruct_secret(threshold, shares)), expected);
    for p in &participants {
        assert_eq!(p.final_comm_coeffs.len(), threshold);
    }
}

#[test]
fn receipt_order_does_not_change_the_final_share() {
    let (threshold, total) = (2, 3);
    let (g, h) = PedersenVSS::gens("order".as_bytes());
    let mut ps: Vec<PedersenDVSSParticipant> =
        (1..=total).map(|i| PedersenDVSSParticipant::new(i, threshold, total, &g, &h)).collect();
    // participant 1 receives from 3 first, then from 2
    for j in [2usize, 1] {
        let (id, comm, s, t) = (
            ps[j].id,
            ps[j].comm_coeffs.clone(),
            ps[j].s_shares[&1],
            ps[j].t_shares[&1],
        );
        assert_eq!(ps[0].received_share(id, comm, (s, t), threshold, total, &g, &h), Ok(()));
    }
    assert_eq!(ps[0].compute_final_comm_coeffs_and_shares(threshold, total, &g, &h), Ok(()));
    let mut expected = FieldElement::zero();
    for p in &ps {
        expected = expected + to_field(&p.s_shares[&1]);
    }
    assert_eq!(to_field(&ps[0].secret_share), expected);
}

#[test]
fn forged_share_is_rejected_and_not_stored() {
    let (threshold, total) = (2, 3);
    let (g, h) = PedersenVSS::gens("forged".as_bytes());
    let mut ps: Vec<PedersenDVSSParticipant> =
        (1..=total).map(|i| PedersenDVSSParticipant::new(i, threshold, total, &g, &h)).collect();
    let mut s = ps[1].s_shares[&1];
    s.bytes[47] ^= 1;
    let t = ps[1].t_shares[&1];
    let comm = ps[1].comm_coeffs.clone();
    assert_eq!(
        ps[0].received_share(2, comm.clone(), (s, t), threshold, total, &g, &h),
        Err(DvssError::ShareRejected)
    );
    // the honest share from the same sender is still accepted afterwards
    let s = ps[1].s_shares[&1];
    assert_eq!(ps[0].received_share(2, comm, (s, t), threshold, total, &g, &h), Ok(()));
}

#[test]
fn aggregated_share_verifies_against_summed_commitments() {
    let (threshold, total) = (3, 4);
    let (g, h) = PedersenVSS::gens("sum".as_bytes());
    let participants = share_secret_for_testing(threshold, total, &g, &h);
    for p in &participants {
        assert_eq!(p.final_comm_coeffs.len(), threshold);
    }
}
