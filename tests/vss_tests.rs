use secret_sharing::field::Scalar;
use secret_sharing::pedersen_vss::PedersenVSS;
use secret_sharing::shamir_secret_sharing::reconstruct_secret;

#[test]
fn test_Pedersen_VSS() {
    let threshold = 5;
    let total = 10;
    let (g, h) = PedersenVSS::gens("test".as_bytes());
    let (secret, _, comm_coeffs, s_shares, t_shares) = PedersenVSS::deal(threshold, total, &g, &h);
    assert_eq!(s_shares.len(), total);
    assert_eq!(t_shares.len(), total);
    assert_eq!(comm_coeffs.len(), threshold);
    for i in 1..=total {
        assert!(PedersenVSS::verify_share(
            threshold,
            i,
            (&s_shares[&i], &t_shares[&i]),
            &comm_coeffs,
            &g,
            &h
        ));
    }
    let recon_secret = reconstruct_secret(
        threshold,
        s_shares.into_iter().take(threshold).collect::<Vec<(usize, Scalar)>>(),
    );
    assert_eq!(secret, recon_secret);
}

#[test]
fn vss_reconstructs_from_first_five_ids() {
    let (g, h) = PedersenVSS::gens("test".as_bytes());
    let (secret, _, _, s_shares, _) = PedersenVSS::deal(5, 10, &g, &h);
    let chosen: Vec<(usize, Scalar)> = (1..=5usize).map(|i| (i, s_shares[&i])).collect();
    assert_eq!(reconstruct_secret(5, chosen), secret);
}

#[test]
fn tampered_share_is_rejected() {
    let (threshold, total) = (5, 10);
    let (g, h) = PedersenVSS::gens("test".as_bytes());
    let (_, _, comm, mut s_shares, t_shares) = PedersenVSS::deal(threshold, total, &g, &h);
    let mut bad = s_shares[&3];
    bad.bytes[47] ^= 1;
    s_shares.insert(3, bad);
    assert!(!PedersenVSS::verify_share(threshold, 3, (&s_shares[&3], &t_shares[&3]), &comm, &g, &h));
    for i in 1..=total {
        if i != 3 {
            assert!(PedersenVSS::verify_share(threshold, i, (&s_shares[&i], &t_shares[&i]), &comm, &g, &h));
        }
    }
}

#[test]
fn tampered_blinding_share_is_rejected() {
    let (g, h) = PedersenVSS::gens("test".as_bytes());
    let (_, _, comm, s_shares, t_shares) = PedersenVSS::deal(3, 4, &g, &h);
    let mut bad = t_shares[&2];
    bad.bytes[40] ^= 0x10;
    assert!(!PedersenVSS::verify_share(3, 2, (&s_shares[&2], &bad), &comm, &g, &h));
}

#[test]
fn replaced_commitment_is_rejected() {
    let (g, h) = PedersenVSS::gens("test".as_bytes());
    let (_, _, mut comm, s_shares, t_shares) = PedersenVSS::deal(3, 4, &g, &h);
    comm[1] = g.clone();
    for i in 1..=4usize {
        assert!(!PedersenVSS::verify_share(3, i, (&s_shares[&i], &t_shares[&i]), &comm, &g, &h));
    }
}

#[test]
fn share_checked_under_another_id_is_rejected() {
    let (g, h) = PedersenVSS::gens("test".as_bytes());
    let (_, _, comm, s_shares, t_shares) = PedersenVSS::deal(3, 4, &g, &h);
    assert!(!PedersenVSS::verify_share(3, 2, (&s_shares[&1], &t_shares[&1]), &comm, &g, &h));
}

#[test]
fn generators_depend_on_the_label() {
    let (g1, h1) = PedersenVSS::gens("test".as_bytes());
    let (g2, h2) = PedersenVSS::gens("other".as_bytes());
    let (g3, h3) = PedersenVSS::gens("test".as_bytes());
    assert_ne!(g1, h1);
    assert_ne!(g1, g2);
    assert_ne!(h1, h2);
    assert_eq!(g1, g3);
    assert_eq!(h1, h3);
}

#[test]
fn generators_of_empty_label_are_distinct() {
    let (g, h) = PedersenVSS::gens(&[]);
    assert_ne!(g, h);
}
