use seed_split::field::BPoly;
use seed_split::field::Field;
use seed_split::field::GF128;
use seed_split::field::GF256;
use seed_split::lagrange::reconstruct;
use seed_split::lagrange::split;
use seed_split::lagrange::Index;
use seed_split::lagrange::Sharing;

#[test]
fn test_share_reconstruction() {
    let secret = GF128::random();
    let sharing = Sharing::new(5, 5);
    let shares = split(secret, sharing);
    let reconstructed = reconstruct(&shares);
    assert_eq!(secret.0.data, reconstructed.0.data);
}

#[test]
fn test_index_round_trip() {
    for i in 0..=255u8 {
        assert_eq!(u8::from(Index::from(i)), i);
    }
}

#[test]
fn test_recovery_from_any_threshold_subset() {
    // 2-of-2 over GF(2^128) with the all-zero secret.
    let secret = GF128::from_bytes([0u8; 16]);
    let shares = split(secret, Sharing::new(2, 2));
    assert_eq!(shares.len(), 2);
    let reconstructed = reconstruct(&shares);
    assert_eq!(reconstructed.to_bytes(), [0u8; 16]);
    // The two evaluations differ except with negligible probability.
    assert_ne!(shares[0].1 .0.data, shares[1].1 .0.data);
}

#[test]
fn test_recovery_various_configurations() {
    for &(t, n) in &[(1u8, 1u8), (1, 3), (2, 3), (3, 5), (5, 5)] {
        let secret = GF128::random();
        let shares = split(secret, Sharing::new(t, n));
        assert_eq!(shares.len(), n as usize);
        for (i, share) in shares.iter().enumerate() {
            assert_eq!(u8::from(share.0) as usize, i);
        }
        // Any threshold-sized prefix recovers the secret.
        let subset: Vec<(Index, GF128)> = shares[..t as usize].to_vec();
        assert_eq!(reconstruct(&subset).0.data, secret.0.data);
    }
}

#[test]
fn test_three_of_five_gf256_all_subsets() {
    let secret = GF256::from_bytes([0xab; 32]);
    let shares = split(secret, Sharing::new(3, 5));
    assert_eq!(shares.len(), 5);
    for a in 0..5 {
        for b in (a + 1)..5 {
            for c in (b + 1)..5 {
                let subset = vec![shares[a], shares[b], shares[c]];
                assert_eq!(reconstruct(&subset).to_bytes(), [0xab; 32]);
            }
        }
    }
    // Any 2-element subset misses the secret with overwhelming probability.
    for a in 0..5 {
        for b in (a + 1)..5 {
            let subset = vec![shares[a], shares[b]];
            assert_ne!(reconstruct(&subset).to_bytes(), [0xab; 32]);
        }
    }
}

#[test]
fn test_redundant_shares_still_recover() {
    let secret = GF128::random();
    let shares = split(secret, Sharing::new(3, 5));
    // All five shares: more than the threshold.
    assert_eq!(reconstruct(&shares).0.data, secret.0.data);
    // Four shares: still more than the threshold.
    let four: Vec<(Index, GF128)> = shares[1..5].to_vec();
    assert_eq!(reconstruct(&four).0.data, secret.0.data);
}

#[test]
fn test_reconstruction_order_independent() {
    let secret = GF128::random();
    let shares = split(secret, Sharing::new(3, 5));
    let mut permuted = vec![shares[4], shares[1], shares[3], shares[0], shares[2]];
    assert_eq!(reconstruct(&shares).0.data, reconstruct(&permuted).0.data);
    permuted.reverse();
    assert_eq!(reconstruct(&shares).0.data, reconstruct(&permuted).0.data);
}

#[test]
fn test_split_evaluates_at_index_plus_one() {
    // With threshold 1 the polynomial is constant: every share equals the
    // secret, which pins the evaluation points' role.
    let secret = GF128(BPoly {
        data: [0x1122334455667788, 0x99aabbccddeeff00],
    });
    let shares = split(secret, Sharing::new(1, 4));
    for share in &shares {
        assert_eq!(share.1 .0.data, secret.0.data);
    }
}
