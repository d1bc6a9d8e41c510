use seed_split::field::BPoly;
use seed_split::field::Field;
use seed_split::field::GF128;
use seed_split::field::GF256;

/// A small deterministic generator for test inputs; not a library facility.
struct XorShift(u64);

impl XorShift {
    fn next(&mut self) -> u64 {
        let mut x = self.0;
        x ^= x << 13;
        x ^= x >> 7;
        x ^= x << 17;
        self.0 = x;
        x
    }

    fn gf128(&mut self) -> GF128 {
        GF128(BPoly {
            data: [self.next(), self.next()],
        })
    }

    fn gf256(&mut self) -> GF256 {
        GF256(BPoly {
            data: [self.next(), self.next(), self.next(), self.next()],
        })
    }
}

#[test]
fn test_bpoly_one_plus_one_is_zero() {
    let one = BPoly::<4>::one();
    assert_eq!(one.add(one).data, BPoly::<4>::zero().data);
}

#[test]
fn test_bpoly_z_times_z_is_z_squared() {
    let z = BPoly::<4> { data: [2, 0, 0, 0] };
    let z2 = BPoly::<4> { data: [4, 0, 0, 0] };

    let (hi, lo) = z.mul_wide(z);
    assert_eq!(hi.data, BPoly::<4>::zero().data);
    assert_eq!(lo.data, z2.data);
}

#[test]
fn test_gf128_z127_times_z() {
    let z127 = GF128(BPoly { data: [0, 1 << 63] });
    let z = GF128(BPoly { data: [2, 0] });
    let expected = GF128(BPoly {
        data: [1 | (1 << 1) | (1 << 2) | (1 << 7), 0],
    });
    assert_eq!(z.mul(z127).0.data, expected.0.data);
}

#[test]
fn test_bpoly_addition_laws() {
    let mut g = XorShift(0x1234_5678_9abc_def1);
    for _ in 0..32 {
        let a = BPoly::<4> {
            data: [g.next(), g.next(), g.next(), g.next()],
        };
        let b = BPoly::<4> {
            data: [g.next(), g.next(), g.next(), g.next()],
        };
        let c = BPoly::<4> {
            data: [g.next(), g.next(), g.next(), g.next()],
        };
        let zero = BPoly::<4>::zero();
        assert_eq!(a.add(b).data, b.add(a).data);
        assert_eq!(a.add(b.add(c)).data, a.add(b).add(c).data);
        assert_eq!(a.add(zero).data, a.data);
        assert_eq!(a.add(a).data, zero.data);
    }
}

#[test]
fn test_bpoly_mul_one_identity() {
    let mut g = XorShift(0x0bad_cafe_dead_beef);
    for _ in 0..16 {
        let a = BPoly::<4> {
            data: [g.next(), g.next(), g.next(), g.next()],
        };
        let (hi, lo) = a.mul_wide(BPoly::one());
        assert_eq!(hi.data, BPoly::<4>::zero().data);
        assert_eq!(lo.data, a.data);
    }
}

#[test]
fn test_gf128_mul_laws() {
    let mut g = XorShift(0x1111_2222_3333_4444);
    for _ in 0..8 {
        let a = g.gf128();
        let b = g.gf128();
        let c = g.gf128();
        assert_eq!(a.mul(GF128::one()).0.data, a.0.data);
        assert_eq!(a.mul(b).0.data, b.mul(a).0.data);
        assert_eq!(a.mul(b.mul(c)).0.data, a.mul(b).mul(c).0.data);
    }
}

#[test]
fn test_gf256_mul_laws() {
    let mut g = XorShift(0x5555_6666_7777_8888);
    for _ in 0..4 {
        let a = g.gf256();
        let b = g.gf256();
        let c = g.gf256();
        assert_eq!(a.mul(GF256::one()).0.data, a.0.data);
        assert_eq!(a.mul(b).0.data, b.mul(a).0.data);
        assert_eq!(a.mul(b.mul(c)).0.data, a.mul(b).mul(c).0.data);
    }
}

#[test]
fn test_gf128_mul_inverse_is_one() {
    let mut g = XorShift(0x9999_aaaa_bbbb_cccc);
    for _ in 0..4 {
        let a = g.gf128();
        if a.0.data != GF128::zero().0.data {
            assert_eq!(a.mul(a.inverse()).0.data, GF128::one().0.data);
        }
    }
}

#[test]
fn test_gf256_mul_inverse_is_one() {
    let mut g = XorShift(0xdddd_eeee_ffff_0001);
    for _ in 0..2 {
        let a = g.gf256();
        if a.0.data != GF256::zero().0.data {
            assert_eq!(a.mul(a.inverse()).0.data, GF256::one().0.data);
        }
    }
}

#[test]
fn test_gf128_byte_round_trip() {
    let mut g = XorShift(0x2468_ace0_1357_9bdf);
    for _ in 0..16 {
        let a = g.gf128();
        let bytes = a.to_bytes();
        assert_eq!(GF128::from_bytes(bytes).0.data, a.0.data);
    }
    let mut b = [0u8; 16];
    for slot in b.iter_mut() {
        *slot = (g.next() % 256) as u8;
    }
    assert_eq!(GF128::from_bytes(b).to_bytes(), b);
    assert_eq!(GF128::from_bytes([0u8; 16]).to_bytes(), [0u8; 16]);
}

#[test]
fn test_gf256_byte_round_trip() {
    let mut g = XorShift(0xfeed_f00d_0123_4567);
    for _ in 0..16 {
        let a = g.gf256();
        let bytes = a.to_bytes();
        assert_eq!(GF256::from_bytes(bytes).0.data, a.0.data);
    }
    let mut b = [0u8; 32];
    for slot in b.iter_mut() {
        *slot = (g.next() % 256) as u8;
    }
    assert_eq!(GF256::from_bytes(b).to_bytes(), b);
}

#[test]
fn test_from_u64_injection() {
    let a = GF128::from_u64(0xdead_beef);
    assert_eq!(a.0.data, [0xdead_beef, 0]);
    let b = GF256::from_u64(7);
    assert_eq!(b.0.data, [7, 0, 0, 0]);
    let mut expected = [0u8; 16];
    expected[0] = 1;
    assert_eq!(GF128::one().to_bytes(), expected);
}

#[test]
fn test_field_addition_is_xor() {
    let a = GF128(BPoly {
        data: [0xff00ff00ff00ff00, 0x0123456789abcdef],
    });
    let b = GF128(BPoly {
        data: [0x0f0f0f0f0f0f0f0f, 0xfedcba9876543210],
    });
    let s = a.add(b);
    assert_eq!(
        s.0.data,
        [
            0xff00ff00ff00ff00 ^ 0x0f0f0f0f0f0f0f0f,
            0x0123456789abcdef ^ 0xfedcba9876543210u64
        ]
    );
    assert_eq!(a.sub(b).0.data, s.0.data);
    assert_eq!(a.neg().0.data, a.0.data);
    assert_eq!(a.add(a).0.data, GF128::zero().0.data);
}
