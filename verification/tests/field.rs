use minisketch_rs::field::Field;

fn field(bits: u32, implementation: u32) -> Field {
    Field::new(bits, implementation).unwrap()
}

#[test]
fn field_new_accepts_every_supported_width() {
    for bits in 1..=64u32 {
        for implementation in 0..=1u32 {
            let f = field(bits, implementation);
            assert_eq!(f.bits(), bits);
            assert_eq!(f.implementation(), implementation);
        }
    }
}

#[test]
fn field_new_rejects_what_is_not_supported() {
    assert!(Field::new(0, 0).is_none());
    assert!(Field::new(65, 0).is_none());
    assert!(Field::new(12, 2).is_none());
    assert!(Field::new(u32::MAX, u32::MAX).is_none());
}

#[test]
fn field_mask_is_bits_ones() {
    assert_eq!(field(1, 0).mask(), 1);
    assert_eq!(field(12, 0).mask(), 0xfff);
    assert_eq!(field(63, 0).mask(), 0x7fff_ffff_ffff_ffff);
    assert_eq!(field(64, 0).mask(), u64::MAX);
}

#[test]
fn field_reduce_keeps_the_lowest_bits() {
    let f = field(12, 0);
    assert_eq!(f.reduce(3000), 3000);
    assert_eq!(f.reduce(3000 + 4096), 3000);
    assert_eq!(f.reduce(4096), 0);
    assert_eq!(field(64, 0).reduce(u64::MAX), u64::MAX);
}

#[test]
fn field_add_is_exclusive_or() {
    let f = field(8, 0);
    assert_eq!(f.add(0x57, 0x83), 0xd4);
    assert_eq!(f.add(0x57, 0x57), 0);
}

#[test]
fn field_mul_in_gf_256() {
    for implementation in 0..=1u32 {
        let f = field(8, implementation);
        assert_eq!(f.mul(0x57, 0x83), 0xc1);
        assert_eq!(f.mul(0x57, 0x13), 0xfe);
        assert_eq!(f.mul(0x80, 2), 0x1b);
        assert_eq!(f.mul(0x53, 0xca), 1);
    }
}

#[test]
fn field_mul_in_gf_2_64() {
    for implementation in 0..=1u32 {
        let f = field(64, implementation);
        assert_eq!(f.mul(0x8000_0000_0000_0000, 2), 0x1b);
        assert_eq!(
            f.mul(0xdead_beef_cafe_babe, 0x0123_4567_89ab_cdef),
            0xfbb6_7120_92fd_6a8c
        );
    }
}

#[test]
fn field_mul_truncates_wide_operands() {
    let f = field(12, 0);
    assert_eq!(f.mul(3000 + 4096, 17), f.mul(3000, 17));
    assert_eq!(f.mul(17, 3000 + 8192), f.mul(17, 3000));
}

#[test]
fn field_mul_has_unit_and_zero() {
    for bits in [1u32, 2, 7, 12, 33, 64] {
        let f = field(bits, 0);
        let a = f.reduce(0x1234_5678_9abc_def1);
        assert_eq!(f.mul(a, 1), a);
        assert_eq!(f.mul(1, a), a);
        assert_eq!(f.mul(a, 0), 0);
        assert_eq!(f.mul(0, a), 0);
    }
}

#[test]
fn field_implementations_agree() {
    let mut x: u64 = 0x9e37_79b9_7f4a_7c15;
    for bits in 1..=64u32 {
        let f0 = field(bits, 0);
        let f1 = field(bits, 1);
        for _ in 0..50 {
            x = x.wrapping_mul(6364136223846793005).wrapping_add(1442695040888963407);
            let a = x;
            x = x.wrapping_mul(6364136223846793005).wrapping_add(1442695040888963407);
            let b = x;
            assert_eq!(f0.mul(a, b), f1.mul(a, b));
            assert!(f0.mul(a, b) <= f0.mask());
        }
    }
}

#[test]
fn field_mul_obeys_the_ring_laws() {
    let mut x: u64 = 42;
    for bits in [3u32, 8, 12, 31, 64] {
        let f = field(bits, 1);
        for _ in 0..50 {
            x = x.wrapping_mul(6364136223846793005).wrapping_add(1442695040888963407);
            let a = f.reduce(x);
            x = x.wrapping_mul(6364136223846793005).wrapping_add(1442695040888963407);
            let b = f.reduce(x);
            x = x.wrapping_mul(6364136223846793005).wrapping_add(1442695040888963407);
            let c = f.reduce(x);
            assert_eq!(f.mul(a, b), f.mul(b, a));
            assert_eq!(f.mul(f.mul(a, b), c), f.mul(a, f.mul(b, c)));
            assert_eq!(f.mul(a, b ^ c), f.mul(a, b) ^ f.mul(a, c));
            assert_eq!(f.sqr(a ^ b), f.sqr(a) ^ f.sqr(b));
        }
    }
}

#[test]
fn field_sqr_is_the_product_with_itself() {
    let f = field(12, 0);
    assert_eq!(f.sqr(3000), f.mul(3000, 3000));
    assert_eq!(field(8, 0).sqr(0x57), field(8, 0).mul(0x57, 0x57));
}

#[test]
fn field_pow_small_exponents() {
    let f = field(12, 0);
    assert_eq!(f.pow(3000, 0), 1);
    assert_eq!(f.pow(0, 0), 1);
    assert_eq!(f.pow(3000, 1), 3000);
    assert_eq!(f.pow(3000, 2), f.mul(3000, 3000));
    assert_eq!(f.pow(3000, 3), f.mul(f.mul(3000, 3000), 3000));
    assert_eq!(f.pow(0, 5), 0);
    assert_eq!(f.pow(3000 + 4096, 3), f.pow(3000, 3));
}

#[test]
fn field_pow_of_the_group_order_is_one() {
    for bits in [1u32, 2, 5, 8, 12, 16] {
        let f = field(bits, 0);
        for a in 1..=f.mask().min(200) {
            assert_eq!(f.pow(a, f.mask()), 1);
        }
    }
}

#[test]
fn field_inv_known_values() {
    let f = field(8, 0);
    assert_eq!(f.inv(0x53), Some(0xca));
    assert_eq!(f.inv(1), Some(1));
    assert_eq!(f.inv(0), None);
    let g = field(64, 1);
    assert_eq!(g.inv(3), Some(0xffff_ffff_ffff_fff6));
    assert_eq!(g.inv(0), None);
}

#[test]
fn field_inv_of_every_element_of_a_small_field() {
    for bits in 1..=10u32 {
        let f = field(bits, 0);
        assert_eq!(f.inv(0), None);
        for a in 1..=f.mask() {
            let b = f.inv(a).unwrap();
            assert_eq!(f.mul(a, b), 1);
        }
    }
}

#[test]
fn field_of_width_one() {
    let f = field(1, 0);
    assert_eq!(f.mask(), 1);
    assert_eq!(f.mul(1, 1), 1);
    assert_eq!(f.mul(1, 0), 0);
    assert_eq!(f.mul(3, 3), 1);
    assert_eq!(f.inv(1), Some(1));
}

#[test]
fn field_certify_confirms_every_field() {
    for bits in 1..=64u32 {
        for implementation in 0..=1u32 {
            assert!(field(bits, implementation).certify());
        }
    }
}
