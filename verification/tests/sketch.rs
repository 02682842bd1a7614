use minisketch_rs::sketch::MAX_CAPACITY;
use minisketch_rs::Minisketch;

fn bytes(sketch: &Minisketch) -> Vec<u8> {
    let mut buf = vec![0u8; sketch.serialized_size()];
    sketch.serialize(&mut buf).unwrap();
    buf
}

fn sketch_of(bits: u32, implementation: u32, capacity: usize, elements: &[u64]) -> Minisketch {
    let mut sketch = Minisketch::try_new(bits, implementation, capacity).unwrap();
    for element in elements {
        sketch.add(*element);
    }
    sketch
}

fn decoded(sketch: &Minisketch) -> Option<Vec<u64>> {
    let mut out = vec![0u64; sketch.capacity()];
    match sketch.decode(&mut out) {
        Ok(n) => {
            let mut found = out[..n].to_vec();
            found.sort();
            Some(found)
        }
        Err(_) => None,
    }
}

#[test]
fn try_new_accepts_the_supported_parameters() {
    for bits in [1u32, 2, 12, 32, 64] {
        for implementation in 0..=Minisketch::implementation_max() {
            let sketch = Minisketch::try_new(bits, implementation, 3).unwrap();
            assert_eq!(sketch.bits(), bits);
            assert_eq!(sketch.implementation(), implementation);
            assert_eq!(sketch.capacity(), 3);
        }
    }
}

#[test]
fn try_new_rejects_unsupported_parameters() {
    assert!(Minisketch::try_new(0, 0, 4).is_err());
    assert!(Minisketch::try_new(65, 0, 4).is_err());
    assert!(Minisketch::try_new(12, 2, 4).is_err());
    assert!(Minisketch::try_new(12, u32::MAX, 4).is_err());
}

#[test]
fn try_new_rejects_capacity_zero_and_too_large() {
    assert!(Minisketch::try_new(12, 0, 0).is_err());
    assert!(Minisketch::try_new(12, 0, MAX_CAPACITY + 1).is_err());
    assert!(Minisketch::try_new(12, 0, usize::MAX).is_err());
    assert!(Minisketch::try_new(12, 0, 1).is_ok());
}

#[test]
fn with_seed_keeps_the_seed() {
    let sketch = Minisketch::with_seed(12, 0, 4, 42).unwrap();
    assert_eq!(sketch.seed(), 42);
    assert!(Minisketch::with_seed(12, 0, 0, 42).is_err());
}

#[test]
fn capability_queries() {
    assert!(!Minisketch::bits_supported(0));
    assert!(Minisketch::bits_supported(1));
    assert!(Minisketch::bits_supported(12));
    assert!(Minisketch::bits_supported(64));
    assert!(!Minisketch::bits_supported(65));
    assert_eq!(Minisketch::implementation_max(), 1);
}

#[test]
fn new_sketch_is_empty() {
    let sketch = Minisketch::try_new(12, 0, 4).unwrap();
    assert_eq!(bytes(&sketch), vec![0u8; 6]);
    assert_eq!(decoded(&sketch), Some(vec![]));
}

#[test]
fn add_known_power_sums() {
    // The power sums of 3000..3009 in GF(2^12): 0x001, 0xd2e, 0x4f9, 0x697.
    let elements: Vec<u64> = (3_000..3_010).collect();
    let sketch = sketch_of(12, 0, 4, &elements);
    assert_eq!(bytes(&sketch), vec![0x01, 0xe0, 0xd2, 0xf9, 0x74, 0x69]);
}

#[test]
fn add_of_one_element_stores_its_odd_powers() {
    // 2 = x, so the powers are x, x^3, x^5, x^7.
    let sketch = sketch_of(12, 0, 4, &[2]);
    assert_eq!(bytes(&sketch), vec![0x02, 0x80, 0x00, 0x20, 0x00, 0x08]);
}

#[test]
fn add_zero_changes_nothing() {
    let mut sketch = sketch_of(12, 0, 4, &[3000, 17]);
    let before = bytes(&sketch);
    sketch.add(0);
    assert_eq!(bytes(&sketch), before);
    sketch.add(4096);
    assert_eq!(bytes(&sketch), before);
}

#[test]
fn add_drops_the_high_bits() {
    let low = sketch_of(12, 0, 4, &[3000]);
    let high = sketch_of(12, 0, 4, &[3000 + 4096]);
    let higher = sketch_of(12, 0, 4, &[3000 + (1 << 63)]);
    assert_eq!(bytes(&low), bytes(&high));
    assert_eq!(bytes(&low), bytes(&higher));
}

#[test]
fn add_twice_cancels() {
    let mut sketch = sketch_of(12, 0, 4, &[3000, 17, 4095]);
    let before = bytes(&sketch);
    sketch.add(1234);
    assert_ne!(bytes(&sketch), before);
    sketch.add(1234);
    assert_eq!(bytes(&sketch), before);
    sketch.add(17);
    sketch.add(17);
    assert_eq!(bytes(&sketch), before);
}

#[test]
fn add_does_not_depend_on_the_order() {
    let a = sketch_of(16, 0, 5, &[1, 2, 3, 40000, 65535]);
    let b = sketch_of(16, 0, 5, &[65535, 3, 40000, 1, 2]);
    assert_eq!(bytes(&a), bytes(&b));
}

#[test]
fn implementations_build_the_same_sketch() {
    for bits in [2u32, 12, 33, 64] {
        let elements = [3u64, 0x1234_5678_9abc_def0, 77, u64::MAX];
        let a = sketch_of(bits, 0, 6, &elements);
        let b = sketch_of(bits, 1, 6, &elements);
        assert_eq!(bytes(&a), bytes(&b));
    }
}

#[test]
fn lower_capacity_is_a_prefix() {
    let small = sketch_of(12, 0, 2, &[10, 43]);
    let large = sketch_of(12, 0, 4, &[10, 43]);
    assert_eq!(bytes(&small), vec![0x21, 0x50, 0x4b]);
    assert_eq!(bytes(&large), vec![0x21, 0x50, 0x4b, 0xbd, 0x80, 0x17]);
}

#[test]
fn merge_gives_the_symmetric_difference() {
    let mut a = sketch_of(12, 0, 4, &[10, 43]);
    let b = sketch_of(12, 0, 4, &[42, 43]);
    let capacity = a.merge(&b).unwrap();
    assert_eq!(capacity, 4);
    assert_eq!(bytes(&a), bytes(&sketch_of(12, 0, 4, &[10, 42])));
    assert_eq!(decoded(&a), Some(vec![10, 42]));
}

#[test]
fn merge_does_not_depend_on_the_order_of_additions() {
    let mut forward = sketch_of(12, 0, 6, &[1, 2, 3, 4, 5, 6]);
    let mut backward = sketch_of(12, 0, 6, &[6, 5, 4, 3, 2, 1]);
    let other = sketch_of(12, 0, 6, &[9, 5, 8, 6, 7, 4]);
    forward.merge(&other).unwrap();
    backward.merge(&other).unwrap();
    assert_eq!(bytes(&forward), bytes(&backward));
    assert_eq!(decoded(&forward), Some(vec![1, 2, 3, 7, 8, 9]));
}

#[test]
fn merge_with_itself_is_empty() {
    let mut a = sketch_of(12, 0, 4, &[3000, 3001, 3002]);
    let b = a.clone();
    assert_eq!(a.merge(&b).unwrap(), 4);
    assert_eq!(bytes(&a), vec![0u8; 6]);
    let mut out = [7u64; 4];
    assert_eq!(a.decode(&mut out).unwrap(), 0);
    assert_eq!(out, [7u64; 4]);
}

#[test]
fn merge_takes_the_lower_capacity() {
    let mut large = sketch_of(12, 0, 4, &[10, 43]);
    let small = sketch_of(12, 0, 2, &[42, 43]);
    assert_eq!(large.merge(&small).unwrap(), 2);
    assert_eq!(large.capacity(), 2);
    assert_eq!(large.serialized_size(), 3);
    assert_eq!(bytes(&large), bytes(&sketch_of(12, 0, 2, &[10, 42])));

    let mut small = sketch_of(12, 0, 2, &[42, 43]);
    let large = sketch_of(12, 0, 4, &[10, 43]);
    assert_eq!(small.merge(&large).unwrap(), 2);
    assert_eq!(small.capacity(), 2);
    assert_eq!(bytes(&small), bytes(&sketch_of(12, 0, 2, &[10, 42])));
}

#[test]
fn merge_of_different_widths_fails_and_changes_nothing() {
    let mut a = sketch_of(12, 0, 4, &[3000, 3001]);
    let b = sketch_of(16, 0, 4, &[3000]);
    let before = bytes(&a);
    assert!(a.merge(&b).is_err());
    assert_eq!(bytes(&a), before);
    assert_eq!(a.bits(), 12);
    assert_eq!(a.capacity(), 4);
}

#[test]
fn merge_of_different_implementations_fails_and_changes_nothing() {
    let mut a = sketch_of(12, 0, 4, &[3000, 3001]);
    let b = sketch_of(12, 1, 4, &[3000]);
    let before = bytes(&a);
    assert!(a.merge(&b).is_err());
    assert_eq!(bytes(&a), before);
    assert_eq!(a.implementation(), 0);
}

#[test]
fn xor_assign_merges() {
    let mut a = sketch_of(12, 0, 4, &[10, 43]);
    let b = sketch_of(12, 0, 4, &[42, 43]);
    a ^= b;
    assert_eq!(decoded(&a), Some(vec![10, 42]));

    let mut a = sketch_of(12, 0, 4, &[10, 43]);
    let before = bytes(&a);
    let c = sketch_of(13, 0, 4, &[42, 43]);
    a ^= c;
    assert_eq!(bytes(&a), before);
}

#[test]
fn clone_has_a_state_of_its_own() {
    let mut a = Minisketch::with_seed(12, 1, 4, 99).unwrap();
    a.add(3000);
    let mut b = a.clone();
    assert_eq!(b.bits(), 12);
    assert_eq!(b.implementation(), 1);
    assert_eq!(b.capacity(), 4);
    assert_eq!(b.seed(), 99);
    assert_eq!(bytes(&a), bytes(&b));
    b.add(17);
    assert_ne!(bytes(&a), bytes(&b));
    assert_eq!(decoded(&a), Some(vec![3000]));
    assert_eq!(decoded(&b), Some(vec![17, 3000]));
}

#[test]
fn set_seed_changes_the_order_only() {
    let mut sketch = sketch_of(12, 0, 4, &[3000, 3001, 3010, 3011]);
    let before = bytes(&sketch);
    for seed in [0u64, 1, 5, 12345, u64::MAX] {
        sketch.set_seed(seed);
        assert_eq!(sketch.seed(), seed);
        assert_eq!(bytes(&sketch), before);
        assert_eq!(decoded(&sketch), Some(vec![3000, 3001, 3010, 3011]));
    }
}

#[test]
fn summary_names_the_parameters() {
    let sketch = Minisketch::try_new(12, 0, 4).unwrap();
    assert_eq!(sketch.summary(), "Minisketch { bits = 12, implementation = 0, capacity = 4 }");
    let sketch = Minisketch::try_new(64, 1, 1000).unwrap();
    assert_eq!(
        sketch.summary(),
        "Minisketch { bits = 64, implementation = 1, capacity = 1000 }"
    );
}

#[test]
fn certify_field_confirms_the_field_of_a_sketch() {
    for bits in [1u32, 2, 12, 37, 64] {
        assert!(Minisketch::try_new(bits, 0, 4).unwrap().certify_field());
    }
}
