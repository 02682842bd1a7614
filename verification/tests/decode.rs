use minisketch_rs::Minisketch;

fn sketch_of(bits: u32, implementation: u32, capacity: usize, elements: &[u64]) -> Minisketch {
    let mut sketch = Minisketch::try_new(bits, implementation, capacity).unwrap();
    for element in elements {
        sketch.add(*element);
    }
    sketch
}

fn decoded(sketch: &Minisketch) -> Option<Vec<u64>> {
    let mut out = vec![0u64; sketch.capacity()];
    match sketch.decode(&mut out) {
        Ok(n) => {
            let mut found = out[..n].to_vec();
            found.sort();
            Some(found)
        }
        Err(_) => None,
    }
}

#[test]
fn decode_known_vector() {
    let a: Vec<u64> = (3_000..3_010).collect();
    let b: Vec<u64> = (3_002..3_012).collect();
    let mut sketch = sketch_of(12, 0, 4, &a);
    sketch.merge(&sketch_of(12, 0, 4, &b)).unwrap();
    assert_eq!(decoded(&sketch), Some(vec![3000, 3001, 3010, 3011]));
}

#[test]
fn decode_with_either_implementation() {
    for implementation in 0..=1u32 {
        let sketch = sketch_of(12, implementation, 4, &[42, 10, 4095]);
        assert_eq!(decoded(&sketch), Some(vec![10, 42, 4095]));
    }
}

#[test]
fn decode_fewer_elements_than_the_capacity() {
    assert_eq!(decoded(&sketch_of(12, 0, 4, &[])), Some(vec![]));
    assert_eq!(decoded(&sketch_of(12, 0, 4, &[1])), Some(vec![1]));
    assert_eq!(decoded(&sketch_of(12, 0, 4, &[1, 2])), Some(vec![1, 2]));
    assert_eq!(decoded(&sketch_of(12, 0, 4, &[1, 2, 3])), Some(vec![1, 2, 3]));
}

#[test]
fn decode_as_many_elements_as_the_capacity() {
    let elements: Vec<u64> = (1..=8).map(|k| k * 500).collect();
    let sketch = sketch_of(12, 0, 8, &elements);
    assert_eq!(decoded(&sketch), Some(elements));
}

#[test]
fn decode_in_fields_of_other_widths() {
    assert_eq!(decoded(&sketch_of(1, 0, 1, &[1])), Some(vec![1]));
    assert_eq!(decoded(&sketch_of(2, 0, 3, &[1, 2, 3])), Some(vec![1, 2, 3]));
    assert_eq!(decoded(&sketch_of(3, 0, 2, &[5, 7])), Some(vec![5, 7]));
    assert_eq!(decoded(&sketch_of(7, 0, 3, &[5, 77, 127])), Some(vec![5, 77, 127]));
    assert_eq!(decoded(&sketch_of(8, 1, 4, &[1, 2, 128, 255])), Some(vec![1, 2, 128, 255]));
    assert_eq!(decoded(&sketch_of(16, 0, 3, &[1, 40000, 65535])), Some(vec![1, 40000, 65535]));
}

#[test]
fn decode_does_not_depend_on_insertions_that_cancel() {
    let sketch = sketch_of(12, 0, 3, &[7, 8, 9, 8, 10, 7, 7]);
    assert_eq!(decoded(&sketch), Some(vec![7, 9, 10]));
}

#[test]
fn decode_writes_the_start_of_the_buffer_only() {
    let sketch = sketch_of(12, 0, 4, &[42, 10]);
    let mut out = [9u64; 6];
    assert_eq!(sketch.decode(&mut out).unwrap(), 2);
    let mut found = out[..2].to_vec();
    found.sort();
    assert_eq!(found, vec![10, 42]);
    assert_eq!(out[2..], [9u64; 4]);
}

#[test]
fn decode_into_a_short_buffer_fails() {
    let sketch = sketch_of(12, 0, 4, &[42, 10, 77]);
    let mut out = [9u64; 2];
    assert!(sketch.decode(&mut out).is_err());
    assert_eq!(out, [9u64; 2]);
    let mut exact = [0u64; 3];
    assert_eq!(sketch.decode(&mut exact).unwrap(), 3);
}

#[test]
fn decode_of_an_empty_sketch_needs_no_room() {
    let sketch = Minisketch::try_new(64, 0, 4).unwrap();
    let mut none: [u64; 0] = [];
    assert_eq!(sketch.decode(&mut none).unwrap(), 0);
}

#[test]
fn decode_beyond_the_capacity_fails() {
    // Three elements in a sketch of capacity two, and no two elements with
    // the same power sums.
    let sketch = sketch_of(12, 0, 2, &[100, 200, 300]);
    let mut out = [9u64; 2];
    assert!(sketch.decode(&mut out).is_err());
    assert_eq!(out, [9u64; 2]);
}

#[test]
fn decode_beyond_the_capacity_never_gives_some_of_the_elements() {
    // Whatever comes out has the power sums of the sketch, so it is never a
    // part of what went in.
    let mut x: u64 = 7;
    for capacity in 1..=4usize {
        for _ in 0..40 {
            let mut elements = Vec::new();
            while elements.len() < capacity + 2 {
                x = x.wrapping_mul(6364136223846793005).wrapping_add(1442695040888963407);
                let e = (x >> 33) % 4095 + 1;
                if !elements.contains(&e) {
                    elements.push(e);
                }
            }
            let sketch = sketch_of(12, 0, capacity, &elements);
            if let Some(found) = decoded(&sketch) {
                assert!(found.len() <= capacity);
                let again = sketch_of(12, 0, capacity, &found);
                let mut a = vec![0u8; sketch.serialized_size()];
                let mut b = vec![0u8; sketch.serialized_size()];
                sketch.serialize(&mut a).unwrap();
                again.serialize(&mut b).unwrap();
                assert_eq!(a, b);
            }
        }
    }
}

#[test]
fn decode_of_sets_with_the_same_power_sums() {
    // In GF(2^12) the sets {1, 2, 3, 4, 5} and {6, 7} have the same two
    // power sums of odd order, so a sketch of capacity two cannot tell them
    // apart.
    let five = sketch_of(12, 0, 2, &[1, 2, 3, 4, 5]);
    assert_eq!(decoded(&five), Some(vec![6, 7]));
    // In GF(4) the elements 1, 2 and 3 add up to zero.
    let three = sketch_of(2, 0, 1, &[1, 2, 3]);
    assert_eq!(decoded(&three), Some(vec![]));
}

#[test]
fn decode_of_bytes_that_are_no_sketch_fails() {
    let mut sketch = Minisketch::try_new(12, 0, 2).unwrap();
    // The power sums 0x180 and 0x419 belong to no set of at most two elements.
    sketch.deserialize(&[0x80, 0x91, 0x41]).unwrap();
    let mut out = [0u64; 2];
    assert!(sketch.decode(&mut out).is_err());
}

#[test]
fn decode_after_reconciliation_in_two_halves() {
    // Sixteen differences in sketches of capacity eight: decoding the whole
    // fails, decoding the two halves finds them all.
    let alice: Vec<u64> = (1..=40).collect();
    let bob: Vec<u64> = (1..=24).collect();
    let even = |set: &Vec<u64>| -> Vec<u64> { set.iter().copied().filter(|e| e % 2 == 0).collect() };
    let odd = |set: &Vec<u64>| -> Vec<u64> { set.iter().copied().filter(|e| e % 2 == 1).collect() };

    let mut whole = sketch_of(12, 0, 8, &alice);
    whole.merge(&sketch_of(12, 0, 8, &bob)).unwrap();
    assert_eq!(decoded(&whole), None);

    let mut first = sketch_of(12, 0, 8, &even(&alice));
    first.merge(&sketch_of(12, 0, 8, &even(&bob))).unwrap();
    let mut second = sketch_of(12, 0, 8, &odd(&alice));
    second.merge(&sketch_of(12, 0, 8, &odd(&bob))).unwrap();

    let mut found = decoded(&first).unwrap();
    found.extend(decoded(&second).unwrap());
    found.sort();
    let expected: Vec<u64> = (25..=40).collect();
    assert_eq!(found, expected);
}

#[test]
fn decode_elements_of_32_bits() {
    let elements = [1u64, 0xdead_beef, 0x8000_0000, 0xffff_ffff, 12345, 0x0123_4567];
    let sketch = sketch_of(32, 0, 8, &elements);
    let mut expected = elements.to_vec();
    expected.sort();
    assert_eq!(decoded(&sketch), Some(expected));
}

#[test]
fn decode_elements_of_64_bits() {
    let elements = [
        1u64,
        u64::MAX,
        0x8000_0000_0000_0000,
        0xdead_beef_cafe_babe,
        0x0123_4567_89ab_cdef,
    ];
    for implementation in 0..=1u32 {
        let sketch = sketch_of(64, implementation, 5, &elements);
        let mut expected = elements.to_vec();
        expected.sort();
        assert_eq!(decoded(&sketch), Some(expected));
    }
}

#[test]
fn decode_in_every_field() {
    for bits in 2..=64u32 {
        let mask = if bits == 64 { u64::MAX } else { (1u64 << bits) - 1 };
        let mut elements = vec![1u64, mask, mask ^ 1];
        elements.sort();
        elements.dedup();
        let sketch = sketch_of(bits, 0, 3, &elements);
        assert_eq!(decoded(&sketch), Some(elements));
    }
}

#[test]
fn decode_beyond_the_capacity_fails_in_a_large_field() {
    let elements: Vec<u64> = (1..=9).map(|k| k * 0x0101_0101_0101_0101).collect();
    let sketch = sketch_of(64, 0, 4, &elements);
    assert_eq!(decoded(&sketch), None);
    let sketch = sketch_of(32, 0, 4, &elements);
    assert_eq!(decoded(&sketch), None);
}

#[test]
fn decode_of_bytes_that_are_no_sketch_fails_in_a_large_field() {
    let mut sketch = Minisketch::try_new(64, 0, 3).unwrap();
    let mut buf = [0u8; 24];
    for (k, byte) in buf.iter_mut().enumerate() {
        *byte = (k as u8).wrapping_mul(37).wrapping_add(11);
    }
    sketch.deserialize(&buf).unwrap();
    assert_eq!(decoded(&sketch), None);
}

#[test]
fn decode_with_every_seed_gives_the_same_set() {
    let elements = [7u64, 0xffff_0000_ffff, 0x1234_5678_9abc, 42, 0xabc_def0];
    let mut sketch = sketch_of(48, 0, 6, &elements);
    let mut expected = elements.to_vec();
    expected.sort();
    for seed in 0..100u64 {
        sketch.set_seed(seed.wrapping_mul(0x9e37_79b9_7f4a_7c15));
        assert_eq!(decoded(&sketch), Some(expected.clone()));
    }
}

#[test]
fn decode_after_reconciliation_in_two_halves_of_64_bits() {
    // Twenty-four differences in sketches of capacity sixteen.
    let alice: Vec<u64> = (1..32).collect();
    let bob: Vec<u64> = (1..8).collect();
    let even = |set: &Vec<u64>| -> Vec<u64> { set.iter().copied().filter(|e| e % 2 == 0).collect() };
    let odd = |set: &Vec<u64>| -> Vec<u64> { set.iter().copied().filter(|e| e % 2 == 1).collect() };

    let mut whole = sketch_of(64, 0, 16, &alice);
    whole.merge(&sketch_of(64, 0, 16, &bob)).unwrap();
    assert_eq!(decoded(&whole), None);

    let mut first = sketch_of(64, 0, 16, &even(&alice));
    first.merge(&sketch_of(64, 0, 16, &even(&bob))).unwrap();
    let mut second = sketch_of(64, 0, 16, &odd(&alice));
    second.merge(&sketch_of(64, 0, 16, &odd(&bob))).unwrap();

    let mut found = decoded(&first).unwrap();
    found.extend(decoded(&second).unwrap());
    found.sort();
    let expected: Vec<u64> = (8..32).collect();
    assert_eq!(found, expected);
}
