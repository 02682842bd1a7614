use minisketch_rs::Minisketch;

fn validate_elements(elements: &[u64]) {
    // Decoding gives the elements in no particular order.
    let mut differences = Vec::from(elements);
    differences.sort();

    assert_eq!(differences[0], 3_000);
    assert_eq!(differences[1], 3_001);
    assert_eq!(differences[2], 3_010);
    assert_eq!(differences[3], 3_011);
}

#[test]
pub fn test_sanity_check() {
    // Alice's side
    let mut sketch_a = Minisketch::try_new(12, 0, 4).unwrap();
    for i in 3_000..3_010 {
        sketch_a.add(i as u64);
    }

    let sersize = sketch_a.serialized_size();
    assert_eq!(sersize, 12 * 4 / 8);

    let mut buf_a = vec![0u8; sersize];
    sketch_a.serialize(buf_a.as_mut_slice()).unwrap();
    drop(sketch_a);

    let mut sketch_b = Minisketch::try_new(12, 0, 4).unwrap();
    for i in 3_002..3_012 {
        sketch_b.add(i as u64);
    }

    // Bob's side
    {
        let mut sketch_a = Minisketch::try_new(12, 0, 4).unwrap(); // Alice's sketch
        sketch_a.deserialize(&buf_a).unwrap(); // Load Alice's sketch

        // Merge the elements from sketch_a into sketch_b. The result is a sketch_b
        // which contains all elements that occurred in Alice's or Bob's sets, but not
        // in both.
        let _ = sketch_b.merge(&sketch_a);

        let mut differences = [0u64; 4];
        let num_differences = sketch_b.decode(&mut differences[..]).unwrap();

        assert!(num_differences > 0);
        validate_elements(&differences[..]);
    }
}

#[test]
pub fn sanity_check_rust_types() {
    let mut sketch_a = Minisketch::try_new(12, 0, 4).unwrap();

    assert_eq!(sketch_a.bits(), 12);
    assert_eq!(sketch_a.implementation(), 0);
    assert_eq!(sketch_a.capacity(), 4);

    for i in 3_000..3_010 {
        sketch_a.add(i);
    }

    let sersize = sketch_a.serialized_size();
    assert_eq!(sersize, 12 * 4 / 8);

    let mut buf_a = vec![0u8; sersize];
    sketch_a.serialize(buf_a.as_mut_slice()).unwrap();

    let mut sketch_b = Minisketch::try_new(12, 0, 4).unwrap();
    for i in 3_002..3_012 {
        sketch_b.add(i);
    }

    // Bob's side (with .merge() method)
    {
        let mut sketch_b = sketch_b.clone();
        // Alice's sketch
        let mut sketch_a = Minisketch::try_new(12, 0, 4).unwrap();
        sketch_a.deserialize(&buf_a).unwrap(); // Load Alice's sketch

        let _ = sketch_b.merge(&sketch_a).unwrap();

        let mut differences = [0u64; 4];
        let num_differences = sketch_b.decode(&mut differences[..]).unwrap();

        assert!(num_differences > 0);
        validate_elements(&differences[..]);
    }

    // Bob's side (with ^= instead of .merge())
    {
        let mut sketch_b = sketch_b.clone();

        // Alice's sketch
        let mut sketch_a = Minisketch::try_new(12, 0, 4).unwrap();
        sketch_a.deserialize(&buf_a).unwrap(); // Load Alice's sketch

        sketch_b ^= sketch_a;

        let mut differences = [0u64; 4];
        let num_differences = sketch_b.decode(&mut differences[..]).unwrap();

        assert!(num_differences > 0);
        validate_elements(&differences[..]);
    }
}
