use minisketch_rs::Minisketch;

fn sketch_of(bits: u32, capacity: usize, elements: &[u64]) -> Minisketch {
    let mut sketch = Minisketch::try_new(bits, 0, capacity).unwrap();
    for element in elements {
        sketch.add(*element);
    }
    sketch
}

#[test]
fn serialized_size_rounds_up_to_bytes() {
    let size = |bits: u32, capacity: usize| {
        Minisketch::try_new(bits, 0, capacity).unwrap().serialized_size()
    };
    assert_eq!(size(12, 4), 6);
    assert_eq!(size(12, 1), 2);
    assert_eq!(size(7, 3), 3);
    assert_eq!(size(1, 1), 1);
    assert_eq!(size(1, 8), 1);
    assert_eq!(size(1, 9), 2);
    assert_eq!(size(13, 5), 9);
    assert_eq!(size(64, 3), 24);
}

#[test]
fn serialize_known_bytes() {
    let sketch = sketch_of(7, 3, &[5, 77, 127]);
    let mut buf = [0u8; 3];
    sketch.serialize(&mut buf).unwrap();
    // The power sums are 0x37, 0x74, 0x45: 21 bits, and three bits of padding.
    assert_eq!(buf, [0x37, 0x7a, 0x11]);
}

#[test]
fn serialize_elements_of_64_bits() {
    let sketch = sketch_of(64, 3, &[u64::MAX, 1, 0x8000_0000_0000_0001]);
    let mut buf = [0u8; 24];
    sketch.serialize(&mut buf).unwrap();
    let mut expected = Vec::new();
    for sum in [0x7fff_ffff_ffff_ffffu64, 0xd333_3333_3333_32a7, 0x770f_0f0f_0f0f_547c] {
        expected.extend_from_slice(&sum.to_le_bytes());
    }
    assert_eq!(buf.to_vec(), expected);
}

#[test]
fn serialize_overwrites_what_the_buffer_held() {
    let sketch = sketch_of(12, 4, &[2]);
    let mut buf = [0xffu8; 6];
    sketch.serialize(&mut buf).unwrap();
    assert_eq!(buf, [0x02, 0x80, 0x00, 0x20, 0x00, 0x08]);
}

#[test]
fn serialize_into_a_short_buffer_fails() {
    let sketch = sketch_of(12, 4, &[3000]);
    let mut buf = [0xaau8; 5];
    assert!(sketch.serialize(&mut buf).is_err());
    assert_eq!(buf, [0xaau8; 5]);
    let mut none: [u8; 0] = [];
    assert!(sketch.serialize(&mut none).is_err());
}

#[test]
fn serialize_into_a_long_buffer_uses_its_start() {
    let sketch = sketch_of(12, 4, &[2]);
    let mut buf = [0xaau8; 9];
    sketch.serialize(&mut buf).unwrap();
    assert_eq!(buf, [0x02, 0x80, 0x00, 0x20, 0x00, 0x08, 0xaa, 0xaa, 0xaa]);
}

#[test]
fn deserialize_reads_back_what_was_written() {
    for (bits, capacity) in [(1u32, 1usize), (1, 9), (7, 3), (12, 4), (13, 5), (33, 2), (64, 3)] {
        let elements = [1u64, 0xdead_beef_cafe_babe, 0x0123_4567_89ab_cdef, 3000];
        let sketch = sketch_of(bits, capacity, &elements);
        let mut buf = vec![0u8; sketch.serialized_size()];
        sketch.serialize(&mut buf).unwrap();

        let mut copy = Minisketch::try_new(bits, 0, capacity).unwrap();
        copy.add(12345);
        copy.deserialize(&buf).unwrap();
        let mut again = vec![0u8; copy.serialized_size()];
        copy.serialize(&mut again).unwrap();
        assert_eq!(buf, again);
    }
}

#[test]
fn deserialize_replaces_the_state() {
    let mut sketch = sketch_of(12, 4, &[3000, 3001]);
    sketch.deserialize(&[0x02, 0x80, 0x00, 0x20, 0x00, 0x08]).unwrap();
    let mut out = [0u64; 4];
    assert_eq!(sketch.decode(&mut out).unwrap(), 1);
    assert_eq!(out[0], 2);
    assert_eq!(sketch.bits(), 12);
    assert_eq!(sketch.capacity(), 4);
}

#[test]
fn deserialize_from_a_short_buffer_fails() {
    let mut sketch = sketch_of(12, 4, &[2]);
    assert!(sketch.deserialize(&[0u8; 5]).is_err());
    assert!(sketch.deserialize(&[]).is_err());
    let mut buf = [0u8; 6];
    sketch.serialize(&mut buf).unwrap();
    assert_eq!(buf, [0x02, 0x80, 0x00, 0x20, 0x00, 0x08]);
}

#[test]
fn deserialize_from_a_long_buffer_uses_its_start() {
    let mut sketch = Minisketch::try_new(12, 0, 4).unwrap();
    sketch
        .deserialize(&[0x02, 0x80, 0x00, 0x20, 0x00, 0x08, 0xff, 0xff])
        .unwrap();
    let mut buf = [0u8; 6];
    sketch.serialize(&mut buf).unwrap();
    assert_eq!(buf, [0x02, 0x80, 0x00, 0x20, 0x00, 0x08]);
}

#[test]
fn deserialize_ignores_the_padding() {
    // Seven bits of one power sum; the eighth bit of the byte is padding.
    let mut sketch = Minisketch::try_new(7, 0, 1).unwrap();
    sketch.deserialize(&[0xff]).unwrap();
    let mut buf = [0u8; 1];
    sketch.serialize(&mut buf).unwrap();
    assert_eq!(buf, [0x7f]);
}

#[test]
fn xor_of_serializations_is_the_serialization_of_the_merge() {
    let mut a = sketch_of(12, 4, &[3000, 3001, 3002]);
    let b = sketch_of(12, 4, &[3002, 3003]);
    let mut buf_a = [0u8; 6];
    let mut buf_b = [0u8; 6];
    a.serialize(&mut buf_a).unwrap();
    b.serialize(&mut buf_b).unwrap();
    a.merge(&b).unwrap();
    let mut merged = [0u8; 6];
    a.serialize(&mut merged).unwrap();
    for k in 0..6 {
        assert_eq!(merged[k], buf_a[k] ^ buf_b[k]);
    }
}
