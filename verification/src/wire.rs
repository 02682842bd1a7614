//! The wire format of a sketch.
//!
//! The power sums of a sketch are written one after the other as a stream of
//! bits, each as `bits` bits with the lowest bit first and nothing between
//! them. The stream is cut into bytes, again lowest bit first, and the last
//! byte is filled up with zero bits. Neither `bits` nor the capacity is part
//! of the format.

use crate::field::{in_field, low_mask};
use crate::sketch::MAX_CAPACITY;
use crate::ring::low_bits;
use crate::sums::all_in_field;
use vstd::arithmetic::div_mod::{lemma_fundamental_div_mod, lemma_fundamental_div_mod_converse};
use vstd::prelude::*;

verus! {

/// The number of bytes of a serialized sketch: `bits * capacity` bits, rounded
/// up to whole bytes.
pub open spec fn serialized_len(bits: u32, capacity: nat) -> nat {
    ((bits * capacity + 7) / 8) as nat
}

/// Bit `g` of the stream of a sketch: bit `g % bits` of the power sum
/// `g / bits`, and zero after the last power sum.
pub open spec fn stream_bit(syndromes: Seq<u64>, bits: u32, g: nat) -> u64 {
    if bits > 0 && g < bits * syndromes.len() {
        (syndromes[g as int / bits as int] >> ((g as int % bits as int) as u32)) & 1
    } else {
        0
    }
}

/// The `n` lowest bits of byte `j` of a serialized sketch.
pub open spec fn packed_bits(syndromes: Seq<u64>, bits: u32, j: nat, n: nat) -> u8
    decreases n,
{
    if n == 0 {
        0
    } else {
        packed_bits(syndromes, bits, j, (n - 1) as nat) | ((stream_bit(
            syndromes,
            bits,
            (8 * j + n - 1) as nat,
        ) as u8) << ((n - 1) as u32))
    }
}

/// The bytes of a serialized sketch.
pub open spec fn serialized(syndromes: Seq<u64>, bits: u32) -> Seq<u8> {
    Seq::new(
        serialized_len(bits, syndromes.len()),
        |j: int| packed_bits(syndromes, bits, j as nat, 8),
    )
}

/// Bit `g` of a buffer, counted from the lowest bit of its first byte.
pub open spec fn buffer_bit(buf: Seq<u8>, g: nat) -> u64 {
    if g / 8 < buf.len() {
        ((buf[g as int / 8] >> ((g % 8) as u32)) & 1) as u64
    } else {
        0
    }
}

/// The value of the `n` bits of a buffer from bit `start` on, the first of
/// them as the lowest.
pub open spec fn unpacked_bits(buf: Seq<u8>, start: nat, n: nat) -> u64
    decreases n,
{
    if n == 0 {
        0
    } else {
        unpacked_bits(buf, start, (n - 1) as nat) | (buffer_bit(buf, (start + n - 1) as nat) << ((n
            - 1) as u32))
    }
}

/// The power sums that a buffer holds for a sketch of the given shape.
pub open spec fn deserialized(buf: Seq<u8>, bits: u32, capacity: nat) -> Seq<u64> {
    Seq::new(capacity, |i: int| unpacked_bits(buf, (i * bits) as nat, bits as nat))
}

/// The bits of a byte after one more bit is set in it.
proof fn lemma_byte_step(prev: u8, bit: u8, n: u32, b: u32)
    by (bit_vector)
    requires
        bit <= 1,
        1 <= n <= 8,
        b < 8,
    ensures
        ((prev | (bit << ((n - 1) as u32))) >> b) & 1 == (if b == n - 1 {
            bit | ((prev >> b) & 1)
        } else {
            (prev >> b) & 1
        }),
        (0u8 >> b) & 1 == 0,
        bit | 0 == bit,
        prev | (0u8 << b) == prev,
        (prev >> b) & 1 <= 1,
{
}

/// The bits of a value, taken one after the other from the lowest, make up
/// its lowest bits.
proof fn lemma_word_step(v: u64, prev: u64, bit: u64, t: u32)
    by (bit_vector)
    requires
        1 <= t <= 64,
    ensures
        (v & low_bits((t - 1) as u32)) | (((v >> ((t - 1) as u32)) & 1) << ((t - 1) as u32)) == v
            & low_bits(t),
        v & low_bits(0) == 0,
        (v >> ((t - 1) as u32)) & 1 <= 1,
        prev <= low_bits((t - 1) as u32) && bit <= 1 ==> prev | (bit << ((t - 1) as u32))
            <= low_bits(t),
        low_bits(t) == low_mask(t),
        prev | (0u64 << ((t - 1) as u32)) == prev,
{
}

/// The index of a bit of the stream from the power sum and the bit in it.
pub proof fn lemma_stream_position(i: nat, t: nat, bits: u32, capacity: nat)
    requires
        bits > 0,
        i < capacity,
        t < bits,
    ensures
        i * bits + t < bits * capacity,
        (i * bits + t) as int / bits as int == i,
        (i * bits + t) as int % bits as int == t,
{
    assert(i * bits + t < bits * capacity) by (nonlinear_arith)
        requires
            i < capacity,
            t < bits,
    ;
    lemma_fundamental_div_mod_converse((i * bits + t) as int, bits as int, i as int, t as int);
}

/// Bit `b` of the `n` lowest bits of byte `j` is the bit of the stream at that
/// place.
proof fn lemma_packed_bit(syndromes: Seq<u64>, bits: u32, j: nat, n: nat, b: u32)
    requires
        n <= 8,
        b < 8,
    ensures
        (packed_bits(syndromes, bits, j, n) >> b) & 1 == (if b < n {
            stream_bit(syndromes, bits, 8 * j + b as nat) as u8
        } else {
            0
        }),
    decreases n,
{
    if n == 0 {
        lemma_byte_step(0, 0, 1, b);
    } else {
        let prev = packed_bits(syndromes, bits, j, (n - 1) as nat);
        let word = stream_bit(syndromes, bits, (8 * j + n - 1) as nat);
        lemma_stream_bit_small(syndromes, bits, (8 * j + n - 1) as nat);
        let bit = word as u8;
        lemma_packed_bit(syndromes, bits, j, (n - 1) as nat, b);
        lemma_byte_step(prev, bit, n as u32, b);
    }
}

/// A bit of the stream is zero or one.
proof fn lemma_stream_bit_small(syndromes: Seq<u64>, bits: u32, g: nat)
    ensures
        stream_bit(syndromes, bits, g) <= 1,
{
    if bits > 0 && g < bits * syndromes.len() {
        let t = (g as int % bits as int) as u32;
        lemma_fundamental_div_mod(g as int, bits as int);
        let v = syndromes[g as int / bits as int];
        if t < 64 {
            lemma_word_step(v, 0, 0, (t + 1) as u32);
        } else {
            lemma_shift_far(v, t);
        }
    }
}

/// A bit is zero or one, wherever it is taken from.
proof fn lemma_shift_far(v: u64, t: u32)
    by (bit_vector)
    ensures
        (v >> t) & 1 <= 1,
{
}

/// A bit of a serialized sketch is the bit of the stream at that place.
proof fn lemma_serialized_bit(syndromes: Seq<u64>, bits: u32, g: nat)
    requires
        g < 8 * serialized_len(bits, syndromes.len()),
    ensures
        buffer_bit(serialized(syndromes, bits), g) == stream_bit(syndromes, bits, g),
{
    let j = g / 8;
    let b = (g % 8) as u32;
    lemma_packed_bit(syndromes, bits, j, 8, b);
    lemma_stream_bit_small(syndromes, bits, g);
    assert(8 * j + b as nat == g);
}

/// The first `t` bits of power sum `i`, read back from the serialized sketch.
proof fn lemma_unpacked_prefix(syndromes: Seq<u64>, bits: u32, i: nat, t: nat)
    requires
        1 <= bits <= 64,
        i < syndromes.len(),
        t <= bits,
    ensures
        unpacked_bits(serialized(syndromes, bits), (i * bits) as nat, t) == syndromes[i as int] & low_bits(
            t as u32,
        ),
    decreases t,
{
    let v = syndromes[i as int];
    if t == 0 {
        lemma_word_step(v, 0, 0, 1);
    } else {
        let g = (i * bits + t - 1) as nat;
        lemma_unpacked_prefix(syndromes, bits, i, (t - 1) as nat);
        lemma_stream_position(i, (t - 1) as nat, bits, syndromes.len());
        assert(g < 8 * serialized_len(bits, syndromes.len()));
        lemma_serialized_bit(syndromes, bits, g);
        assert(stream_bit(syndromes, bits, g) == (v >> ((t - 1) as u32)) & 1);
        lemma_word_step(v, 0, 0, t as u32);
    }
}

/// What is read from a buffer fits the field.
pub proof fn lemma_unpacked_in_field(buf: Seq<u8>, start: nat, n: nat)
    requires
        n <= 64,
    ensures
        unpacked_bits(buf, start, n) <= low_bits(n as u32),
        n >= 1 ==> in_field(unpacked_bits(buf, start, n), n as u32),
    decreases n,
{
    if n > 0 {
        let prev = unpacked_bits(buf, start, (n - 1) as nat);
        let bit = buffer_bit(buf, (start + n - 1) as nat);
        lemma_unpacked_in_field(buf, start, (n - 1) as nat);
        lemma_buffer_bit_small(buf, (start + n - 1) as nat);
        lemma_word_step(0, prev, bit, n as u32);
    }
}

/// A bit of a buffer is zero or one.
proof fn lemma_buffer_bit_small(buf: Seq<u8>, g: nat)
    ensures
        buffer_bit(buf, g) <= 1,
{
    if g / 8 < buf.len() {
        lemma_byte_step(buf[g as int / 8], 0, 1, (g % 8) as u32);
    }
}

/// Every sketch that is read from a buffer holds field elements only.
pub proof fn lemma_deserialized_in_field(buf: Seq<u8>, bits: u32, capacity: nat)
    requires
        1 <= bits <= 64,
    ensures
        all_in_field(deserialized(buf, bits, capacity), bits),
{
    assert forall|i: int| 0 <= i < capacity implies in_field(
        #[trigger] deserialized(buf, bits, capacity)[i],
        bits,
    ) by {
        lemma_unpacked_in_field(buf, (i * bits) as nat, bits as nat);
    }
}

/// Reading back what was written gives the sketch that was written.
pub proof fn lemma_round_trip(syndromes: Seq<u64>, bits: u32)
    requires
        1 <= bits <= 64,
        all_in_field(syndromes, bits),
    ensures
        deserialized(serialized(syndromes, bits), bits, syndromes.len()) == syndromes,
{
    let back = deserialized(serialized(syndromes, bits), bits, syndromes.len());
    assert forall|i: int| 0 <= i < syndromes.len() implies #[trigger] back[i] == syndromes[i] by {
        lemma_unpacked_prefix(syndromes, bits, i as nat, bits as nat);
        lemma_word_step(0, 0, 0, bits);
        crate::field::lemma_mask(syndromes[i], 0, bits);
        assert(in_field(syndromes[i], bits));
    }
    assert(back =~= syndromes);
}

/// The number of bits of a sketch fits `usize`, with room to spare.
pub proof fn lemma_stream_fits(bits: u32, capacity: nat)
    requires
        bits <= 64,
        capacity <= MAX_CAPACITY,
    ensures
        bits * capacity + 64 <= usize::MAX,
        8 * serialized_len(bits, capacity) < bits * capacity + 8,
        bits * capacity <= 8 * serialized_len(bits, capacity),
{
    assert(bits * capacity <= 64 * capacity) by (nonlinear_arith)
        requires
            bits <= 64,
    ;
}

/// Byte `j` of the serialized sketch.
pub(crate) fn pack_byte(syndromes: &Vec<u64>, bits: u32, j: usize) -> (byte: u8)
    requires
        1 <= bits <= 64,
        syndromes.len() <= MAX_CAPACITY,
        j < serialized_len(bits, syndromes@.len()),
    ensures
        byte == packed_bits(syndromes@, bits, j as nat, 8),
{
    proof {
        lemma_stream_fits(bits, syndromes@.len());
    }
    let total: usize = (bits as usize) * syndromes.len();
    let mut byte: u8 = 0;
    let mut b: u32 = 0;
    while b < 8
        invariant
            1 <= bits <= 64,
            b <= 8,
            total == bits * syndromes@.len(),
            8 * j + 8 <= usize::MAX,
            byte == packed_bits(syndromes@, bits, j as nat, b as nat),
        decreases 8 - b,
    {
        let g: usize = 8 * j + b as usize;
        if g < total {
            let i: usize = g / (bits as usize);
            let t: u32 = (g % (bits as usize)) as u32;
            proof {
                lemma_fundamental_div_mod(g as int, bits as int);
                assert(i < syndromes@.len()) by (nonlinear_arith)
                    requires
                        g < bits * syndromes@.len(),
                        g == bits * i + t,
                        0 <= t,
                        bits > 0,
                ;
                lemma_stream_bit_small(syndromes@, bits, g as nat);
            }
            let bit: u8 = ((syndromes[i] >> t) & 1) as u8;
            byte = byte | (bit << b);
        } else {
            proof {
                lemma_byte_step(byte, 0, 1, b);
            }
        }
        b = b + 1;
    }
    byte
}

/// Power sum `i` of the sketch that a buffer holds.
pub(crate) fn unpack_element(buf: &[u8], bits: u32, i: usize, capacity: usize) -> (v: u64)
    requires
        1 <= bits <= 64,
        i < capacity <= MAX_CAPACITY,
        buf@.len() >= serialized_len(bits, capacity as nat),
    ensures
        v == unpacked_bits(buf@, (i * bits) as nat, bits as nat),
        in_field(v, bits),
{
    proof {
        lemma_stream_fits(bits, capacity as nat);
        lemma_stream_position(i as nat, 0, bits, capacity as nat);
        lemma_unpacked_in_field(buf@, (i * bits) as nat, bits as nat);
    }
    let start: usize = i * (bits as usize);
    let mut v: u64 = 0;
    let mut t: u32 = 0;
    while t < bits
        invariant
            1 <= bits <= 64,
            t <= bits,
            i < capacity <= MAX_CAPACITY,
            start == i * bits,
            bits * capacity + 64 <= usize::MAX,
            bits * capacity <= 8 * serialized_len(bits, capacity as nat),
            buf@.len() >= serialized_len(bits, capacity as nat),
            v == unpacked_bits(buf@, start as nat, t as nat),
        decreases bits - t,
    {
        proof {
            lemma_stream_position(i as nat, t as nat, bits, capacity as nat);
            lemma_buffer_bit_small(buf@, (start + t) as nat);
        }
        let g: usize = start + t as usize;
        let byte: u8 = buf[g / 8];
        let bit: u64 = ((byte >> ((g % 8) as u32)) & 1) as u64;
        v = v | (bit << t);
        t = t + 1;
    }
    v
}

} // verus!
