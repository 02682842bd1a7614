//! Arithmetic in the binary fields `GF(2^bits)`, for `1 <= bits <= 64`.
//!
//! An element of `GF(2^bits)` is a polynomial over `GF(2)` of degree below
//! `bits`, held in a `u64`: bit `i` is the coefficient of `x^i`. The sum of two
//! elements is their bitwise exclusive or. The product is the product of the
//! two polynomials, reduced modulo the field's modulus, a fixed irreducible
//! polynomial of degree `bits`.
//!
//! The product is specified by [`gf_mul`]. The module `ring` proves that it is
//! commutative and associative, that it distributes over the sum and that `1`
//! is its unit. Both implementations of the product are proved equal to
//! [`gf_mul`], and so to each other.
//!
//! That every element other than zero has an inverse rests on the moduli
//! being irreducible. This is not proved of the table of moduli; it is
//! checked by [`Field::certify`], which the module `certify` proves right.

use crate::ring::{
    lemma_mul_associative, lemma_mul_commutative, lemma_mul_unit, lemma_pow_add,
    lemma_pow_in_field, lemma_pow_mul, lemma_pow_small, lemma_pow_truncates,
    lemma_steps_times_x,
};
use vstd::prelude::*;

verus! {

/// The widest elements supported, in bits.
pub const MAX_BITS: u32 = 64;

/// The highest implementation number. Implementation 0 walks the multiplier
/// from its lowest bit up and adds shifted copies of the multiplicand;
/// implementation 1 walks it from its highest bit down, by Horner's rule.
pub const MAX_IMPLEMENTATION: u32 = 1;

/// The modulus of `GF(2^bits)` without its leading term `x^bits`. For each
/// width this is a trinomial where an irreducible one exists, and a
/// pentanomial otherwise.
pub open spec fn modulus_low(bits: u32) -> u64 {
    match bits {
        1 => 0x1,
        2 => 0x3,
        3 => 0x3,
        4 => 0x3,
        5 => 0x5,
        6 => 0x3,
        7 => 0x3,
        8 => 0x1b,
        9 => 0x3,
        10 => 0x9,
        11 => 0x5,
        12 => 0x9,
        13 => 0x1b,
        14 => 0x21,
        15 => 0x3,
        16 => 0x2b,
        17 => 0x9,
        18 => 0x9,
        19 => 0x27,
        20 => 0x9,
        21 => 0x5,
        22 => 0x3,
        23 => 0x21,
        24 => 0x1b,
        25 => 0x9,
        26 => 0x1b,
        27 => 0x27,
        28 => 0x3,
        29 => 0x5,
        30 => 0x3,
        31 => 0x9,
        32 => 0x8d,
        33 => 0x401,
        34 => 0x81,
        35 => 0x5,
        36 => 0x201,
        37 => 0x53,
        38 => 0x63,
        39 => 0x11,
        40 => 0x39,
        41 => 0x9,
        42 => 0x81,
        43 => 0x59,
        44 => 0x21,
        45 => 0x1b,
        46 => 0x3,
        47 => 0x21,
        48 => 0x2d,
        49 => 0x201,
        50 => 0x1d,
        51 => 0x4b,
        52 => 0x9,
        53 => 0x47,
        54 => 0x201,
        55 => 0x81,
        56 => 0x95,
        57 => 0x11,
        58 => 0x80001,
        59 => 0x95,
        60 => 0x3,
        61 => 0x27,
        62 => 0x20000001,
        63 => 0x3,
        64 => 0x1b,
        _ => 0,
    }
}

/// The largest element of `GF(2^bits)`: `bits` ones.
pub open spec fn low_mask(bits: u32) -> u64 {
    u64::MAX >> ((64 - bits) as u32)
}

/// Whether `x` is an element of `GF(2^bits)`.
pub open spec fn in_field(x: u64, bits: u32) -> bool {
    x <= low_mask(bits)
}

/// The product of `a` and the polynomial `x`.
pub open spec fn times_x(a: u64, bits: u32) -> u64 {
    let shifted = (a << 1) & low_mask(bits);
    if (a >> ((bits - 1) as u32)) & 1 == 1 {
        shifted ^ modulus_low(bits)
    } else {
        shifted
    }
}

/// The product of `a` and the polynomial made of the `k` lowest bits of `b`:
/// the sum of `a * x^i` over the positions `i < k` at which `b` has a one.
pub open spec fn gf_mul_steps(a: u64, b: u64, bits: u32, k: nat) -> u64
    decreases k,
{
    if k == 0 {
        0
    } else {
        let rest = gf_mul_steps(times_x(a, bits), b >> 1, bits, (k - 1) as nat);
        if b & 1 == 1 {
            a ^ rest
        } else {
            rest
        }
    }
}

/// The product in `GF(2^bits)`. Operands wider than the field are truncated to
/// their `bits` lowest bits first.
pub open spec fn gf_mul(a: u64, b: u64, bits: u32) -> u64 {
    gf_mul_steps(a & low_mask(bits), b & low_mask(bits), bits, bits as nat)
}

/// The `k`-th power in `GF(2^bits)`.
pub open spec fn gf_pow(a: u64, k: nat, bits: u32) -> u64
    decreases k,
{
    if k == 0 {
        1
    } else {
        gf_mul(gf_pow(a, (k - 1) as nat, bits), a, bits)
    }
}

/// Facts about the largest element that the bit-vector solver settles.
pub proof fn lemma_mask(x: u64, y: u64, bits: u32)
    by (bit_vector)
    requires
        1 <= bits <= 64,
    ensures
        x <= low_mask(bits) <==> x & low_mask(bits) == x,
        x & low_mask(bits) <= low_mask(bits),
        (x ^ y) & low_mask(bits) == (x & low_mask(bits)) ^ (y & low_mask(bits)),
        x <= low_mask(bits) && y <= low_mask(bits) ==> x ^ y <= low_mask(bits),
        modulus_low(bits) <= low_mask(bits),
        1 <= low_mask(bits),
        bits == 64 ==> low_mask(bits) == 0xffff_ffff_ffff_ffff,
{
}

/// Multiplying by `x` is linear and stays in the field.
pub proof fn lemma_times_x(a: u64, b: u64, bits: u32)
    by (bit_vector)
    requires
        1 <= bits <= 64,
    ensures
        times_x(a ^ b, bits) == times_x(a, bits) ^ times_x(b, bits),
        times_x(a, bits) <= low_mask(bits),
        times_x(0, bits) == 0,
{
}

/// The exclusive or is commutative and associative, with `0` as its unit, and
/// every value is its own opposite.
pub proof fn lemma_xor(a: u64, b: u64, c: u64)
    by (bit_vector)
    ensures
        a ^ b == b ^ a,
        (a ^ b) ^ c == a ^ (b ^ c),
        a ^ a == 0,
        a ^ 0 == a,
        0 ^ a == a,
        (a ^ b) ^ b == a,
        a ^ b == c ==> a == c ^ b,
{
}

/// The inverse of `a` in `GF(2^bits)`, found as the power of `a` with the
/// exponent `2^bits - 2` and kept only if its product with `a` is one. Zero
/// has no inverse.
pub open spec fn gf_inv(a: u64, bits: u32) -> Option<u64> {
    let candidate = gf_pow(a, (low_mask(bits) - 1) as nat, bits);
    if gf_mul(a, candidate, bits) == 1 {
        Some(candidate)
    } else {
        None
    }
}

/// Shifting to the right by one place halves a value; the lowest bit tells
/// whether it is odd.
proof fn lemma_halving(e: u64, k: u32)
    by (bit_vector)
    ensures
        e >> 1 == e / 2,
        (e & 1 == 1) <==> e % 2 == 1,
        1 <= k < 64 ==> (e >> ((k - 1) as u32)) >> 1 == e >> k,
        e >> 0u32 == e,
{
}

/// The product of field elements is a field element.
pub proof fn lemma_steps_in_field(a: u64, b: u64, bits: u32, k: nat)
    requires
        1 <= bits <= 64,
        in_field(a, bits),
    ensures
        in_field(gf_mul_steps(a, b, bits, k), bits),
    decreases k,
{
    if k > 0 {
        lemma_times_x(a, a, bits);
        lemma_steps_in_field(times_x(a, bits), b >> 1, bits, (k - 1) as nat);
        lemma_mask(a, gf_mul_steps(times_x(a, bits), b >> 1, bits, (k - 1) as nat), bits);
    }
}

/// Every product is an element of the field.
pub proof fn lemma_mul_in_field(a: u64, b: u64, bits: u32)
    requires
        1 <= bits <= 64,
    ensures
        in_field(gf_mul(a, b, bits), bits),
{
    lemma_mask(a, b, bits);
    lemma_steps_in_field(a & low_mask(bits), b & low_mask(bits), bits, bits as nat);
}

/// The arithmetic of one field `GF(2^bits)`, by one of the interchangeable
/// implementations of the product.
#[derive(Debug, Clone, Copy)]
pub struct Field {
    bits: u32,
    implementation: u32,
    modulus: u64,
    mask: u64,
}

/// The modulus of `GF(2^bits)` without its leading term.
fn modulus_of(bits: u32) -> (m: u64)
    requires
        1 <= bits <= 64,
    ensures
        m == modulus_low(bits),
{
    match bits {
        1 => 0x1,
        2 => 0x3,
        3 => 0x3,
        4 => 0x3,
        5 => 0x5,
        6 => 0x3,
        7 => 0x3,
        8 => 0x1b,
        9 => 0x3,
        10 => 0x9,
        11 => 0x5,
        12 => 0x9,
        13 => 0x1b,
        14 => 0x21,
        15 => 0x3,
        16 => 0x2b,
        17 => 0x9,
        18 => 0x9,
        19 => 0x27,
        20 => 0x9,
        21 => 0x5,
        22 => 0x3,
        23 => 0x21,
        24 => 0x1b,
        25 => 0x9,
        26 => 0x1b,
        27 => 0x27,
        28 => 0x3,
        29 => 0x5,
        30 => 0x3,
        31 => 0x9,
        32 => 0x8d,
        33 => 0x401,
        34 => 0x81,
        35 => 0x5,
        36 => 0x201,
        37 => 0x53,
        38 => 0x63,
        39 => 0x11,
        40 => 0x39,
        41 => 0x9,
        42 => 0x81,
        43 => 0x59,
        44 => 0x21,
        45 => 0x1b,
        46 => 0x3,
        47 => 0x21,
        48 => 0x2d,
        49 => 0x201,
        50 => 0x1d,
        51 => 0x4b,
        52 => 0x9,
        53 => 0x47,
        54 => 0x201,
        55 => 0x81,
        56 => 0x95,
        57 => 0x11,
        58 => 0x80001,
        59 => 0x95,
        60 => 0x3,
        61 => 0x27,
        62 => 0x20000001,
        63 => 0x3,
        64 => 0x1b,
        _ => 0,
    }
}

impl Field {
    /// The width of the elements, in bits.
    pub closed spec fn spec_bits(&self) -> u32 {
        self.bits
    }

    /// The number of the implementation of the product.
    pub closed spec fn spec_implementation(&self) -> u32 {
        self.implementation
    }

    /// The values that the field keeps at hand agree with its width.
    pub closed spec fn tables_agree(&self) -> bool {
        &&& self.modulus == modulus_low(self.bits)
        &&& self.mask == low_mask(self.bits)
    }

    /// Well-formedness: a supported width and implementation.
    pub open spec fn wf(&self) -> bool {
        &&& Self::supported(self.spec_bits(), self.spec_implementation())
        &&& self.tables_agree()
    }

    /// Whether there is a field of this width with this implementation.
    pub open spec fn supported(bits: u32, implementation: u32) -> bool {
        1 <= bits <= MAX_BITS && implementation <= MAX_IMPLEMENTATION
    }

    /// The field `GF(2^bits)` with the given implementation of the product, or
    /// `None` where the combination is not supported.
    pub fn new(bits: u32, implementation: u32) -> (r: Option<Field>)
        ensures
            r is Some <==> Self::supported(bits, implementation),
            r matches Some(f) ==> f.wf() && f.spec_bits() == bits && f.spec_implementation()
                == implementation,
    {
        if bits < 1 || bits > MAX_BITS || implementation > MAX_IMPLEMENTATION {
            return None;
        }
        Some(
            Field {
                bits,
                implementation,
                modulus: modulus_of(bits),
                mask: u64::MAX >> (64 - bits),
            },
        )
    }

    /// The width of the elements, in bits.
    #[verifier::when_used_as_spec(spec_bits)]
    pub fn bits(&self) -> (b: u32)
        ensures
            b == self.spec_bits(),
    {
        self.bits
    }

    /// The number of the implementation of the product.
    #[verifier::when_used_as_spec(spec_implementation)]
    pub fn implementation(&self) -> (i: u32)
        ensures
            i == self.spec_implementation(),
    {
        self.implementation
    }

    /// The largest element: `bits` ones.
    pub fn mask(&self) -> (m: u64)
        requires
            self.wf(),
        ensures
            m == low_mask(self.spec_bits()),
    {
        self.mask
    }

    /// The element that an integer stands for: its `bits` lowest bits.
    pub fn reduce(&self, x: u64) -> (r: u64)
        requires
            self.wf(),
        ensures
            r == x & low_mask(self.spec_bits()),
            in_field(r, self.spec_bits()),
    {
        proof {
            lemma_mask(x, x, self.bits);
        }
        x & self.mask
    }

    /// The product of `a` and the polynomial `x`.
    fn times_x(&self, a: u64) -> (r: u64)
        requires
            self.wf(),
        ensures
            r == times_x(a, self.bits),
    {
        let shifted: u64 = (a << 1) & self.mask;
        if (a >> (self.bits - 1)) & 1 == 1 {
            shifted ^ self.modulus
        } else {
            shifted
        }
    }

    /// The product, from the multiplier's lowest bit up.
    fn mul_ascending(&self, a: u64, b: u64) -> (r: u64)
        requires
            self.wf(),
        ensures
            r == gf_mul(a, b, self.bits),
    {
        let mut acc: u64 = 0;
        let mut x: u64 = a & self.mask;
        let mut y: u64 = b & self.mask;
        let mut k: u32 = 0;
        proof {
            lemma_xor(gf_mul(a, b, self.bits), 0, 0);
        }
        while k < self.bits
            invariant
                self.wf(),
                k <= self.bits,
                acc ^ gf_mul_steps(x, y, self.bits, (self.bits - k) as nat) == gf_mul(
                    a,
                    b,
                    self.bits,
                ),
            decreases self.bits - k,
        {
            proof {
                let rest = gf_mul_steps(
                    times_x(x, self.bits),
                    y >> 1,
                    self.bits,
                    (self.bits - k - 1) as nat,
                );
                lemma_xor(acc, x, rest);
            }
            if y & 1 == 1 {
                acc = acc ^ x;
            }
            x = self.times_x(x);
            y = y >> 1;
            k = k + 1;
        }
        proof {
            lemma_xor(acc, 0, 0);
        }
        acc
    }

    /// The product, from the multiplier's highest bit down.
    fn mul_descending(&self, a: u64, b: u64) -> (r: u64)
        requires
            self.wf(),
        ensures
            r == gf_mul(a, b, self.bits),
    {
        let x: u64 = a & self.mask;
        let y: u64 = b & self.mask;
        let mut acc: u64 = 0;
        let mut k: u32 = self.bits;
        while k > 0
            invariant
                self.wf(),
                k <= self.bits,
                x == a & low_mask(self.bits),
                y == b & low_mask(self.bits),
                acc == gf_mul_steps(
                    x,
                    if k < 64 {
                        y >> k
                    } else {
                        0
                    },
                    self.bits,
                    (self.bits - k) as nat,
                ),
            decreases k,
        {
            proof {
                let upper: u64 = if k < 64 {
                    y >> k
                } else {
                    0
                };
                let here: u64 = y >> ((k - 1) as u32);
                let steps: nat = (self.bits - k) as nat;
                lemma_halving(y, k);
                assert(gf_mul_steps(x, here >> 1, self.bits, steps) == gf_mul_steps(
                    x,
                    upper,
                    self.bits,
                    steps,
                ));
                lemma_steps_times_x(x, here >> 1, self.bits, steps);
                lemma_xor(x, times_x(acc, self.bits), 0);
            }
            k = k - 1;
            acc = self.times_x(acc);
            if (y >> k) & 1 == 1 {
                acc = acc ^ x;
            }
        }
        proof {
            lemma_halving(y, 0);
        }
        acc
    }

    /// The product of two elements.
    pub fn mul(&self, a: u64, b: u64) -> (r: u64)
        requires
            self.wf(),
        ensures
            r == gf_mul(a, b, self.spec_bits()),
            in_field(r, self.spec_bits()),
    {
        proof {
            lemma_mul_in_field(a, b, self.bits);
        }
        if self.implementation == 0 {
            self.mul_ascending(a, b)
        } else {
            self.mul_descending(a, b)
        }
    }

    /// The sum of two elements.
    pub fn add(&self, a: u64, b: u64) -> (r: u64)
        ensures
            r == a ^ b,
    {
        a ^ b
    }

    /// The square of an element.
    pub fn sqr(&self, a: u64) -> (r: u64)
        requires
            self.wf(),
        ensures
            r == gf_mul(a, a, self.spec_bits()),
            r == gf_pow(a, 2, self.spec_bits()),
            in_field(r, self.spec_bits()),
    {
        proof {
            lemma_pow_small(a, self.bits);
        }
        self.mul(a, a)
    }

    /// The power of an element with the exponent `e`.
    pub fn pow(&self, a: u64, e: u64) -> (r: u64)
        requires
            self.wf(),
        ensures
            r == gf_pow(a, e as nat, self.spec_bits()),
            in_field(r, self.spec_bits()),
    {
        let ghost bits = self.bits;
        let mut result: u64 = 1;
        let mut base: u64 = a & self.mask;
        let mut rest: u64 = e;
        proof {
            lemma_mask(1, 1, bits);
            lemma_pow_truncates(a, e as nat, bits);
            lemma_pow_in_field(base, e as nat, bits);
            lemma_mul_unit(gf_pow(base, e as nat, bits), bits);
            lemma_mask(gf_pow(base, e as nat, bits), 1, bits);
        }
        while rest > 0
            invariant
                self.wf(),
                bits == self.bits,
                in_field(result, bits),
                gf_mul(result, gf_pow(base, rest as nat, bits), bits) == gf_pow(
                    a,
                    e as nat,
                    bits,
                ),
            decreases rest,
        {
            proof {
                let q: nat = (rest / 2) as nat;
                let square = gf_mul(base, base, bits);
                let high = gf_pow(square, q, bits);
                lemma_halving(rest, 1);
                lemma_pow_small(base, bits);
                lemma_pow_mul(base, 2, q, bits);
                assert(gf_pow(base, 2 * q, bits) == high);
                lemma_pow_in_field(square, q, bits);
                lemma_mask(high, high, bits);
                lemma_mul_unit(high, bits);
                if rest % 2 == 1 {
                    // result * (high * base) = (result * base) * high
                    lemma_pow_add(base, 2 * q, 1, bits);
                    lemma_mul_truncates_right(high, base, bits);
                    lemma_mul_commutative(high, base, bits);
                    lemma_mul_associative(result, base, high, bits);
                } else {
                    lemma_pow_add(base, 2 * q, 0, bits);
                }
            }
            if rest & 1 == 1 {
                result = self.mul(result, base);
            }
            base = self.mul(base, base);
            rest = rest >> 1;
        }
        proof {
            lemma_mul_unit(result, bits);
            lemma_mask(result, result, bits);
        }
        result
    }

    /// The inverse of an element, where it has one. In a field that
    /// [`Field::certify`] confirms, every element other than zero has one.
    pub fn inv(&self, a: u64) -> (r: Option<u64>)
        requires
            self.wf(),
        ensures
            r == gf_inv(a, self.spec_bits()),
            r matches Some(b) ==> in_field(b, self.spec_bits()) && gf_mul(a, b, self.spec_bits())
                == 1,
    {
        proof {
            lemma_mask(1, 1, self.bits);
        }
        let candidate: u64 = self.pow(a, self.mask - 1);
        if self.mul(a, candidate) == 1 {
            Some(candidate)
        } else {
            None
        }
    }
}

/// A product does not change when its second operand is truncated.
proof fn lemma_mul_truncates_right(a: u64, b: u64, bits: u32)
    requires
        1 <= bits <= 64,
    ensures
        gf_mul(a, b & low_mask(bits), bits) == gf_mul(a, b, bits),
{
    lemma_mask(b, a, bits);
    lemma_mask(b & low_mask(bits), a, bits);
}

} // verus!
