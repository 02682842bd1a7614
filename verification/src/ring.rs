//! The algebraic laws of the product in `GF(2^bits)`.
//!
//! With the exclusive or as the sum, the product [`gf_mul`] makes the elements
//! of `GF(2^bits)` a commutative ring with unit `1`. The laws are proved from
//! the definition of the product alone; none rests on the choice of the
//! modulus.

use crate::field::{
    gf_mul, gf_mul_steps, gf_pow, in_field, lemma_mask, lemma_mul_in_field, lemma_times_x,
    lemma_xor, low_mask, times_x,
};
use vstd::prelude::*;

verus! {

/// The polynomial made of the `k` lowest bits of a value is taken with this
/// mask.
pub open spec fn low_bits(k: u32) -> u64 {
    if k == 0 {
        0
    } else {
        u64::MAX >> ((64 - k) as u32)
    }
}

/// Sums of four terms can be regrouped.
pub proof fn lemma_xor_swap(a: u64, b: u64, c: u64, d: u64)
    by (bit_vector)
    ensures
        (a ^ b) ^ (c ^ d) == (a ^ c) ^ (b ^ d),
        (a ^ b) ^ (a ^ c) == b ^ c,
        (a ^ b) ^ (b ^ c) == a ^ c,
        a ^ (b ^ c) == b ^ (a ^ c),
{
}

/// The lowest bit and the other bits of a sum are the sums of those of its
/// terms.
proof fn lemma_low_bit_of_xor(b: u64, c: u64)
    by (bit_vector)
    ensures
        (b ^ c) >> 1 == (b >> 1) ^ (c >> 1),
        ((b ^ c) & 1 == 1) <==> ((b & 1 == 1) != (c & 1 == 1)),
        0u64 >> 1 == 0,
        0u64 & 1 == 0,
{
}

/// One step of the product of a monomial and the lowest bits of a value.
proof fn lemma_monomial_step(a: u64, j: u32, k: u32, bits: u32)
    by (bit_vector)
    requires
        1 <= bits <= 64,
        1 <= k,
        j + k <= bits,
    ensures
        k >= 2 ==> times_x(1u64 << j, bits) == 1u64 << ((j + 1) as u32),
        ({
            let rest = ((a >> 1) & low_bits((k - 1) as u32)) << ((j + 1) as u32);
            (if a & 1 == 1 {
                (1u64 << j) ^ rest
            } else {
                rest
            }) == (a & low_bits(k)) << j
        }),
        k == 1 ==> ((a >> 1) & low_bits((k - 1) as u32)) << ((j + 1) as u32) == 0,
{
}

/// The product of a monomial and no bits at all, and the monomial of degree
/// zero.
proof fn lemma_monomial_base(a: u64, j: u32, bits: u32)
    by (bit_vector)
    requires
        1 <= bits <= 64,
    ensures
        (a & low_bits(0)) << j == 0,
        (a & low_bits(bits)) << 0u32 == a & low_mask(bits),
        1u64 << 0u32 == 1,
        1u64 & low_mask(bits) == 1,
        0u64 & low_mask(bits) == 0,
{
}

/// The product of zero and anything is zero.
pub proof fn lemma_steps_zero_left(b: u64, bits: u32, k: nat)
    requires
        1 <= bits <= 64,
    ensures
        gf_mul_steps(0, b, bits, k) == 0,
    decreases k,
{
    if k > 0 {
        lemma_times_x(0, 0, bits);
        lemma_steps_zero_left(b >> 1, bits, (k - 1) as nat);
        lemma_xor(0, 0, 0);
    }
}

/// The product of anything and zero is zero.
pub proof fn lemma_steps_zero_right(a: u64, bits: u32, k: nat)
    ensures
        gf_mul_steps(a, 0, bits, k) == 0,
    decreases k,
{
    if k > 0 {
        lemma_low_bit_of_xor(0, 0);
        lemma_steps_zero_right(times_x(a, bits), bits, (k - 1) as nat);
    }
}

/// The product distributes over a sum on the left.
pub proof fn lemma_steps_linear_left(a: u64, c: u64, b: u64, bits: u32, k: nat)
    requires
        1 <= bits <= 64,
    ensures
        gf_mul_steps(a ^ c, b, bits, k) == gf_mul_steps(a, b, bits, k) ^ gf_mul_steps(
            c,
            b,
            bits,
            k,
        ),
    decreases k,
{
    if k == 0 {
        lemma_xor(0, 0, 0);
    } else {
        let xa = times_x(a, bits);
        let xc = times_x(c, bits);
        lemma_times_x(a, c, bits);
        lemma_steps_linear_left(xa, xc, b >> 1, bits, (k - 1) as nat);
        let ra = gf_mul_steps(xa, b >> 1, bits, (k - 1) as nat);
        let rc = gf_mul_steps(xc, b >> 1, bits, (k - 1) as nat);
        lemma_xor_swap(a, c, ra, rc);
    }
}

/// The product distributes over a sum on the right.
pub proof fn lemma_steps_linear_right(a: u64, b: u64, c: u64, bits: u32, k: nat)
    ensures
        gf_mul_steps(a, b ^ c, bits, k) == gf_mul_steps(a, b, bits, k) ^ gf_mul_steps(
            a,
            c,
            bits,
            k,
        ),
    decreases k,
{
    if k == 0 {
        lemma_xor(0, 0, 0);
    } else {
        let xa = times_x(a, bits);
        lemma_low_bit_of_xor(b, c);
        lemma_steps_linear_right(xa, b >> 1, c >> 1, bits, (k - 1) as nat);
        let rb = gf_mul_steps(xa, b >> 1, bits, (k - 1) as nat);
        let rc = gf_mul_steps(xa, c >> 1, bits, (k - 1) as nat);
        lemma_xor_swap(a, rb, a, rc);
        lemma_xor_swap(a, rb, rc, 0);
        lemma_xor(a, rb, rc);
        lemma_xor(rb, rc, 0);
    }
}

/// Multiplying one factor by `x` multiplies the product by `x`.
pub proof fn lemma_steps_times_x(a: u64, b: u64, bits: u32, k: nat)
    requires
        1 <= bits <= 64,
    ensures
        gf_mul_steps(times_x(a, bits), b, bits, k) == times_x(gf_mul_steps(a, b, bits, k), bits),
    decreases k,
{
    if k == 0 {
        lemma_times_x(0, 0, bits);
    } else {
        let xa = times_x(a, bits);
        lemma_steps_times_x(xa, b >> 1, bits, (k - 1) as nat);
        let rest = gf_mul_steps(xa, b >> 1, bits, (k - 1) as nat);
        lemma_times_x(a, rest, bits);
    }
}

/// Two multipliers can be applied in either order.
pub proof fn lemma_steps_exchange(v: u64, a: u64, ka: nat, b: u64, kb: nat, bits: u32)
    requires
        1 <= bits <= 64,
    ensures
        gf_mul_steps(gf_mul_steps(v, a, bits, ka), b, bits, kb) == gf_mul_steps(
            gf_mul_steps(v, b, bits, kb),
            a,
            bits,
            ka,
        ),
    decreases kb,
{
    if kb == 0 {
        lemma_steps_zero_left(a, bits, ka);
    } else {
        let w = gf_mul_steps(v, a, bits, ka);
        let xv = times_x(v, bits);
        let inner = gf_mul_steps(xv, b >> 1, bits, (kb - 1) as nat);
        // x * (v * a) = (x * v) * a
        lemma_steps_times_x(v, a, bits, ka);
        lemma_steps_exchange(xv, a, ka, b >> 1, (kb - 1) as nat, bits);
        if b & 1 == 1 {
            lemma_steps_linear_left(v, inner, a, bits, ka);
        }
    }
}

/// The product of the monomial `x^j` and the `k` lowest bits of `a` is those
/// bits shifted up by `j`, as long as nothing reaches the modulus.
proof fn lemma_steps_monomial(a: u64, j: u32, k: u32, bits: u32)
    requires
        1 <= bits <= 64,
        j + k <= bits,
    ensures
        gf_mul_steps(1u64 << j, a, bits, k as nat) == (a & low_bits(k)) << j,
    decreases k,
{
    if k == 0 {
        lemma_monomial_base(a, j, bits);
    } else {
        let next: u32 = (j + 1) as u32;
        let fewer: u32 = (k - 1) as u32;
        let rest = gf_mul_steps(times_x(1u64 << j, bits), a >> 1, bits, (k - 1) as nat);
        lemma_monomial_step(a, j, k, bits);
        if k >= 2 {
            lemma_steps_monomial(a >> 1, next, fewer, bits);
            assert(fewer as nat == (k - 1) as nat);
            assert(rest == ((a >> 1) & low_bits(fewer)) << next);
        } else {
            assert(rest == 0);
            assert(rest == ((a >> 1) & low_bits(fewer)) << next);
        }
    }
}

/// One is the unit of the product.
pub proof fn lemma_steps_unit(a: u64, bits: u32)
    requires
        1 <= bits <= 64,
    ensures
        gf_mul_steps(1, a, bits, bits as nat) == a & low_mask(bits),
{
    lemma_steps_monomial(a, 0, bits, bits);
    lemma_monomial_base(a, 0, bits);
}

/// The product is commutative.
pub proof fn lemma_mul_commutative(a: u64, b: u64, bits: u32)
    requires
        1 <= bits <= 64,
    ensures
        gf_mul(a, b, bits) == gf_mul(b, a, bits),
{
    let m = low_mask(bits);
    let n = bits as nat;
    let ra = a & m;
    let rb = b & m;
    lemma_mask(a, b, bits);
    lemma_mask(b, a, bits);
    lemma_mask(ra, rb, bits);
    lemma_mask(rb, ra, bits);
    lemma_steps_unit(ra, bits);
    lemma_steps_unit(rb, bits);
    assert(gf_mul_steps(1, ra, bits, n) == ra);
    assert(gf_mul_steps(1, rb, bits, n) == rb);
    lemma_steps_exchange(1, ra, n, rb, n, bits);
}

/// The product is associative.
pub proof fn lemma_mul_associative(a: u64, b: u64, c: u64, bits: u32)
    requires
        1 <= bits <= 64,
    ensures
        gf_mul(gf_mul(a, b, bits), c, bits) == gf_mul(a, gf_mul(b, c, bits), bits),
{
    let m = low_mask(bits);
    let n = bits as nat;
    let ra = a & m;
    let rb = b & m;
    let rc = c & m;
    let ab = gf_mul(a, b, bits);
    let bc = gf_mul(b, c, bits);
    lemma_mul_in_field(a, b, bits);
    lemma_mul_in_field(b, c, bits);
    lemma_mask(ab, bc, bits);
    lemma_mask(bc, ab, bits);
    assert(gf_mul(ab, c, bits) == gf_mul_steps(gf_mul_steps(ra, rb, bits, n), rc, bits, n));
    // a * (b * c) = (b * c) * a = (b * a) * c = (a * b) * c
    lemma_mul_commutative(a, bc, bits);
    assert(gf_mul(bc, a, bits) == gf_mul_steps(gf_mul_steps(rb, rc, bits, n), ra, bits, n));
    lemma_steps_exchange(rb, rc, n, ra, n, bits);
    lemma_mul_commutative(b, a, bits);
}

/// The product distributes over the sum.
pub proof fn lemma_mul_distributive(a: u64, b: u64, c: u64, bits: u32)
    requires
        1 <= bits <= 64,
    ensures
        gf_mul(a, b ^ c, bits) == gf_mul(a, b, bits) ^ gf_mul(a, c, bits),
        gf_mul(b ^ c, a, bits) == gf_mul(b, a, bits) ^ gf_mul(c, a, bits),
{
    let m = low_mask(bits);
    lemma_mask(b, c, bits);
    lemma_steps_linear_right(a & m, b & m, c & m, bits, bits as nat);
    lemma_steps_linear_left(b & m, c & m, a & m, bits, bits as nat);
}

/// One is the unit of the product, and the product with zero is zero.
pub proof fn lemma_mul_unit(a: u64, bits: u32)
    requires
        1 <= bits <= 64,
    ensures
        gf_mul(a, 1, bits) == a & low_mask(bits),
        gf_mul(1, a, bits) == a & low_mask(bits),
        gf_mul(a, 0, bits) == 0,
        gf_mul(0, a, bits) == 0,
{
    let m = low_mask(bits);
    lemma_monomial_base(a, 0, bits);
    lemma_mask(a, a, bits);
    lemma_mask(a & m, a & m, bits);
    lemma_steps_unit(a & m, bits);
    lemma_mul_commutative(a, 1, bits);
    lemma_steps_zero_left(a & m, bits, bits as nat);
    lemma_steps_zero_right(a & m, bits, bits as nat);
}

/// A product does not change when an operand is truncated to the field.
pub proof fn lemma_mul_truncates(a: u64, b: u64, bits: u32)
    requires
        1 <= bits <= 64,
    ensures
        gf_mul(a & low_mask(bits), b, bits) == gf_mul(a, b, bits),
        gf_mul(a, b & low_mask(bits), bits) == gf_mul(a, b, bits),
{
    lemma_mask(a, b, bits);
    lemma_mask(b, a, bits);
    lemma_mask(a & low_mask(bits), b & low_mask(bits), bits);
    lemma_mask(b & low_mask(bits), a & low_mask(bits), bits);
}

/// Every power is an element of the field.
pub proof fn lemma_pow_in_field(a: u64, k: nat, bits: u32)
    requires
        1 <= bits <= 64,
    ensures
        in_field(gf_pow(a, k, bits), bits),
{
    if k == 0 {
        lemma_mask(1, 1, bits);
    } else {
        lemma_mul_in_field(gf_pow(a, (k - 1) as nat, bits), a, bits);
    }
}

/// The first power of an element is the element, the second its square.
pub proof fn lemma_pow_small(a: u64, bits: u32)
    requires
        1 <= bits <= 64,
    ensures
        gf_pow(a, 1, bits) == a & low_mask(bits),
        gf_pow(a, 2, bits) == gf_mul(a, a, bits),
{
    lemma_mul_unit(a, bits);
    assert(gf_pow(a, 1, bits) == gf_mul(gf_pow(a, 0, bits), a, bits));
    assert(gf_pow(a, 2, bits) == gf_mul(gf_pow(a, 1, bits), a, bits));
    lemma_mul_truncates(a, a, bits);
}

/// The powers of zero, from the first on, are zero.
pub proof fn lemma_pow_of_zero(k: nat, bits: u32)
    requires
        1 <= bits <= 64,
        k >= 1,
    ensures
        gf_pow(0, k, bits) == 0,
{
    lemma_mul_unit(gf_pow(0, (k - 1) as nat, bits), bits);
}

/// The powers of an element are those of its truncation to the field.
pub proof fn lemma_pow_truncates(a: u64, k: nat, bits: u32)
    requires
        1 <= bits <= 64,
    ensures
        gf_pow(a & low_mask(bits), k, bits) == gf_pow(a, k, bits),
    decreases k,
{
    if k > 0 {
        lemma_pow_truncates(a, (k - 1) as nat, bits);
        lemma_mul_truncates(gf_pow(a, (k - 1) as nat, bits), a, bits);
    }
}

/// Exponents add up when powers are multiplied.
pub proof fn lemma_pow_add(a: u64, m: nat, n: nat, bits: u32)
    requires
        1 <= bits <= 64,
    ensures
        gf_pow(a, m + n, bits) == gf_mul(gf_pow(a, m, bits), gf_pow(a, n, bits), bits),
    decreases n,
{
    let pm = gf_pow(a, m, bits);
    if n == 0 {
        lemma_pow_in_field(a, m, bits);
        lemma_mul_unit(pm, bits);
        lemma_mask(pm, pm, bits);
    } else {
        let pn = gf_pow(a, (n - 1) as nat, bits);
        lemma_pow_add(a, m, (n - 1) as nat, bits);
        assert(gf_pow(a, m + n, bits) == gf_mul(gf_pow(a, (m + n - 1) as nat, bits), a, bits));
        lemma_mul_associative(pm, pn, a, bits);
    }
}

/// Exponents multiply when a power is raised to a power.
pub proof fn lemma_pow_mul(a: u64, m: nat, n: nat, bits: u32)
    requires
        1 <= bits <= 64,
    ensures
        gf_pow(gf_pow(a, m, bits), n, bits) == gf_pow(a, m * n, bits),
    decreases n,
{
    if n == 0 {
        assert(m * n == 0);
    } else {
        lemma_pow_mul(a, m, (n - 1) as nat, bits);
        assert(m * (n - 1) + m == m * n) by (nonlinear_arith);
        assert(m * (n - 1) >= 0) by (nonlinear_arith)
            requires
                n >= 1,
                m >= 0,
        ;
        lemma_pow_add(a, (m * (n - 1)) as nat, m, bits);
    }
}

/// The square of a sum is the sum of the squares.
pub proof fn lemma_square_of_sum(a: u64, b: u64, bits: u32)
    requires
        1 <= bits <= 64,
    ensures
        gf_mul(a ^ b, a ^ b, bits) == gf_mul(a, a, bits) ^ gf_mul(b, b, bits),
{
    let aa = gf_mul(a, a, bits);
    let ab = gf_mul(a, b, bits);
    let bb = gf_mul(b, b, bits);
    lemma_mul_distributive(a ^ b, a, b, bits);
    lemma_mul_distributive(a, a, b, bits);
    lemma_mul_distributive(b, a, b, bits);
    lemma_mul_commutative(a, b, bits);
    // (aa ^ ab) ^ (ab ^ bb) = aa ^ bb
    lemma_xor_swap(aa, ab, bb, 0);
}

} // verus!
