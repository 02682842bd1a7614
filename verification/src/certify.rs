//! A check that `GF(2^bits)` is a field.
//!
//! The arithmetic of [`field`](crate::field) is that of a field if the
//! modulus is irreducible. [`Field::certify`] checks this for the modulus of
//! one field, and what it finds is proved to imply that every element other
//! than zero has an inverse. It checks two things.
//!
//! * Raising to the power `2^bits` leaves the polynomial `x` as it is. Then it
//!   leaves every element as it is, since raising to a power of two respects
//!   sums and products.
//! * Only zero and one are their own squares. Squaring is linear, so this is
//!   a question of linear algebra: it holds if the images of `x`, `x^2`, ..
//!   under the map that takes `a` to `a^2 - a` are linearly independent, and
//!   that they are is shown by a dual basis.
//!
//! From the two, for `a` other than zero: `a^(2^bits - 1)` is its own square
//! and its product with `a` is `a`, so it is one.

use crate::field::{
    gf_inv, gf_mul, gf_mul_steps, gf_pow, in_field, lemma_mask, lemma_mul_in_field, lemma_xor,
    low_mask, times_x, Field,
};
use crate::ring::{
    lemma_mul_associative, lemma_mul_commutative, lemma_mul_truncates, lemma_mul_unit,
    lemma_pow_add, lemma_pow_small, lemma_square_of_sum, lemma_steps_unit,
    lemma_steps_zero_right, lemma_xor_swap, low_bits,
};
use crate::unique::no_zero_divisors;
use vstd::prelude::*;

verus! {

/// Whether every element of `GF(2^bits)` other than zero has an inverse.
pub open spec fn is_field(bits: u32) -> bool {
    forall|a: u64| in_field(a, bits) && a != 0 ==> (#[trigger] gf_inv(a, bits)) is Some
}

/// The power of `a` with the exponent `2^k`: `a` squared `k` times.
pub open spec fn frobenius(a: u64, k: nat, bits: u32) -> u64
    decreases k,
{
    if k == 0 {
        a & low_mask(bits)
    } else {
        let r = frobenius(a, (k - 1) as nat, bits);
        gf_mul(r, r, bits)
    }
}

/// Whether raising to the power `2^bits` leaves every element of `GF(2^bits)`
/// as it is.
pub open spec fn frobenius_fixes(bits: u32) -> bool {
    forall|a: u64| in_field(a, bits) ==> #[trigger] frobenius(a, bits as nat, bits) == a
}

/// The power of two with the exponent `k`.
pub open spec fn two_to(k: nat) -> nat
    decreases k,
{
    if k == 0 {
        1
    } else {
        2 * two_to((k - 1) as nat)
    }
}

/// Whether only zero and one are their own squares in `GF(2^bits)`.
pub open spec fn trivial_idempotents(bits: u32) -> bool {
    forall|a: u64| in_field(a, bits) && #[trigger] gf_mul(a, a, bits) == a ==> a <= 1
}

/// Facts about small values and about the largest elements of fields of
/// neighbouring widths.
proof fn lemma_small_values(v: u64, bits: u32)
    by (bit_vector)
    requires
        1 <= bits <= 64,
    ensures
        2u64 & 1 == 0,
        2u64 >> 1 == 1,
        1u64 & 1 == 1,
        1u64 >> 1 == 0,
        bits >= 2 ==> 2u64 & low_mask(bits) == 2,
        times_x(v & low_mask(bits), bits) == times_x(v, bits),
        bits >= 2 ==> low_mask(bits) == 2 * low_mask((bits - 1) as u32) + 1,
        low_mask(1) == 1,
        bits == 1 && v <= low_mask(bits) && v != 0 ==> v == 1,
{
}

/// The number of elements of the field: one more than the largest.
pub proof fn lemma_two_to(bits: u32)
    requires
        1 <= bits <= 64,
    ensures
        two_to(bits as nat) == low_mask(bits) + 1,
    decreases bits,
{
    lemma_small_values(0, bits);
    if bits >= 2 {
        lemma_two_to((bits - 1) as u32);
    } else {
        assert(two_to(1) == 2 * two_to(0));
    }
}

/// Squaring respects products.
pub proof fn lemma_square_of_product(p: u64, q: u64, bits: u32)
    requires
        1 <= bits <= 64,
    ensures
        gf_mul(gf_mul(p, q, bits), gf_mul(p, q, bits), bits) == gf_mul(
            gf_mul(p, p, bits),
            gf_mul(q, q, bits),
            bits,
        ),
{
    let pq = gf_mul(p, q, bits);
    let qq = gf_mul(q, q, bits);
    // (pq)(pq) = p(q(pq)) = p((qp)q) = p((pq)q) = p(p(qq)) = (pp)(qq)
    lemma_mul_associative(p, q, pq, bits);
    lemma_mul_associative(q, p, q, bits);
    lemma_mul_commutative(p, q, bits);
    lemma_mul_associative(p, q, q, bits);
    lemma_mul_associative(p, p, qq, bits);
}

/// Raising to a power of two respects sums.
pub proof fn lemma_frobenius_of_sum(a: u64, b: u64, k: nat, bits: u32)
    requires
        1 <= bits <= 64,
    ensures
        frobenius(a ^ b, k, bits) == frobenius(a, k, bits) ^ frobenius(b, k, bits),
    decreases k,
{
    if k == 0 {
        lemma_mask(a, b, bits);
    } else {
        lemma_frobenius_of_sum(a, b, (k - 1) as nat, bits);
        lemma_square_of_sum(
            frobenius(a, (k - 1) as nat, bits),
            frobenius(b, (k - 1) as nat, bits),
            bits,
        );
    }
}

/// Raising to a power of two respects products.
pub proof fn lemma_frobenius_of_product(a: u64, b: u64, k: nat, bits: u32)
    requires
        1 <= bits <= 64,
    ensures
        frobenius(gf_mul(a, b, bits), k, bits) == gf_mul(
            frobenius(a, k, bits),
            frobenius(b, k, bits),
            bits,
        ),
    decreases k,
{
    if k == 0 {
        lemma_mul_in_field(a, b, bits);
        lemma_mask(gf_mul(a, b, bits), 0, bits);
        lemma_mul_truncates(a, b, bits);
        lemma_mul_truncates(a & low_mask(bits), b, bits);
    } else {
        lemma_frobenius_of_product(a, b, (k - 1) as nat, bits);
        lemma_square_of_product(
            frobenius(a, (k - 1) as nat, bits),
            frobenius(b, (k - 1) as nat, bits),
            bits,
        );
    }
}

/// Zero and one are their own powers.
pub proof fn lemma_frobenius_of_zero_and_one(k: nat, bits: u32)
    requires
        1 <= bits <= 64,
    ensures
        frobenius(0, k, bits) == 0,
        frobenius(1, k, bits) == 1,
    decreases k,
{
    lemma_mask(0, 0, bits);
    lemma_mask(1, 1, bits);
    if k > 0 {
        lemma_frobenius_of_zero_and_one((k - 1) as nat, bits);
        lemma_mul_unit(0, bits);
        lemma_mul_unit(1, bits);
    }
}

/// Squaring `k` times is raising to the power `2^k`.
pub proof fn lemma_frobenius_is_power(a: u64, k: nat, bits: u32)
    requires
        1 <= bits <= 64,
    ensures
        frobenius(a, k, bits) == gf_pow(a, two_to(k), bits),
    decreases k,
{
    if k == 0 {
        lemma_pow_small(a, bits);
    } else {
        lemma_frobenius_is_power(a, (k - 1) as nat, bits);
        lemma_pow_add(a, two_to((k - 1) as nat), two_to((k - 1) as nat), bits);
    }
}

/// The product with the polynomial `x` is the product with the element two.
pub proof fn lemma_times_x_is_product(v: u64, bits: u32)
    requires
        2 <= bits <= 64,
    ensures
        times_x(v, bits) == gf_mul(v, 2, bits),
{
    let m = low_mask(bits);
    let vm = v & m;
    let xv = times_x(vm, bits);
    lemma_small_values(v, bits);
    let inner = gf_mul_steps(xv, 1, bits, (bits - 1) as nat);
    assert(gf_mul_steps(vm, 2, bits, bits as nat) == inner);
    lemma_steps_zero_right(times_x(xv, bits), bits, (bits - 2) as nat);
    assert(inner == xv ^ gf_mul_steps(times_x(xv, bits), 0, bits, (bits - 2) as nat));
    lemma_xor(xv, 0, 0);
}

/// Where raising to the power `2^k` leaves `x` as it is, it goes through
/// products with polynomials in `x`.
proof fn lemma_frobenius_through_steps(v: u64, b: u64, steps: nat, k: nat, bits: u32)
    requires
        2 <= bits <= 64,
        frobenius(2, k, bits) == 2,
    ensures
        frobenius(gf_mul_steps(v, b, bits, steps), k, bits) == gf_mul_steps(
            frobenius(v, k, bits),
            b,
            bits,
            steps,
        ),
    decreases steps,
{
    let hv = frobenius(v, k, bits);
    if steps == 0 {
        lemma_frobenius_of_zero_and_one(k, bits);
    } else {
        let xv = times_x(v, bits);
        let rest = gf_mul_steps(xv, b >> 1, bits, (steps - 1) as nat);
        lemma_frobenius_through_steps(xv, b >> 1, (steps - 1) as nat, k, bits);
        // The power of x v is x times the power of v.
        lemma_times_x_is_product(v, bits);
        lemma_frobenius_of_product(v, 2, k, bits);
        lemma_times_x_is_product(hv, bits);
        assert(frobenius(xv, k, bits) == times_x(hv, bits));
        if b & 1 == 1 {
            lemma_frobenius_of_sum(v, rest, k, bits);
        }
    }
}

/// Where raising to the power `2^bits` leaves `x` as it is, it leaves every
/// element as it is.
pub proof fn lemma_frobenius_fixes_all(a: u64, bits: u32)
    requires
        2 <= bits <= 64,
        frobenius(2, bits as nat, bits) == 2,
        in_field(a, bits),
    ensures
        frobenius(a, bits as nat, bits) == a,
        gf_pow(a, (low_mask(bits) + 1) as nat, bits) == a,
{
    lemma_steps_unit(a, bits);
    lemma_mask(a, a, bits);
    lemma_frobenius_through_steps(1, a, bits as nat, bits as nat, bits);
    lemma_frobenius_of_zero_and_one(bits as nat, bits);
    lemma_frobenius_is_power(a, bits as nat, bits);
    lemma_two_to(bits);
}

/// Where raising to the power `2^bits` leaves `x` as it is and only zero and
/// one are their own squares, every element other than zero has an inverse.
pub proof fn lemma_inverse_exists(a: u64, bits: u32)
    requires
        1 <= bits <= 64,
        bits >= 2 ==> frobenius(2, bits as nat, bits) == 2,
        trivial_idempotents(bits),
        in_field(a, bits),
        a != 0,
    ensures
        gf_inv(a, bits) is Some,
{
    let mask = low_mask(bits);
    lemma_mask(a, a, bits);
    lemma_mul_unit(a, bits);
    if bits == 1 {
        lemma_small_values(a, bits);
        assert(gf_pow(a, 0, bits) == 1);
    } else {
        lemma_small_values(a, bits);
        let c = gf_pow(a, (mask - 1) as nat, bits);
        let e = gf_mul(a, c, bits);
        let top = gf_pow(a, mask as nat, bits);
        lemma_frobenius_fixes_all(a, bits);
        // e is the power with the exponent mask, and it is its own square.
        lemma_mul_commutative(a, c, bits);
        assert(top == gf_mul(c, a, bits));
        lemma_pow_add(a, mask as nat, mask as nat, bits);
        lemma_pow_add(a, (mask + 1) as nat, (mask - 1) as nat, bits);
        assert(mask + mask == (mask + 1) + (mask - 1));
        assert(gf_mul(e, e, bits) == e);
        lemma_mul_in_field(a, c, bits);
        assert(e <= 1);
        // e a = a, so e is not zero.
        assert(gf_pow(a, (mask + 1) as nat, bits) == gf_mul(top, a, bits));
    }
}

/// In a field, the product of two elements other than zero is not zero.
pub proof fn lemma_field_has_no_zero_divisors(bits: u32)
    requires
        1 <= bits <= 64,
        is_field(bits),
    ensures
        no_zero_divisors(bits),
{
    assert forall|x: u64, y: u64|
        in_field(x, bits) && in_field(y, bits) && x != 0 && y != 0 implies #[trigger] gf_mul(
        x,
        y,
        bits,
    ) != 0 by {
        let xi = gf_inv(x, bits).unwrap();
        assert(gf_inv(x, bits) is Some);
        // y = (xi x) y = xi (x y)
        lemma_mul_commutative(x, xi, bits);
        lemma_mul_associative(xi, x, y, bits);
        lemma_mul_unit(y, bits);
        lemma_mul_unit(xi, bits);
        lemma_mask(y, y, bits);
    }
}

/// Whether the number of ones of `v` is odd, as zero or one.
pub open spec fn parity(v: u64) -> u64 {
    let a = v ^ (v >> 32);
    let b = a ^ (a >> 16);
    let c = b ^ (b >> 8);
    let d = c ^ (c >> 4);
    let e = d ^ (d >> 2);
    let f = e ^ (e >> 1);
    f & 1
}

/// The difference between the square of `a` and `a`. It is zero where `a` is
/// its own square.
pub open spec fn defect(a: u64, bits: u32) -> u64 {
    gf_mul(a, a, bits) ^ a
}

/// The defect of the monomial `x^j`.
pub open spec fn column(j: int, bits: u32) -> u64 {
    defect(1u64 << (j as u32), bits)
}

/// Bit `i` of `a`, as zero or one.
pub open spec fn bit_at(a: u64, i: int) -> u64 {
    (a >> (i as u32)) & 1
}

/// The sum of the defects of the monomials `x^j` at which `a` has a one, for
/// `j` below `k`.
pub open spec fn combination(a: u64, k: nat, bits: u32) -> u64
    decreases k,
{
    if k == 0 {
        0
    } else if bit_at(a, k - 1) == 1 {
        combination(a, (k - 1) as nat, bits) ^ column(k - 1, bits)
    } else {
        combination(a, (k - 1) as nat, bits)
    }
}

/// Whether `w` is dual to the defects of the monomials from `x` on: the
/// parity of what `w[i]` and the defect of `x^j` have in common is one for
/// `i == j` and zero otherwise.
pub open spec fn is_dual(w: Seq<u64>, bits: u32) -> bool {
    &&& w.len() == bits
    &&& forall|i: int, j: int|
        1 <= i < bits && 1 <= j < bits ==> parity(#[trigger] w[i] & #[trigger] column(j, bits))
            == (if i == j {
            1u64
        } else {
            0u64
        })
}

/// The parity of what two values have in common is linear in either.
proof fn lemma_parity(w: u64, u: u64, v: u64)
    by (bit_vector)
    ensures
        parity(w & (u ^ v)) == parity(w & u) ^ parity(w & v),
        parity(w & 0) == 0,
        w & 0 == 0,
        parity(w) <= 1,
        0u64 ^ 1 == 1,
        1u64 ^ 0 == 1,
{
}

/// The `k` lowest bits of a value are the `k - 1` lowest bits and bit `k - 1`.
proof fn lemma_bit_split(a: u64, k: u32)
    by (bit_vector)
    requires
        1 <= k <= 64,
    ensures
        a & low_bits(k) == (a & low_bits((k - 1) as u32)) ^ (((a >> ((k - 1) as u32)) & 1) << ((k
            - 1) as u32)),
        (a >> ((k - 1) as u32)) & 1 == 1 ==> ((a >> ((k - 1) as u32)) & 1) << ((k - 1) as u32)
            == 1u64 << ((k - 1) as u32),
        (a >> ((k - 1) as u32)) & 1 != 1 ==> ((a >> ((k - 1) as u32)) & 1) << ((k - 1) as u32) == 0,
        (a >> ((k - 1) as u32)) & 1 != 1 ==> (a >> ((k - 1) as u32)) & 1 == 0,
        a & low_bits(0) == 0,
        a & low_bits(1) <= 1,
        low_bits(k) == low_mask(k),
{
}

/// The defect respects sums.
pub proof fn lemma_defect_of_sum(u: u64, v: u64, bits: u32)
    requires
        1 <= bits <= 64,
    ensures
        defect(u ^ v, bits) == defect(u, bits) ^ defect(v, bits),
        defect(0, bits) == 0,
{
    lemma_square_of_sum(u, v, bits);
    lemma_xor_swap(gf_mul(u, u, bits), gf_mul(v, v, bits), u, v);
    lemma_mul_unit(0, bits);
    lemma_xor(0, 0, 0);
}

/// The defect of the `k` lowest bits of `a` is the sum of the defects of
/// their monomials.
proof fn lemma_defect_is_combination(a: u64, k: u32, bits: u32)
    requires
        1 <= bits <= 64,
        k <= 64,
    ensures
        defect(a & low_bits(k), bits) == combination(a, k as nat, bits),
    decreases k,
{
    if k == 0 {
        lemma_bit_split(a, 1);
        lemma_defect_of_sum(0, 0, bits);
    } else {
        let lower = a & low_bits((k - 1) as u32);
        let bit = ((a >> ((k - 1) as u32)) & 1) << ((k - 1) as u32);
        lemma_bit_split(a, k);
        lemma_defect_is_combination(a, (k - 1) as u32, bits);
        lemma_defect_of_sum(lower, bit, bits);
        lemma_xor(defect(lower, bits), 0, 0);
    }
}

/// What a dual vector and a sum of defects have in common tells one bit.
proof fn lemma_dual_reads_bit(w: Seq<u64>, a: u64, i: int, k: u32, bits: u32)
    requires
        1 <= bits <= 64,
        is_dual(w, bits),
        1 <= i < bits,
        k <= bits,
    ensures
        parity(w[i] & combination(a, k as nat, bits)) == (if i < k {
            bit_at(a, i)
        } else {
            0
        }),
    decreases k,
{
    if k == 0 {
        lemma_parity(w[i], 0, 0);
    } else {
        let before = combination(a, (k - 1) as nat, bits);
        let col = column(k - 1, bits);
        lemma_dual_reads_bit(w, a, i, (k - 1) as u32, bits);
        lemma_bit_split(a, k);
        lemma_parity(w[i], before, col);
        lemma_xor(parity(w[i] & before), 0, 0);
        if k - 1 == 0 {
            // The defect of one is zero.
            lemma_column_zero(bits);
        } else {
            assert(parity(w[i] & column(k - 1, bits)) == (if i == k - 1 {
                1u64
            } else {
                0u64
            }));
        }
    }
}

/// The monomial of degree zero is one.
proof fn lemma_one_shifted()
    by (bit_vector)
    ensures
        1u64 << 0u32 == 1,
{
}

/// The defect of one is zero.
proof fn lemma_column_zero(bits: u32)
    requires
        1 <= bits <= 64,
    ensures
        column(0, bits) == 0,
{
    lemma_one_shifted();
    lemma_mul_unit(1, bits);
    lemma_mask(1, 1, bits);
    lemma_xor(1, 0, 0);
}

/// A value whose bits from the second on are zero is zero or one.
proof fn lemma_low_bits_small(a: u64, k: u32)
    requires
        1 <= k <= 64,
        forall|i: int| 1 <= i < k ==> bit_at(a, i) == 0,
    ensures
        a & low_bits(k) <= 1,
    decreases k,
{
    if k == 1 {
        lemma_bit_split(a, 1);
    } else {
        lemma_low_bits_small(a, (k - 1) as u32);
        lemma_bit_split(a, k);
        assert(bit_at(a, k - 1) == 0);
        lemma_xor(a & low_bits((k - 1) as u32), 0, 0);
    }
}

/// Where the defects of the monomials from `x` on have a dual, only zero and
/// one are their own squares.
pub proof fn lemma_dual_gives_trivial_idempotents(w: Seq<u64>, bits: u32)
    requires
        1 <= bits <= 64,
        is_dual(w, bits),
    ensures
        trivial_idempotents(bits),
{
    assert forall|a: u64| in_field(a, bits) && #[trigger] gf_mul(a, a, bits) == a implies a
        <= 1 by {
        lemma_bit_split(a, bits);
        lemma_mask(a, a, bits);
        lemma_xor(a, 0, 0);
        assert(defect(a, bits) == 0);
        lemma_defect_is_combination(a, bits, bits);
        assert forall|i: int| 1 <= i < bits implies bit_at(a, i) == 0 by {
            lemma_dual_reads_bit(w, a, i, bits, bits);
            lemma_parity(w[i], 0, 0);
        }
        lemma_low_bits_small(a, bits);
    }
}

/// Whether the number of ones of `v` is odd, as zero or one.
fn parity_of(v: u64) -> (p: u64)
    ensures
        p == parity(v),
{
    let a: u64 = v ^ (v >> 32);
    let b: u64 = a ^ (a >> 16);
    let c: u64 = b ^ (b >> 8);
    let d: u64 = c ^ (c >> 4);
    let e: u64 = d ^ (d >> 2);
    let f: u64 = e ^ (e >> 1);
    f & 1
}

/// The defects of the monomials `1`, `x`, .. of the field.
fn columns(field: &Field) -> (cols: Vec<u64>)
    requires
        field.wf(),
    ensures
        cols@.len() == field.spec_bits(),
        forall|j: int| 0 <= j < cols@.len() ==> #[trigger] cols@[j] == column(j, field.spec_bits()),
{
    let bits: u32 = field.bits();
    let mut cols: Vec<u64> = Vec::new();
    let mut j: u32 = 0;
    while j < bits
        invariant
            field.wf(),
            bits == field.spec_bits(),
            j <= bits,
            cols@.len() == j,
            forall|i: int| 0 <= i < j ==> #[trigger] cols@[i] == column(i, bits),
        decreases bits - j,
    {
        let monomial: u64 = 1u64 << j;
        let square: u64 = field.sqr(monomial);
        cols.push(square ^ monomial);
        j = j + 1;
    }
    cols
}

/// Tells whether only zero and one are their own squares, from the defects
/// of the monomials: `Some` if so, `None` if not.
///
/// Elimination looks for vectors that are dual to the defects from that of
/// `x` on, and `Some` holds the vectors found. If they are dual, as
/// [`check_dual`] tells, the answer is known. `None` is said at once where
/// the elimination finds the defects linearly dependent: it has found a sum
/// of monomials, other than one, with the defect zero, and this element is
/// its own square. Should neither be so, every element is tried.
fn dual_candidate(field: &Field, cols: &Vec<u64>, bits: u32) -> (r: Option<Vec<u64>>)
    requires
        field.wf(),
        bits == field.spec_bits(),
        2 <= bits <= 64,
        cols@.len() == bits,
        forall|j: int| 0 <= j < cols@.len() ==> #[trigger] cols@[j] == column(j, bits),
    ensures
        r is Some <==> trivial_idempotents(bits),
        r matches Some(w) ==> w@.len() == bits,
{
    let n: usize = bits as usize;
    // Row r starts as vector r + 1; its tag tells of which vectors it is the sum.
    let mut rows: Vec<u64> = Vec::new();
    let mut tags: Vec<u64> = Vec::new();
    let mut r: usize = 1;
    while r < n
        invariant
            n == bits,
            2 <= bits <= 64,
            cols@.len() == n,
            1 <= r <= n,
            rows@.len() == r - 1,
            tags@.len() == r - 1,
        decreases n - r,
    {
        rows.push(cols[r]);
        tags.push(1u64 << (r as u32));
        r = r + 1;
    }
    // Elimination: after it, pivot k is a position at which row k alone has a one.
    let mut pivots: Vec<u32> = Vec::new();
    let mut col: u32 = 0;
    while col < bits
        invariant
            n == bits,
            2 <= bits <= 64,
            col <= bits,
            rows@.len() == n - 1,
            tags@.len() == n - 1,
            pivots@.len() <= n - 1,
            forall|k: int| 0 <= k < pivots@.len() ==> #[trigger] pivots@[k] < 64,
        decreases bits - col,
    {
        let rank: usize = pivots.len();
        let mut found: usize = rank;
        while found < n - 1 && (rows[found] >> col) & 1 == 0
            invariant
                rank <= found <= n - 1,
                rows@.len() == n - 1,
                col < 64,
            decreases n - 1 - found,
        {
            found = found + 1;
        }
        if found < n - 1 {
            let row: u64 = rows[found];
            let tag: u64 = tags[found];
            let other_row: u64 = rows[rank];
            let other_tag: u64 = tags[rank];
            rows[found] = other_row;
            tags[found] = other_tag;
            rows[rank] = row;
            tags[rank] = tag;
            let mut q: usize = 0;
            while q < n - 1
                invariant
                    q <= n - 1,
                    rank < n - 1,
                    rows@.len() == n - 1,
                    tags@.len() == n - 1,
                    col < 64,
                decreases n - 1 - q,
            {
                if q != rank && (rows[q] >> col) & 1 == 1 {
                    let reduced_row: u64 = rows[q] ^ row;
                    let reduced_tag: u64 = tags[q] ^ tag;
                    rows[q] = reduced_row;
                    tags[q] = reduced_tag;
                }
                q = q + 1;
            }
            pivots.push(col);
        }
        col = col + 1;
    }
    if pivots.len() != n - 1 {
        // A row that the elimination has brought to zero is the defect of the
        // sum of monomials that its tag tells.
        let mask: u64 = field.mask();
        let mut z: usize = 0;
        while z < n - 1
            invariant
                field.wf(),
                bits == field.spec_bits(),
                mask == low_mask(bits),
                n == bits,
                z <= n - 1,
                rows@.len() == n - 1,
                tags@.len() == n - 1,
            decreases n - 1 - z,
        {
            let a: u64 = tags[z];
            if rows[z] == 0 && a > 1 && a <= mask {
                if field.mul(a, a) == a {
                    assert(in_field(a, bits) && gf_mul(a, a, bits) == a && a > 1);
                    return None;
                }
            }
            z = z + 1;
        }
    }
    // Vector i of the dual has a one at pivot k where row k has vector i in its sum.
    let found: usize = pivots.len();
    let mut w: Vec<u64> = Vec::new();
    let mut i: usize = 0;
    while i < n
        invariant
            n == bits,
            2 <= bits <= 64,
            i <= n,
            w@.len() == i,
            tags@.len() == n - 1,
            found == pivots@.len(),
            found <= n - 1,
            forall|k: int| 0 <= k < pivots@.len() ==> #[trigger] pivots@[k] < 64,
        decreases n - i,
    {
        let mut v: u64 = 0;
        let mut k: usize = 0;
        while k < found
            invariant
                n == bits,
                2 <= bits <= 64,
                i < n,
                k <= found,
                tags@.len() == n - 1,
                found == pivots@.len(),
                found <= n - 1,
                forall|k: int| 0 <= k < pivots@.len() ==> #[trigger] pivots@[k] < 64,
            decreases found - k,
        {
            if (tags[k] >> (i as u32)) & 1 == 1 {
                v = v | (1u64 << pivots[k]);
            }
            k = k + 1;
        }
        w.push(v);
        i = i + 1;
    }
    if check_dual(&w, cols, bits) {
        proof {
            lemma_dual_gives_trivial_idempotents(w@, bits);
        }
        return Some(w);
    }
    if scan_idempotents(field) {
        Some(w)
    } else {
        None
    }
}

/// Whether `w` is dual to the given vectors from the second on.
fn check_dual(w: &Vec<u64>, cols: &Vec<u64>, bits: u32) -> (ok: bool)
    requires
        2 <= bits <= 64,
        w@.len() == bits,
        cols@.len() == bits,
        forall|j: int| 0 <= j < cols@.len() ==> #[trigger] cols@[j] == column(j, bits),
    ensures
        ok <==> is_dual(w@, bits),
{
    let n: usize = bits as usize;
    let mut i: usize = 1;
    while i < n
        invariant
            n == bits,
            1 <= i <= n,
            w@.len() == n,
            cols@.len() == n,
            forall|j: int| 0 <= j < cols@.len() ==> #[trigger] cols@[j] == column(j, bits),
            forall|p: int, q: int|
                1 <= p < i && 1 <= q < n ==> parity(#[trigger] w@[p] & #[trigger] column(q, bits))
                    == (if p == q {
                    1u64
                } else {
                    0u64
                }),
        decreases n - i,
    {
        let mut j: usize = 1;
        while j < n
            invariant
                n == bits,
                1 <= i < n,
                1 <= j <= n,
                w@.len() == n,
                cols@.len() == n,
                forall|j: int| 0 <= j < cols@.len() ==> #[trigger] cols@[j] == column(j, bits),
                forall|q: int|
                    1 <= q < j ==> parity(w@[i as int] & #[trigger] column(q, bits)) == (if i
                        == q {
                        1u64
                    } else {
                        0u64
                    }),
            decreases n - j,
        {
            let expected: u64 = if i == j {
                1
            } else {
                0
            };
            assert(cols@[j as int] == column(j as int, bits));
            if parity_of(w[i] & cols[j]) != expected {
                assert(parity(w@[i as int] & column(j as int, bits)) != expected);
                return false;
            }
            j = j + 1;
        }
        i = i + 1;
    }
    true
}

/// Whether only zero and one are their own squares, by trying every element.
fn scan_idempotents(field: &Field) -> (r: bool)
    requires
        field.wf(),
    ensures
        r <==> trivial_idempotents(field.spec_bits()),
{
    let ghost bits = field.spec_bits();
    let mask: u64 = field.mask();
    let mut i: u128 = 0;
    while i <= mask as u128
        invariant
            field.wf(),
            bits == field.spec_bits(),
            mask == low_mask(bits),
            i <= mask + 1,
            forall|x: u64| x < i && #[trigger] gf_mul(x, x, bits) == x ==> x <= 1,
        decreases mask + 1 - i,
    {
        let a: u64 = i as u64;
        if a > 1 && field.mul(a, a) == a {
            assert(in_field(a, bits) && gf_mul(a, a, bits) == a);
            return false;
        }
        i = i + 1;
    }
    true
}

/// In a field, raising to the power `2^bits` leaves `x` as it is, and only
/// zero and one are their own squares.
pub proof fn lemma_field_passes(bits: u32)
    requires
        1 <= bits <= 64,
        is_field(bits),
    ensures
        bits >= 2 ==> frobenius(2, bits as nat, bits) == 2,
        trivial_idempotents(bits),
{
    let mask = low_mask(bits);
    lemma_small_values(2, bits);
    if bits >= 2 {
        let c = gf_pow(2, (mask - 1) as nat, bits);
        lemma_mask(2, 2, bits);
        assert(in_field(2, bits));
        assert(gf_inv(2, bits) is Some);
        lemma_mul_commutative(2, c, bits);
        assert(gf_pow(2, mask as nat, bits) == gf_mul(c, 2, bits));
        assert(gf_pow(2, (mask + 1) as nat, bits) == gf_mul(gf_pow(2, mask as nat, bits), 2, bits));
        lemma_mul_unit(2, bits);
        lemma_frobenius_is_power(2, bits as nat, bits);
        lemma_two_to(bits);
    }
    assert forall|a: u64| in_field(a, bits) && #[trigger] gf_mul(a, a, bits) == a implies a
        <= 1 by {
        if a != 0 {
            // a = a (a b) = (a a) b = a b = 1
            assert(gf_inv(a, bits) is Some);
            let b = gf_inv(a, bits).unwrap();
            lemma_mul_associative(a, a, b, bits);
            lemma_mul_unit(a, bits);
            lemma_mask(a, a, bits);
        }
    }
}

impl Field {
    /// Tells whether this is the arithmetic of a field: whether the modulus
    /// is irreducible.
    ///
    /// The check is that raising to the power `2^bits` leaves `x` as it is,
    /// and that only zero and one are their own squares.
    pub fn certify(&self) -> (ok: bool)
        requires
            self.wf(),
        ensures
            ok <==> is_field(self.spec_bits()),
            ok ==> no_zero_divisors(self.spec_bits()),
            ok ==> frobenius_fixes(self.spec_bits()),
    {
        let bits: u32 = self.bits();
        if bits == 1 {
            proof {
                assert forall|a: u64| in_field(a, bits) implies #[trigger] frobenius(
                    a,
                    bits as nat,
                    bits,
                ) == a by {
                    lemma_small_values(a, bits);
                    lemma_frobenius_of_zero_and_one(1, bits);
                }
                assert forall|a: u64| in_field(a, bits) && #[trigger] gf_mul(a, a, bits)
                    == a implies a <= 1 by {
                    lemma_small_values(a, bits);
                }
                assert forall|a: u64| in_field(a, bits) && a != 0 implies (#[trigger] gf_inv(
                    a,
                    bits,
                )) is Some by {
                    lemma_inverse_exists(a, bits);
                }
                lemma_field_has_no_zero_divisors(bits);
            }
            return true;
        }
        // Raising to the power 2^bits leaves x as it is.
        let mut t: u64 = 2;
        let mut k: u32 = 0;
        proof {
            lemma_small_values(0, bits);
        }
        while k < bits
            invariant
                self.wf(),
                bits == self.spec_bits(),
                2 <= bits <= 64,
                k <= bits,
                t == frobenius(2, k as nat, bits),
            decreases bits - k,
        {
            t = self.sqr(t);
            k = k + 1;
        }
        if t != 2 {
            proof {
                if is_field(bits) {
                    lemma_field_passes(bits);
                }
            }
            return false;
        }
        // Only zero and one are their own squares.
        let cols: Vec<u64> = columns(self);
        let trivial: bool = dual_candidate(self, &cols, bits).is_some();
        proof {
            if trivial {
                assert forall|a: u64| in_field(a, bits) implies #[trigger] frobenius(
                    a,
                    bits as nat,
                    bits,
                ) == a by {
                    lemma_frobenius_fixes_all(a, bits);
                }
                assert forall|a: u64| in_field(a, bits) && a != 0 implies (#[trigger] gf_inv(
                    a,
                    bits,
                )) is Some by {
                    lemma_inverse_exists(a, bits);
                }
                lemma_field_has_no_zero_divisors(bits);
            } else if is_field(bits) {
                lemma_field_passes(bits);
            }
        }
        trivial
    }
}

} // verus!
