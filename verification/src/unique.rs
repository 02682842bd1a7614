//! A sketch has one decoding at most.
//!
//! Two sets of at most `capacity` elements with the same sketch are the same
//! set. This is what makes the decoding of a sketch the set that was
//! sketched, and it is where the field has to be a field: the proof needs
//! that a product of elements other than zero is not zero. The statements of
//! this module take that as a hypothesis, [`no_zero_divisors`];
//! [`Field::certify`](crate::field::Field::certify) establishes it.

use crate::field::{gf_mul, gf_pow, in_field, lemma_mask, lemma_mul_in_field, lemma_xor};
use crate::locator::{coefficient, horner};
use crate::ring::{
    lemma_mul_associative, lemma_mul_commutative, lemma_mul_distributive, lemma_mul_unit,
    lemma_pow_add, lemma_pow_small, lemma_square_of_sum, lemma_xor_swap,
};
use crate::sums::{
    element_sketch, held, holds, lemma_contains_push, lemma_holds_concat, lemma_holds_distinct,
    lemma_sketch_of_concat, lemma_sketch_of_held, lemma_sketch_of_len, lemma_xor_seq_self,
    sketch_of, zeros,
};
use vstd::prelude::*;
use vstd::seq_lib::lemma_no_dup_in_concat;

verus! {

/// Whether `GF(2^bits)` is free of zero divisors: the product of two elements
/// other than zero is not zero.
pub open spec fn no_zero_divisors(bits: u32) -> bool {
    forall|x: u64, y: u64|
        in_field(x, bits) && in_field(y, bits) && x != 0 && y != 0 ==> #[trigger] gf_mul(
            x,
            y,
            bits,
        ) != 0
}

/// The power sum of the given order of a run of elements.
pub open spec fn power_total(u: Seq<u64>, order: nat, bits: u32) -> u64
    decreases u.len(),
{
    if u.len() == 0 {
        0
    } else {
        power_total(u.drop_last(), order, bits) ^ gf_pow(u.last(), order, bits)
    }
}

/// The terms of a sketch are the power sums of odd order of its elements.
pub proof fn lemma_sketch_terms(u: Seq<u64>, k: int, bits: u32, capacity: nat)
    requires
        0 <= k < capacity,
    ensures
        sketch_of(u, bits, capacity)[k] == power_total(u, (2 * k + 1) as nat, bits),
    decreases u.len(),
{
    if u.len() > 0 {
        lemma_sketch_terms(u.drop_last(), k, bits, capacity);
        lemma_sketch_of_len(u.drop_last(), bits, capacity);
        assert(element_sketch(u.last(), bits, capacity)[k] == gf_pow(
            u.last(),
            (2 * k + 1) as nat,
            bits,
        ));
    }
}

/// The power sum of an even order is the square of the power sum of half the
/// order.
pub proof fn lemma_power_total_even(u: Seq<u64>, order: nat, bits: u32)
    requires
        1 <= bits <= 64,
    ensures
        power_total(u, 2 * order, bits) == gf_mul(
            power_total(u, order, bits),
            power_total(u, order, bits),
            bits,
        ),
    decreases u.len(),
{
    if u.len() == 0 {
        lemma_mul_unit(0, bits);
    } else {
        let front = power_total(u.drop_last(), order, bits);
        let last = gf_pow(u.last(), order, bits);
        lemma_power_total_even(u.drop_last(), order, bits);
        lemma_square_of_sum(front, last, bits);
        lemma_pow_add(u.last(), order, order, bits);
    }
}

/// Where the sketch of a run of elements is the sketch of nothing, the power
/// sums of all orders from one to twice the capacity are zero.
pub proof fn lemma_power_totals_vanish(u: Seq<u64>, order: nat, bits: u32, capacity: nat)
    requires
        1 <= bits <= 64,
        sketch_of(u, bits, capacity) == zeros(capacity),
        1 <= order <= 2 * capacity,
    ensures
        power_total(u, order, bits) == 0,
    decreases order,
{
    if order % 2 == 1 {
        let k = (order - 1) / 2;
        lemma_sketch_terms(u, k as int, bits, capacity);
        assert(zeros(capacity)[k as int] == 0);
    } else {
        let half = order / 2;
        lemma_power_totals_vanish(u, half, bits, capacity);
        lemma_power_total_even(u, half, bits);
        lemma_mul_unit(0, bits);
    }
}

/// The product of the polynomial `p` and `x - r`. Coefficients are listed
/// from the highest power down.
pub open spec fn times_linear(p: Seq<u64>, r: u64, bits: u32) -> Seq<u64> {
    Seq::new(p.len() + 1, |i: int| coefficient(p, i) ^ gf_mul(r, coefficient(p, i - 1), bits))
}

/// The polynomial with the leading coefficient one that has the given roots.
pub open spec fn product_of(roots: Seq<u64>, bits: u32) -> Seq<u64>
    decreases roots.len(),
{
    if roots.len() == 0 {
        seq![1u64]
    } else {
        times_linear(product_of(roots.drop_last(), bits), roots.last(), bits)
    }
}

/// The product of the differences between `y` and each of the given values.
pub open spec fn differences(roots: Seq<u64>, y: u64, bits: u32) -> u64
    decreases roots.len(),
{
    if roots.len() == 0 {
        1
    } else {
        gf_mul(differences(roots.drop_last(), y, bits), y ^ roots.last(), bits)
    }
}

/// The polynomial with the given roots has one coefficient more than roots.
pub proof fn lemma_product_len(roots: Seq<u64>, bits: u32)
    ensures
        product_of(roots, bits).len() == roots.len() + 1,
    decreases roots.len(),
{
    if roots.len() > 0 {
        lemma_product_len(roots.drop_last(), bits);
    }
}

/// Adding to the constant term of a polynomial adds to each of its values.
pub proof fn lemma_horner_constant(s: Seq<u64>, v: u64, y: u64, bits: u32)
    requires
        s.len() >= 1,
    ensures
        horner(s.drop_last().push(s.last() ^ v), y, bits) == horner(s, y, bits) ^ v,
{
    let t = s.drop_last().push(s.last() ^ v);
    assert(t.drop_last() =~= s.drop_last());
    lemma_xor(gf_mul(horner(s.drop_last(), y, bits), y, bits), s.last(), v);
}

/// The value of a product with `x - r` is the product of the values.
pub proof fn lemma_times_linear_value(p: Seq<u64>, r: u64, y: u64, bits: u32)
    requires
        1 <= bits <= 64,
    ensures
        horner(times_linear(p, r, bits), y, bits) == gf_mul(horner(p, y, bits), y ^ r, bits),
    decreases p.len(),
{
    let q = times_linear(p, r, bits);
    lemma_mul_unit(r, bits);
    lemma_mul_unit(y, bits);
    lemma_mul_unit(y ^ r, bits);
    lemma_xor(0, 0, 0);
    if p.len() == 0 {
        assert(q.drop_last() =~= Seq::<u64>::empty());
        assert(horner(q.drop_last(), y, bits) == 0);
        assert(q.last() == 0);
    } else {
        let m = p.len() as int;
        let front = p.drop_last();
        let qf = times_linear(front, r, bits);
        let pl = p.last();
        let hf = horner(front, y, bits);
        lemma_times_linear_value(front, r, y, bits);
        // The first coefficients of q are those of qf, but for the last of them.
        let shifted = gf_mul(r, coefficient(p, m - 2), bits);
        assert(qf.last() == 0 ^ shifted);
        assert(q[m - 1] == pl ^ shifted);
        lemma_xor(shifted, pl, 0);
        lemma_xor(pl, shifted, 0);
        assert(q.drop_last() =~= qf.drop_last().push(qf.last() ^ pl));
        lemma_horner_constant(qf, pl, y, bits);
        let low = gf_mul(r, pl, bits);
        assert(q.last() == 0 ^ low);
        lemma_xor(low, 0, 0);
        // horner(q) = (hf (y + r) + pl) y + r pl
        let a = gf_mul(hf, y ^ r, bits);
        assert(horner(q, y, bits) == gf_mul(a ^ pl, y, bits) ^ low);
        lemma_mul_distributive(y, a, pl, bits);
        // horner(p) (y + r) = (hf y + pl) (y + r)
        let b = gf_mul(hf, y, bits);
        assert(horner(p, y, bits) == b ^ pl);
        lemma_mul_distributive(y ^ r, b, pl, bits);
        lemma_mul_distributive(pl, y, r, bits);
        lemma_mul_commutative(r, pl, bits);
        // (hf (y + r)) y = (hf y) (y + r)
        lemma_mul_associative(hf, y ^ r, y, bits);
        lemma_mul_commutative(y ^ r, y, bits);
        lemma_mul_associative(hf, y, y ^ r, bits);
        assert(gf_mul(a, y, bits) == gf_mul(b, y ^ r, bits));
        lemma_xor(gf_mul(a, y, bits), gf_mul(pl, y, bits), low);
        assert(gf_mul(a ^ pl, y, bits) == gf_mul(a, y, bits) ^ gf_mul(pl, y, bits));
        assert(gf_mul(b ^ pl, y ^ r, bits) == gf_mul(b, y ^ r, bits) ^ gf_mul(pl, y ^ r, bits));
        assert(gf_mul(pl, y ^ r, bits) == gf_mul(pl, y, bits) ^ low);
        assert(horner(q, y, bits) == gf_mul(horner(p, y, bits), y ^ r, bits));
    }
}

/// The value of the polynomial with the given roots is the product of the
/// differences to its roots.
pub proof fn lemma_product_value(roots: Seq<u64>, y: u64, bits: u32)
    requires
        1 <= bits <= 64,
    ensures
        horner(product_of(roots, bits), y, bits) == differences(roots, y, bits),
    decreases roots.len(),
{
    if roots.len() == 0 {
        let one = seq![1u64];
        assert(one.drop_last() =~= Seq::<u64>::empty());
        assert(horner(one.drop_last(), y, bits) == 0);
        lemma_mul_unit(y, bits);
        lemma_xor(1, 0, 0);
    } else {
        lemma_product_value(roots.drop_last(), y, bits);
        lemma_times_linear_value(product_of(roots.drop_last(), bits), roots.last(), y, bits);
    }
}

/// The product of the differences to values of which one is `y` is zero.
pub proof fn lemma_differences_at_root(roots: Seq<u64>, y: u64, bits: u32)
    requires
        1 <= bits <= 64,
        roots.contains(y),
    ensures
        differences(roots, y, bits) == 0,
    decreases roots.len(),
{
    let front = roots.drop_last();
    lemma_mul_unit(differences(front, y, bits), bits);
    lemma_mul_unit(y ^ roots.last(), bits);
    if roots.last() == y {
        lemma_xor(y, 0, 0);
    } else {
        let j = choose|j: int| 0 <= j < roots.len() && roots[j] == y;
        assert(front[j] == y);
        lemma_differences_at_root(front, y, bits);
    }
}

/// In a field, the product of the differences to values other than `y` is not
/// zero.
pub proof fn lemma_differences_off_roots(roots: Seq<u64>, y: u64, bits: u32)
    requires
        1 <= bits <= 64,
        no_zero_divisors(bits),
        in_field(y, bits),
        forall|i: int| 0 <= i < roots.len() ==> in_field(#[trigger] roots[i], bits) && roots[i] != y,
    ensures
        differences(roots, y, bits) != 0,
        in_field(differences(roots, y, bits), bits),
    decreases roots.len(),
{
    if roots.len() == 0 {
        lemma_mask(1, 1, bits);
    } else {
        let front = roots.drop_last();
        let last = roots.last();
        assert forall|i: int| 0 <= i < front.len() implies in_field(#[trigger] front[i], bits)
            && front[i] != y by {
            assert(front[i] == roots[i]);
        }
        lemma_differences_off_roots(front, y, bits);
        assert(in_field(last, bits) && last != y);
        lemma_mask(y, last, bits);
        lemma_xor(y, last, 0);
        lemma_xor(last, 0, 0);
        assert(y ^ last != 0);
        assert(in_field(y ^ last, bits));
        lemma_mul_in_field(differences(front, y, bits), y ^ last, bits);
    }
}

/// The sum of the products of each coefficient of `f` with a power sum of
/// `u`: the last coefficient with the power sum of order `shift`, the one
/// before with the next order, and so on.
pub open spec fn weighted(f: Seq<u64>, u: Seq<u64>, shift: nat, bits: u32) -> u64
    decreases f.len(),
{
    if f.len() == 0 {
        0
    } else {
        weighted(f.drop_last(), u, shift + 1, bits) ^ gf_mul(
            f.last(),
            power_total(u, shift, bits),
            bits,
        )
    }
}

/// The sum over the elements `x` of `u` of `x^shift` times the value of `f`
/// at `x`.
pub open spec fn values_total(f: Seq<u64>, u: Seq<u64>, shift: nat, bits: u32) -> u64
    decreases u.len(),
{
    if u.len() == 0 {
        0
    } else {
        values_total(f, u.drop_last(), shift, bits) ^ gf_mul(
            gf_pow(u.last(), shift, bits),
            horner(f, u.last(), bits),
            bits,
        )
    }
}

/// Where the power sums vanish, so does their weighted sum.
pub proof fn lemma_weighted_vanishes(f: Seq<u64>, u: Seq<u64>, shift: nat, bits: u32)
    requires
        1 <= bits <= 64,
        forall|j: nat| shift <= j < shift + f.len() ==> power_total(u, j, bits) == 0,
    ensures
        weighted(f, u, shift, bits) == 0,
    decreases f.len(),
{
    if f.len() > 0 {
        lemma_weighted_vanishes(f.drop_last(), u, shift + 1, bits);
        assert(power_total(u, shift, bits) == 0);
        lemma_mul_unit(f.last(), bits);
        lemma_xor(0, 0, 0);
    }
}

/// The weighted sum of the power sums is additive in the elements.
pub proof fn lemma_weighted_push(f: Seq<u64>, u: Seq<u64>, z: u64, shift: nat, bits: u32)
    requires
        1 <= bits <= 64,
    ensures
        weighted(f, u.push(z), shift, bits) == weighted(f, u, shift, bits) ^ weighted(
            f,
            seq![z],
            shift,
            bits,
        ),
    decreases f.len(),
{
    if f.len() == 0 {
        lemma_xor(0, 0, 0);
    } else {
        let front = f.drop_last();
        let pu = power_total(u, shift, bits);
        let pz = gf_pow(z, shift, bits);
        lemma_weighted_push(front, u, z, shift + 1, bits);
        assert(u.push(z).drop_last() =~= u);
        assert(power_total(u.push(z), shift, bits) == pu ^ pz);
        let single = seq![z];
        assert(single.drop_last() =~= Seq::<u64>::empty());
        assert(power_total(single.drop_last(), shift, bits) == 0);
        lemma_xor(pz, 0, 0);
        assert(power_total(single, shift, bits) == pz);
        lemma_mul_distributive(f.last(), pu, pz, bits);
        lemma_xor_swap(
            weighted(front, u, shift + 1, bits),
            weighted(front, single, shift + 1, bits),
            gf_mul(f.last(), pu, bits),
            gf_mul(f.last(), pz, bits),
        );
    }
}

/// The weighted sum of the powers of one element is a power of the element
/// times the value of the polynomial at the element.
pub proof fn lemma_weighted_single(f: Seq<u64>, z: u64, shift: nat, bits: u32)
    requires
        1 <= bits <= 64,
    ensures
        weighted(f, seq![z], shift, bits) == gf_mul(
            gf_pow(z, shift, bits),
            horner(f, z, bits),
            bits,
        ),
    decreases f.len(),
{
    let pz = gf_pow(z, shift, bits);
    if f.len() == 0 {
        lemma_mul_unit(pz, bits);
    } else {
        let front = f.drop_last();
        let fl = f.last();
        let hf = horner(front, z, bits);
        let single = seq![z];
        lemma_weighted_single(front, z, shift + 1, bits);
        assert(single.drop_last() =~= Seq::<u64>::empty());
        assert(power_total(single.drop_last(), shift, bits) == 0);
        lemma_xor(pz, 0, 0);
        assert(power_total(single, shift, bits) == pz);
        assert(gf_pow(z, shift + 1, bits) == gf_mul(pz, z, bits));
        // (pz z) hf = pz (hf z)
        lemma_mul_associative(pz, z, hf, bits);
        lemma_mul_commutative(z, hf, bits);
        lemma_mul_commutative(fl, pz, bits);
        lemma_mul_distributive(pz, gf_mul(hf, z, bits), fl, bits);
    }
}

/// The weighted sum of the power sums is the sum of the values.
pub proof fn lemma_weighted_is_values_total(f: Seq<u64>, u: Seq<u64>, shift: nat, bits: u32)
    requires
        1 <= bits <= 64,
    ensures
        weighted(f, u, shift, bits) == values_total(f, u, shift, bits),
    decreases u.len(),
{
    if u.len() == 0 {
        assert forall|j: nat| shift <= j < shift + f.len() implies power_total(u, j, bits)
            == 0 by {}
        lemma_weighted_vanishes(f, u, shift, bits);
    } else {
        lemma_weighted_is_values_total(f, u.drop_last(), shift, bits);
        assert(u.drop_last().push(u.last()) =~= u);
        lemma_weighted_push(f, u.drop_last(), u.last(), shift, bits);
        lemma_weighted_single(f, u.last(), shift, bits);
    }
}

/// The sum of the values of a polynomial over its roots is zero.
pub proof fn lemma_values_total_of_roots(f: Seq<u64>, w: Seq<u64>, shift: nat, bits: u32)
    requires
        1 <= bits <= 64,
        forall|i: int| 0 <= i < w.len() ==> horner(f, #[trigger] w[i], bits) == 0,
    ensures
        values_total(f, w, shift, bits) == 0,
    decreases w.len(),
{
    if w.len() > 0 {
        let front = w.drop_last();
        assert forall|i: int| 0 <= i < front.len() implies horner(f, #[trigger] front[i], bits)
            == 0 by {
            assert(front[i] == w[i]);
        }
        lemma_values_total_of_roots(f, front, shift, bits);
        assert(horner(f, w[w.len() - 1], bits) == 0);
        lemma_mul_unit(gf_pow(w.last(), shift, bits), bits);
        lemma_xor(0, 0, 0);
    }
}

/// Whether a run lists field elements other than zero, each once.
pub open spec fn distinct_elements(u: Seq<u64>, bits: u32) -> bool {
    &&& u.no_duplicates()
    &&& forall|i: int| 0 <= i < u.len() ==> #[trigger] u[i] != 0 && in_field(u[i], bits)
}

/// In a field, elements with the sketch of nothing, each listed once and no
/// more of them than twice the capacity, are no elements at all.
pub proof fn lemma_nothing_has_the_sketch_of_nothing(u: Seq<u64>, bits: u32, capacity: nat)
    requires
        1 <= bits <= 64,
        no_zero_divisors(bits),
        distinct_elements(u, bits),
        u.len() <= 2 * capacity,
        sketch_of(u, bits, capacity) == zeros(capacity),
    ensures
        u.len() == 0,
{
    if u.len() > 0 {
        let z = u.last();
        let roots = u.drop_last();
        let f = product_of(roots, bits);
        lemma_product_len(roots, bits);
        assert forall|j: nat| 1 <= j < 1 + f.len() implies power_total(u, j, bits) == 0 by {
            lemma_power_totals_vanish(u, j, bits, capacity);
        }
        lemma_weighted_vanishes(f, u, 1, bits);
        lemma_weighted_is_values_total(f, u, 1, bits);
        assert forall|i: int| 0 <= i < roots.len() implies horner(f, #[trigger] roots[i], bits)
            == 0 by {
            assert(roots.contains(roots[i]));
            lemma_product_value(roots, roots[i], bits);
            lemma_differences_at_root(roots, roots[i], bits);
        }
        lemma_values_total_of_roots(f, roots, 1, bits);
        // What is left of the sum is the term of z, and it is not zero.
        assert(u[u.len() - 1] != 0 && in_field(u[u.len() - 1], bits));
        assert forall|i: int| 0 <= i < roots.len() implies in_field(#[trigger] roots[i], bits)
            && roots[i] != z by {
            assert(roots[i] == u[i]);
            assert(u[i] != 0 && in_field(u[i], bits));
        }
        lemma_product_value(roots, z, bits);
        lemma_differences_off_roots(roots, z, bits);
        lemma_pow_small(z, bits);
        lemma_mask(z, z, bits);
        let term = gf_mul(gf_pow(z, 1, bits), horner(f, z, bits), bits);
        lemma_xor(term, 0, 0);
        assert(term != 0);
        assert(values_total(f, u, 1, bits) == 0 ^ term);
        assert(false);
    }
}

/// The elements of `a` that are not in `b`, in the order of `a`.
pub open spec fn only_in(a: Seq<u64>, b: Seq<u64>) -> Seq<u64>
    decreases a.len(),
{
    if a.len() == 0 {
        Seq::empty()
    } else if b.contains(a.last()) {
        only_in(a.drop_last(), b)
    } else {
        only_in(a.drop_last(), b).push(a.last())
    }
}

/// What `only_in` lists.
pub proof fn lemma_only_in(a: Seq<u64>, b: Seq<u64>)
    requires
        a.no_duplicates(),
    ensures
        forall|x: u64| #[trigger] only_in(a, b).contains(x) <==> a.contains(x) && !b.contains(x),
        only_in(a, b).no_duplicates(),
        only_in(a, b).len() <= a.len(),
    decreases a.len(),
{
    let r = only_in(a, b);
    if a.len() > 0 {
        let front = a.drop_last();
        let last = a.last();
        let rf = only_in(front, b);
        lemma_only_in(front, b);
        assert forall|x: u64| #[trigger] r.contains(x) <==> a.contains(x) && !b.contains(x) by {
            assert(front.push(last) =~= a);
            lemma_contains_push(front, last, x);
            lemma_contains_push(rf, last, x);
        }
        if !b.contains(last) {
            assert(!front.contains(last)) by {
                if front.contains(last) {
                    let j = choose|j: int| 0 <= j < front.len() && front[j] == last;
                    assert(a[j] == a[a.len() - 1]);
                }
            }
            assert(!rf.contains(last));
            assert forall|p: int, q: int| 0 <= p < r.len() && 0 <= q < r.len() && p != q implies r[p]
                != r[q] by {
                if p < rf.len() {
                    assert(rf.contains(rf[p]));
                }
                if q < rf.len() {
                    assert(rf.contains(rf[q]));
                }
            }
        }
    }
}

/// In a field, two sets of at most `capacity` elements with the same sketch
/// are the same set.
pub proof fn lemma_same_sketch_same_set(a: Seq<u64>, b: Seq<u64>, bits: u32, capacity: nat)
    requires
        1 <= bits <= 64,
        no_zero_divisors(bits),
        distinct_elements(a, bits),
        distinct_elements(b, bits),
        a.len() <= capacity,
        b.len() <= capacity,
        sketch_of(a, bits, capacity) == sketch_of(b, bits, capacity),
    ensures
        a.to_set() == b.to_set(),
{
    let left = only_in(a, b);
    let right = only_in(b, a);
    let u = left + right;
    lemma_only_in(a, b);
    lemma_only_in(b, a);
    // u lists the elements of exactly one of a and b, each once.
    assert forall|i: int, j: int| 0 <= i < left.len() && 0 <= j < right.len() implies left[i]
        != right[j] by {
        assert(left.contains(left[i]));
        assert(right.contains(right[j]));
    }
    lemma_no_dup_in_concat(left, right);
    assert forall|i: int| 0 <= i < u.len() implies #[trigger] u[i] != 0 && in_field(u[i], bits) by {
        if i < left.len() {
            assert(left.contains(left[i]));
            let j = choose|j: int| 0 <= j < a.len() && a[j] == left[i];
            assert(a[j] != 0 && in_field(a[j], bits));
        } else {
            let k = i - left.len();
            assert(right.contains(right[k]));
            let j = choose|j: int| 0 <= j < b.len() && b[j] == right[k];
            assert(b[j] != 0 && in_field(b[j], bits));
        }
    }
    // Its sketch is the sum of the two sketches: the sketch of nothing.
    assert forall|x: u64| held(u).contains(x) == held(a + b).contains(x) by {
        lemma_holds_concat(left, right, x);
        lemma_holds_distinct(left, x);
        lemma_holds_distinct(right, x);
        lemma_holds_concat(a, b, x);
        lemma_holds_distinct(a, x);
        lemma_holds_distinct(b, x);
        assert(held(u).contains(x) == holds(u, x));
        assert(held(a + b).contains(x) == holds(a + b, x));
    }
    assert(held(u) =~= held(a + b));
    lemma_sketch_of_held(u, a + b, bits, capacity);
    lemma_sketch_of_concat(a, b, bits, capacity);
    lemma_xor_seq_self(sketch_of(a, bits, capacity));
    lemma_sketch_of_len(a, bits, capacity);
    lemma_nothing_has_the_sketch_of_nothing(u, bits, capacity);
    // So a and b have the same elements.
    assert(left.len() == 0 && right.len() == 0);
    assert forall|x: u64| a.contains(x) == b.contains(x) by {
        if a.contains(x) && !b.contains(x) {
            assert(left.contains(x));
        }
        if b.contains(x) && !a.contains(x) {
            assert(right.contains(x));
        }
    }
    assert(a.to_set() =~= b.to_set());
}

} // verus!
