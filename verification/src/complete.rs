//! A sketch of no more elements than its capacity decodes to them.
//!
//! In a field, the locator of the sketch of at most `capacity` elements is,
//! up to a factor, the polynomial with these elements as its roots. So the
//! sketch decodes, and by [`unique`](crate::unique) to nothing but these
//! elements. That the arithmetic is that of a field is what
//! [`Field::certify`](crate::field::Field::certify) checks.

use crate::field::{gf_mul, gf_pow, in_field, lemma_mask, lemma_mul_in_field, lemma_xor};
use crate::locator::{
    all_power_sums, bm_run, coefficient, discrepancy, horner, is_root, locator, power_sum,
};
use crate::ring::{
    lemma_mul_associative, lemma_mul_commutative, lemma_mul_distributive, lemma_mul_unit,
    lemma_xor_swap,
};
use crate::sums::{all_in_field, sketch_of};
use crate::synthesis::{
    holds_on, lemma_discrepancy_prefix, lemma_run_invariant, lemma_run_is_short,
};
use crate::unique::{
    differences, distinct_elements, lemma_differences_at_root, lemma_differences_off_roots,
    lemma_power_total_even, lemma_product_len, lemma_product_value, lemma_sketch_terms,
    lemma_times_linear_value, lemma_values_total_of_roots, lemma_weighted_is_values_total,
    no_zero_divisors, power_total, product_of, times_linear, values_total, weighted,
};
use vstd::prelude::*;

verus! {

/// The power sums of the orders from one to `n` of a run of elements.
pub open spec fn moments(d: Seq<u64>, n: nat, bits: u32) -> Seq<u64> {
    Seq::new(n, |j: int| power_total(d, (j + 1) as nat, bits))
}

/// The power sums that are worked out from a sketch are the power sums of
/// its elements.
pub proof fn lemma_power_sum_of_sketch(d: Seq<u64>, order: nat, bits: u32, capacity: nat)
    requires
        1 <= bits <= 64,
        1 <= order <= 2 * capacity,
    ensures
        power_sum(sketch_of(d, bits, capacity), order, bits) == power_total(d, order, bits),
    decreases order,
{
    if order % 2 == 1 {
        let k = (order - 1) / 2;
        lemma_sketch_terms(d, k as int, bits, capacity);
        crate::sums::lemma_sketch_of_len(d, bits, capacity);
    } else {
        lemma_power_sum_of_sketch(d, order / 2, bits, capacity);
        lemma_power_total_even(d, order / 2, bits);
    }
}

/// All the power sums of a sketch, as the power sums of its elements.
pub proof fn lemma_all_power_sums_of_sketch(d: Seq<u64>, bits: u32, capacity: nat)
    requires
        1 <= bits <= 64,
    ensures
        all_power_sums(sketch_of(d, bits, capacity), bits) == moments(d, 2 * capacity, bits),
{
    let syndromes = sketch_of(d, bits, capacity);
    crate::sums::lemma_sketch_of_len(d, bits, capacity);
    assert forall|j: int| 0 <= j < 2 * capacity implies #[trigger] all_power_sums(syndromes, bits)[j]
        == moments(d, 2 * capacity, bits)[j] by {
        lemma_power_sum_of_sketch(d, (j + 1) as nat, bits, capacity);
    }
    assert(all_power_sums(syndromes, bits) =~= moments(d, 2 * capacity, bits));
}

/// The discrepancy of a recurrence on the power sums of `d` is a weighted sum
/// of power sums, and so a sum over the elements of `d`.
pub proof fn lemma_discrepancy_of_moments(d: Seq<u64>, f: Seq<u64>, k: int, n: nat, bits: u32)
    requires
        1 <= bits <= 64,
        f.len() <= k + 1,
        k < n,
    ensures
        discrepancy(moments(d, n, bits), f, k, bits) == weighted(
            f,
            d,
            (k + 2 - f.len()) as nat,
            bits,
        ),
        discrepancy(moments(d, n, bits), f, k, bits) == values_total(
            f,
            d,
            (k + 2 - f.len()) as nat,
            bits,
        ),
    decreases f.len(),
{
    let s = moments(d, n, bits);
    let shift = (k + 2 - f.len()) as nat;
    if f.len() > 0 {
        let front = f.drop_last();
        lemma_discrepancy_of_moments(d, front, k, n, bits);
        assert forall|i: int| 0 <= i < front.len() implies coefficient(f, i) == coefficient(
            front,
            i,
        ) by {}
        lemma_discrepancy_prefix(s, f, front, k, front.len(), bits);
        assert(coefficient(s, k - (f.len() - 1)) == power_total(d, shift, bits));
        assert(coefficient(f, f.len() - 1) == f.last());
    }
    lemma_weighted_is_values_total(f, d, shift, bits);
}

/// The polynomial with given roots has the leading coefficient one.
pub proof fn lemma_product_leads_with_one(roots: Seq<u64>, bits: u32)
    requires
        1 <= bits <= 64,
    ensures
        product_of(roots, bits).len() == roots.len() + 1,
        product_of(roots, bits)[0] == 1,
    decreases roots.len(),
{
    lemma_product_len(roots, bits);
    if roots.len() > 0 {
        lemma_product_leads_with_one(roots.drop_last(), bits);
        lemma_product_len(roots.drop_last(), bits);
        lemma_mul_unit(roots.last(), bits);
        lemma_xor(1, 0, 0);
    }
}

/// The recurrence whose coefficients are those of the polynomial with the
/// roots `d` holds of the power sums of `d`.
pub proof fn lemma_product_holds(d: Seq<u64>, n: nat, bits: u32)
    requires
        1 <= bits <= 64,
    ensures
        holds_on(moments(d, n, bits), product_of(d, bits), d.len() as int, n as int, bits),
{
    let f = product_of(d, bits);
    lemma_product_len(d, bits);
    assert forall|i: int| 0 <= i < d.len() implies horner(f, #[trigger] d[i], bits) == 0 by {
        assert(d.contains(d[i]));
        lemma_product_value(d, d[i], bits);
        lemma_differences_at_root(d, d[i], bits);
    }
    assert forall|k: int| d.len() <= k < n implies #[trigger] discrepancy(
        moments(d, n, bits),
        f,
        k,
        bits,
    ) == 0 by {
        lemma_discrepancy_of_moments(d, f, k, n, bits);
        lemma_values_total_of_roots(f, d, (k + 2 - f.len()) as nat, bits);
    }
}

/// The product of the polynomial `p` and the polynomial with the roots `w`.
pub open spec fn extended(p: Seq<u64>, w: Seq<u64>, bits: u32) -> Seq<u64>
    decreases w.len(),
{
    if w.len() == 0 {
        p
    } else {
        times_linear(extended(p, w.drop_last(), bits), w.last(), bits)
    }
}

/// The values of a polynomial with field elements as coefficients are field
/// elements.
pub proof fn lemma_horner_in_field(p: Seq<u64>, y: u64, bits: u32)
    requires
        1 <= bits <= 64,
        all_in_field(p, bits),
    ensures
        in_field(horner(p, y, bits), bits),
{
    if p.len() == 0 {
        lemma_mask(0, 0, bits);
    } else {
        let up = gf_mul(horner(p.drop_last(), y, bits), y, bits);
        lemma_mul_in_field(horner(p.drop_last(), y, bits), y, bits);
        assert(in_field(p[p.len() - 1], bits));
        lemma_mask(up, p.last(), bits);
    }
}

/// The value of a product with the polynomial with the roots `w` is the
/// product of the values.
pub proof fn lemma_extended_value(p: Seq<u64>, w: Seq<u64>, y: u64, bits: u32)
    requires
        1 <= bits <= 64,
        all_in_field(p, bits),
    ensures
        horner(extended(p, w, bits), y, bits) == gf_mul(
            horner(p, y, bits),
            differences(w, y, bits),
            bits,
        ),
    decreases w.len(),
{
    let hp = horner(p, y, bits);
    if w.len() == 0 {
        lemma_horner_in_field(p, y, bits);
        lemma_mul_unit(hp, bits);
        lemma_mask(hp, hp, bits);
    } else {
        let front = w.drop_last();
        lemma_extended_value(p, front, y, bits);
        lemma_times_linear_value(extended(p, front, bits), w.last(), y, bits);
        lemma_mul_associative(hp, differences(front, y, bits), y ^ w.last(), bits);
    }
}

/// The sum of the values of a product with `x - r`, from the sums of the
/// values of the other factor.
pub proof fn lemma_values_total_times_linear(
    p: Seq<u64>,
    r: u64,
    u: Seq<u64>,
    shift: nat,
    bits: u32,
)
    requires
        1 <= bits <= 64,
    ensures
        values_total(times_linear(p, r, bits), u, shift, bits) == values_total(
            p,
            u,
            shift + 1,
            bits,
        ) ^ gf_mul(r, values_total(p, u, shift, bits), bits),
    decreases u.len(),
{
    let q = times_linear(p, r, bits);
    if u.len() == 0 {
        lemma_mul_unit(r, bits);
        lemma_xor(0, 0, 0);
    } else {
        let front = u.drop_last();
        let y = u.last();
        let h = horner(p, y, bits);
        let py = gf_pow(y, shift, bits);
        let low = values_total(p, front, shift, bits);
        let high = values_total(p, front, shift + 1, bits);
        lemma_values_total_times_linear(p, r, front, shift, bits);
        lemma_times_linear_value(p, r, y, bits);
        // py (h (y + r)) = (py y) h + r (py h)
        lemma_mul_distributive(h, y, r, bits);
        lemma_mul_distributive(py, gf_mul(h, y, bits), gf_mul(h, r, bits), bits);
        lemma_mul_commutative(h, y, bits);
        lemma_mul_associative(py, y, h, bits);
        assert(gf_pow(y, shift + 1, bits) == gf_mul(py, y, bits));
        lemma_mul_associative(py, h, r, bits);
        lemma_mul_commutative(gf_mul(py, h, bits), r, bits);
        // r (low + py h) = r low + r (py h)
        lemma_mul_distributive(r, low, gf_mul(py, h, bits), bits);
        lemma_xor_swap(
            high,
            gf_mul(r, low, bits),
            gf_mul(gf_mul(py, y, bits), h, bits),
            gf_mul(r, gf_mul(py, h, bits), bits),
        );
    }
}

/// Where the sums of the values of `p` vanish for a range of powers, those of
/// a product of `p` vanish for a range that is shorter by the degree of the
/// other factor.
pub proof fn lemma_extended_vanishes(
    p: Seq<u64>,
    w: Seq<u64>,
    u: Seq<u64>,
    hi: nat,
    shift: nat,
    bits: u32,
)
    requires
        1 <= bits <= 64,
        forall|j: nat| 1 <= j <= hi ==> #[trigger] values_total(p, u, j, bits) == 0,
        1 <= shift,
        shift + w.len() <= hi,
    ensures
        values_total(extended(p, w, bits), u, shift, bits) == 0,
    decreases w.len(),
{
    if w.len() > 0 {
        let front = w.drop_last();
        let e = extended(p, front, bits);
        lemma_extended_vanishes(p, front, u, hi, shift, bits);
        lemma_extended_vanishes(p, front, u, hi, shift + 1, bits);
        lemma_values_total_times_linear(e, w.last(), u, shift, bits);
        lemma_mul_unit(w.last(), bits);
        lemma_xor(0, 0, 0);
    }
}

/// The sum of the values is one term where the polynomial is zero at all
/// elements but one.
pub proof fn lemma_values_total_single(f: Seq<u64>, u: Seq<u64>, t: int, shift: nat, bits: u32)
    requires
        1 <= bits <= 64,
        0 <= t < u.len(),
        forall|i: int| 0 <= i < u.len() && i != t ==> horner(f, #[trigger] u[i], bits) == 0,
    ensures
        values_total(f, u, shift, bits) == gf_mul(
            gf_pow(u[t], shift, bits),
            horner(f, u[t], bits),
            bits,
        ),
    decreases u.len(),
{
    let front = u.drop_last();
    let term = gf_mul(gf_pow(u[t], shift, bits), horner(f, u[t], bits), bits);
    if t == u.len() - 1 {
        assert forall|i: int| 0 <= i < front.len() implies horner(f, #[trigger] front[i], bits)
            == 0 by {
            assert(front[i] == u[i]);
        }
        lemma_values_total_of_roots(f, front, shift, bits);
        lemma_xor(term, 0, 0);
    } else {
        assert forall|i: int| 0 <= i < front.len() && i != t implies horner(
            f,
            #[trigger] front[i],
            bits,
        ) == 0 by {
            assert(front[i] == u[i]);
        }
        assert(front[t] == u[t]);
        lemma_values_total_single(f, front, t, shift, bits);
        assert(horner(f, u[u.len() - 1], bits) == 0);
        lemma_mul_unit(gf_pow(u.last(), shift, bits), bits);
        lemma_xor(term, 0, 0);
    }
}

/// In a field, a recurrence that holds of enough power sums of `d` has a
/// polynomial that is zero at each element of `d`.
pub proof fn lemma_element_is_root(c: Seq<u64>, d: Seq<u64>, t: int, hi: nat, bits: u32)
    requires
        1 <= bits <= 64,
        no_zero_divisors(bits),
        all_in_field(c, bits),
        distinct_elements(d, bits),
        0 <= t < d.len(),
        d.len() <= hi,
        forall|j: nat| 1 <= j <= hi ==> #[trigger] values_total(c, d, j, bits) == 0,
    ensures
        horner(c, d[t], bits) == 0,
{
    let y = d[t];
    let w = d.remove(t);
    let g = extended(c, w, bits);
    lemma_extended_vanishes(c, w, d, hi, 1, bits);
    // g is zero at every element but y.
    assert forall|i: int| 0 <= i < d.len() && i != t implies horner(g, #[trigger] d[i], bits)
        == 0 by {
        if i < t {
            assert(w[i] == d[i]);
        } else {
            assert(w[i - 1] == d[i]);
        }
        assert(w.contains(d[i]));
        lemma_extended_value(c, w, d[i], bits);
        lemma_differences_at_root(w, d[i], bits);
        lemma_mul_unit(horner(c, d[i], bits), bits);
    }
    lemma_values_total_single(g, d, t, 1, bits);
    // What is left is y times the value of c at y times a product of differences.
    assert(y != 0 && in_field(y, bits));
    assert forall|i: int| 0 <= i < w.len() implies in_field(#[trigger] w[i], bits) && w[i]
        != y by {
        if i < t {
            assert(w[i] == d[i]);
        } else {
            assert(w[i] == d[i + 1]);
        }
        assert(d[i] != 0 && in_field(d[i], bits));
        assert(d[i + 1] != 0 && in_field(d[i + 1], bits));
    }
    lemma_differences_off_roots(w, y, bits);
    lemma_extended_value(c, w, y, bits);
    lemma_horner_in_field(c, y, bits);
    crate::ring::lemma_pow_small(y, bits);
    lemma_mask(y, y, bits);
    let hc = horner(c, y, bits);
    let dw = differences(w, y, bits);
    lemma_mul_in_field(hc, dw, bits);
    if hc != 0 {
        assert(gf_mul(hc, dw, bits) != 0);
        assert(gf_mul(y, gf_mul(hc, dw, bits), bits) != 0);
        assert(false);
    }
}

/// The quotient of the polynomial `p` by `x - r`: its coefficients are the
/// values that Horner's rule passes through.
pub open spec fn quotient(p: Seq<u64>, r: u64, bits: u32) -> Seq<u64> {
    Seq::new((p.len() - 1) as nat, |i: int| horner(p.take(i + 1), r, bits))
}

/// What is left of the polynomial `p` when it is divided by `x - r` for each
/// `r` of `w`, from the last to the first.
pub open spec fn cofactor(p: Seq<u64>, w: Seq<u64>, bits: u32) -> Seq<u64>
    decreases w.len(),
{
    if w.len() == 0 {
        p
    } else {
        cofactor(quotient(p, w.last(), bits), w.drop_last(), bits)
    }
}

/// A polynomial that is zero at `r` is the product of its quotient and
/// `x - r`.
pub proof fn lemma_quotient(p: Seq<u64>, r: u64, bits: u32)
    requires
        1 <= bits <= 64,
        p.len() >= 1,
        horner(p, r, bits) == 0,
    ensures
        times_linear(quotient(p, r, bits), r, bits) == p,
        p.len() >= 2 ==> quotient(p, r, bits)[0] == p[0],
        all_in_field(p, bits) ==> all_in_field(quotient(p, r, bits), bits),
{
    let q = quotient(p, r, bits);
    let t = times_linear(q, r, bits);
    let last = p.len() - 1;
    lemma_mul_unit(r, bits);
    lemma_xor(0, 0, 0);
    assert(p.take(0) =~= Seq::<u64>::empty());
    assert forall|i: int| 0 <= i < p.len() implies #[trigger] t[i] == p[i] by {
        let before = horner(p.take(i), r, bits);
        assert(p.take(i + 1).drop_last() =~= p.take(i));
        assert(p.take(i + 1).last() == p[i]);
        assert(horner(p.take(i + 1), r, bits) == gf_mul(before, r, bits) ^ p[i]);
        lemma_mul_commutative(before, r, bits);
        lemma_xor(p[i], 0, 0);
        lemma_xor(gf_mul(before, r, bits), p[i], 0);
        lemma_xor_swap(gf_mul(before, r, bits), p[i], gf_mul(before, r, bits), 0);
        if i == last {
            assert(p.take(i + 1) =~= p);
        }
        if i > 0 {
            assert(coefficient(q, i - 1) == before);
        } else {
            assert(before == 0);
        }
    }
    assert(t =~= p);
    if p.len() >= 2 {
        assert(p.take(1).drop_last() =~= Seq::<u64>::empty());
        assert(horner(p.take(1).drop_last(), r, bits) == 0);
        lemma_xor(p[0], 0, 0);
    }
    if all_in_field(p, bits) {
        assert forall|i: int| 0 <= i < q.len() implies in_field(#[trigger] q[i], bits) by {
            assert forall|j: int| 0 <= j < p.take(i + 1).len() implies in_field(
                #[trigger] p.take(i + 1)[j],
                bits,
            ) by {
                assert(p.take(i + 1)[j] == p[j]);
            }
            lemma_horner_in_field(p.take(i + 1), r, bits);
        }
    }
}

/// In a field, a polynomial other than zero that is zero at each of the
/// values `w`, all different, is the product of a polynomial and the
/// polynomial with the roots `w`; so it has at least as many coefficients as
/// `w` has values, and one more.
pub proof fn lemma_factor(p: Seq<u64>, w: Seq<u64>, bits: u32)
    requires
        1 <= bits <= 64,
        no_zero_divisors(bits),
        all_in_field(p, bits),
        p.len() >= 1,
        p[0] != 0,
        w.no_duplicates(),
        forall|i: int| 0 <= i < w.len() ==> in_field(#[trigger] w[i], bits),
        forall|i: int| 0 <= i < w.len() ==> horner(p, #[trigger] w[i], bits) == 0,
    ensures
        p.len() >= w.len() + 1,
        cofactor(p, w, bits).len() + w.len() == p.len(),
        cofactor(p, w, bits)[0] == p[0],
        all_in_field(cofactor(p, w, bits), bits),
        extended(cofactor(p, w, bits), w, bits) == p,
    decreases w.len(),
{
    if w.len() > 0 {
        let r = w.last();
        let front = w.drop_last();
        assert(horner(p, w[w.len() - 1], bits) == 0);
        assert(in_field(w[w.len() - 1], bits));
        if p.len() == 1 {
            assert(p.drop_last() =~= Seq::<u64>::empty());
            assert(horner(p.drop_last(), r, bits) == 0);
            lemma_mul_unit(r, bits);
            lemma_xor(p[0], 0, 0);
            assert(false);
        }
        let lower = quotient(p, r, bits);
        lemma_quotient(p, r, bits);
        assert forall|i: int| 0 <= i < front.len() implies horner(lower, #[trigger] front[i], bits)
            == 0 by {
            let y = front[i];
            assert(y == w[i]);
            assert(horner(p, w[i], bits) == 0);
            assert(in_field(w[i], bits));
            lemma_times_linear_value(lower, r, y, bits);
            lemma_horner_in_field(lower, y, bits);
            lemma_mask(y, r, bits);
            lemma_xor(y, r, 0);
            lemma_xor(r, 0, 0);
            assert(y != r);
            assert(y ^ r != 0);
        }
        assert forall|i: int| 0 <= i < front.len() implies in_field(#[trigger] front[i], bits) by {
            assert(front[i] == w[i]);
        }
        lemma_factor(lower, front, bits);
    }
}

/// In a field, the locator of the sketch of at most `capacity` elements has
/// these elements as its roots, and no others, and has their number as its
/// degree.
pub proof fn lemma_locator_of_sketch(d: Seq<u64>, bits: u32, capacity: nat)
    requires
        1 <= bits <= 64,
        no_zero_divisors(bits),
        distinct_elements(d, bits),
        d.len() <= capacity,
    ensures
        locator(sketch_of(d, bits, capacity), bits).len() == d.len() + 1,
        forall|x: u64|
            #[trigger] d.contains(x) <==> is_root(
                locator(sketch_of(d, bits, capacity), bits),
                x,
                bits,
            ),
{
    let n = 2 * capacity;
    let s = moments(d, n, bits);
    let c = locator(sketch_of(d, bits, capacity), bits);
    let f = product_of(d, bits);
    lemma_all_power_sums_of_sketch(d, bits, capacity);
    crate::sums::lemma_sketch_of_len(d, bits, capacity);
    assert(c == bm_run(s, n, bits).current);
    // The synthesis finds a recurrence that holds, no longer than the true one.
    lemma_run_invariant(s, n, bits);
    lemma_product_holds(d, n, bits);
    lemma_product_leads_with_one(d, bits);
    lemma_run_is_short(s, f, n, bits);
    // So its polynomial is zero at each element.
    let hi = (n + 1 - c.len()) as nat;
    assert forall|j: nat| 1 <= j <= hi implies #[trigger] values_total(c, d, j, bits) == 0 by {
        let k = j + c.len() - 2;
        lemma_discrepancy_of_moments(d, c, k, n, bits);
        assert(discrepancy(s, c, k, bits) == 0);
    }
    assert forall|i: int| 0 <= i < d.len() implies horner(c, #[trigger] d[i], bits) == 0 by {
        lemma_element_is_root(c, d, i, hi, bits);
    }
    // So it is a constant times the polynomial with these roots.
    assert forall|i: int| 0 <= i < d.len() implies in_field(#[trigger] d[i], bits) by {
        assert(d[i] != 0 && in_field(d[i], bits));
    }
    lemma_factor(c, d, bits);
    let q = cofactor(c, d, bits);
    assert(q.len() == 1);
    assert forall|x: u64| #[trigger] d.contains(x) <==> is_root(c, x, bits) by {
        lemma_extended_value(q, d, x, bits);
        assert(q.drop_last() =~= Seq::<u64>::empty());
        assert(horner(q.drop_last(), x, bits) == 0);
        lemma_mul_unit(x, bits);
        lemma_xor(q[0], 0, 0);
        assert(horner(q, x, bits) == q[0]);
        assert(in_field(q[0], bits));
        lemma_mul_unit(q[0], bits);
        if d.contains(x) {
            let i = choose|i: int| 0 <= i < d.len() && d[i] == x;
            assert(d[i] != 0 && in_field(d[i], bits));
            lemma_differences_at_root(d, x, bits);
        } else if x != 0 && in_field(x, bits) {
            assert forall|i: int| 0 <= i < d.len() implies in_field(#[trigger] d[i], bits) && d[i]
                != x by {
                assert(d.contains(d[i]));
            }
            lemma_differences_off_roots(d, x, bits);
        }
    }
}

} // verus!
