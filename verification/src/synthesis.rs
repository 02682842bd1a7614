//! What the register synthesis finds.
//!
//! The synthesis of [`locator`](crate::locator) keeps, step by step, a
//! recurrence that holds of the part of the sequence seen so far. In a field
//! this recurrence is never longer than any other recurrence that holds of
//! that part.

use crate::field::{gf_mul, in_field, lemma_mask, lemma_mul_in_field, lemma_xor};
use crate::locator::{
    bm_run, bm_step, coefficient, combine, discrepancy, discrepancy_upto, register_shape,
    Register,
};
use crate::ring::{
    lemma_mul_associative, lemma_mul_commutative, lemma_mul_distributive, lemma_mul_unit,
    lemma_xor_swap,
};
use crate::unique::no_zero_divisors;
use vstd::prelude::*;

verus! {

/// A discrepancy is a field element.
pub proof fn lemma_discrepancy_in_field(s: Seq<u64>, c: Seq<u64>, n: int, count: nat, bits: u32)
    requires
        1 <= bits <= 64,
    ensures
        in_field(discrepancy_upto(s, c, n, count, bits), bits),
    decreases count,
{
    if count == 0 {
        lemma_mask(0, 0, bits);
    } else {
        let term = gf_mul(coefficient(c, count - 1), coefficient(s, n - (count - 1)), bits);
        lemma_discrepancy_in_field(s, c, n, (count - 1) as nat, bits);
        lemma_mul_in_field(coefficient(c, count - 1), coefficient(s, n - (count - 1)), bits);
        lemma_mask(discrepancy_upto(s, c, n, (count - 1) as nat, bits), term, bits);
    }
}

/// Terms beyond the last coefficient add nothing.
pub proof fn lemma_discrepancy_beyond(s: Seq<u64>, c: Seq<u64>, n: int, count: nat, bits: u32)
    requires
        1 <= bits <= 64,
        count >= c.len(),
    ensures
        discrepancy_upto(s, c, n, count, bits) == discrepancy(s, c, n, bits),
    decreases count,
{
    if count > c.len() {
        lemma_discrepancy_beyond(s, c, n, (count - 1) as nat, bits);
        lemma_mul_unit(coefficient(s, n - (count - 1)), bits);
        lemma_xor(discrepancy(s, c, n, bits), 0, 0);
    }
}

/// The first terms depend on the first coefficients only.
pub proof fn lemma_discrepancy_prefix(
    s: Seq<u64>,
    c1: Seq<u64>,
    c2: Seq<u64>,
    n: int,
    count: nat,
    bits: u32,
)
    requires
        forall|i: int| 0 <= i < count ==> coefficient(c1, i) == coefficient(c2, i),
    ensures
        discrepancy_upto(s, c1, n, count, bits) == discrepancy_upto(s, c2, n, count, bits),
    decreases count,
{
    if count > 0 {
        lemma_discrepancy_prefix(s, c1, c2, n, (count - 1) as nat, bits);
        assert(coefficient(c1, count - 1) == coefficient(c2, count - 1));
    }
}

/// The discrepancy of a combination of two recurrences is the combination of
/// their discrepancies.
pub proof fn lemma_discrepancy_linear(
    s: Seq<u64>,
    q: Seq<u64>,
    c: Seq<u64>,
    b: Seq<u64>,
    scale: u64,
    d: u64,
    n: int,
    count: nat,
    bits: u32,
)
    requires
        1 <= bits <= 64,
        forall|i: int|
            0 <= i < count ==> coefficient(q, i) == gf_mul(scale, coefficient(c, i), bits)
                ^ gf_mul(d, coefficient(b, i), bits),
    ensures
        discrepancy_upto(s, q, n, count, bits) == gf_mul(
            scale,
            discrepancy_upto(s, c, n, count, bits),
            bits,
        ) ^ gf_mul(d, discrepancy_upto(s, b, n, count, bits), bits),
    decreases count,
{
    if count == 0 {
        lemma_mul_unit(scale, bits);
        lemma_mul_unit(d, bits);
        lemma_xor(0, 0, 0);
    } else {
        let i = count - 1;
        let x = coefficient(s, n - i);
        let ci = coefficient(c, i);
        let bi = coefficient(b, i);
        let qc = discrepancy_upto(s, c, n, i as nat, bits);
        let qb = discrepancy_upto(s, b, n, i as nat, bits);
        lemma_discrepancy_linear(s, q, c, b, scale, d, n, i as nat, bits);
        assert(coefficient(q, i) == gf_mul(scale, ci, bits) ^ gf_mul(d, bi, bits));
        // (scale ci + d bi) x = scale (ci x) + d (bi x)
        lemma_mul_distributive(x, gf_mul(scale, ci, bits), gf_mul(d, bi, bits), bits);
        lemma_mul_associative(scale, ci, x, bits);
        lemma_mul_associative(d, bi, x, bits);
        // scale (qc + ci x) + d (qb + bi x)
        lemma_mul_distributive(scale, qc, gf_mul(ci, x, bits), bits);
        lemma_mul_distributive(d, qb, gf_mul(bi, x, bits), bits);
        lemma_xor_swap(
            gf_mul(scale, qc, bits),
            gf_mul(d, qb, bits),
            gf_mul(scale, gf_mul(ci, x, bits), bits),
            gf_mul(d, gf_mul(bi, x, bits), bits),
        );
    }
}

/// The recurrence `b` moved up by `g` places: the product of `b` and `x^g`.
pub open spec fn shifted(b: Seq<u64>, g: nat) -> Seq<u64> {
    Seq::new(
        g + b.len(),
        |i: int|
            if i < g {
                0u64
            } else {
                b[i - g]
            },
    )
}

/// The discrepancy of a recurrence moved up is its discrepancy further down.
pub proof fn lemma_discrepancy_shifted(
    s: Seq<u64>,
    b: Seq<u64>,
    g: nat,
    n: int,
    count: nat,
    bits: u32,
)
    requires
        1 <= bits <= 64,
    ensures
        count <= g ==> discrepancy_upto(s, shifted(b, g), n, count, bits) == 0,
        count >= g ==> discrepancy_upto(s, shifted(b, g), n, count, bits) == discrepancy_upto(
            s,
            b,
            n - g,
            (count - g) as nat,
            bits,
        ),
    decreases count,
{
    if count > 0 {
        lemma_discrepancy_shifted(s, b, g, n, (count - 1) as nat, bits);
        let i = count - 1;
        lemma_mul_unit(coefficient(s, n - i), bits);
        lemma_xor(0, 0, 0);
        assert(coefficient(shifted(b, g), i) == coefficient(b, i - g));
    }
}

/// The discrepancy of the combination that a step of the synthesis makes.
pub proof fn lemma_discrepancy_of_combine(
    s: Seq<u64>,
    c: Seq<u64>,
    b: Seq<u64>,
    gap: nat,
    scale: u64,
    d: u64,
    len: nat,
    n: int,
    bits: u32,
)
    requires
        1 <= bits <= 64,
        len >= c.len(),
        len >= b.len() + gap,
    ensures
        discrepancy(s, combine(c, b, gap, scale, d, len, bits), n, bits) == gf_mul(
            scale,
            discrepancy(s, c, n, bits),
            bits,
        ) ^ gf_mul(d, discrepancy(s, b, n - gap, bits), bits),
{
    let q = combine(c, b, gap, scale, d, len, bits);
    let moved = shifted(b, gap);
    assert forall|i: int| 0 <= i < len implies coefficient(q, i) == gf_mul(
        scale,
        coefficient(c, i),
        bits,
    ) ^ gf_mul(d, coefficient(moved, i), bits) by {
        assert(coefficient(moved, i) == coefficient(b, i - gap));
    }
    lemma_discrepancy_linear(s, q, c, moved, scale, d, n, len, bits);
    lemma_discrepancy_beyond(s, c, n, len, bits);
    lemma_discrepancy_beyond(s, moved, n, len, bits);
    lemma_discrepancy_shifted(s, b, gap, n, moved.len(), bits);
}

/// Whether the recurrence `f` holds of `s` at the places from `lo` up to, not
/// including, `hi`.
pub open spec fn holds_on(s: Seq<u64>, f: Seq<u64>, lo: int, hi: int, bits: u32) -> bool {
    forall|k: int| lo <= k < hi ==> #[trigger] discrepancy(s, f, k, bits) == 0
}

/// What the synthesis keeps true, after `n` steps: the current recurrence
/// holds of the `n` terms seen, as far as its length lets it speak; the
/// previous one held up to the place where it was replaced, and failed there
/// by `scale`.
pub open spec fn synthesis_invariant(r: Register, s: Seq<u64>, n: nat, bits: u32) -> bool {
    &&& register_shape(r, n, bits)
    &&& holds_on(s, r.current, r.current.len() - 1, n as int, bits)
    &&& r.scale != 0
    &&& in_field(r.scale, bits)
    &&& r.current[0] != 0
    &&& if r.current.len() == 1 {
        r.previous == seq![1u64] && r.scale == 1
    } else {
        &&& r.gap <= n
        &&& holds_on(s, r.previous, r.previous.len() - 1, n - r.gap, bits)
        &&& discrepancy(s, r.previous, n - r.gap, bits) == r.scale
    }
}

/// A step of the synthesis keeps what the synthesis keeps true.
pub proof fn lemma_step_invariant(r: Register, s: Seq<u64>, n: nat, bits: u32)
    requires
        1 <= bits <= 64,
        no_zero_divisors(bits),
        synthesis_invariant(r, s, n, bits),
    ensures
        synthesis_invariant(bm_step(r, s, n, bits), s, n + 1, bits),
{
    let d = discrepancy(s, r.current, n as int, bits);
    let next = bm_step(r, s, n, bits);
    let c = r.current;
    let b = r.previous;
    crate::locator::lemma_step_shape(r, s, n, bits);
    lemma_discrepancy_in_field(s, c, n as int, c.len(), bits);
    if d == 0 {
        assert(holds_on(s, c, c.len() - 1, (n + 1) as int, bits));
    } else {
        let len: nat = if 2 * (c.len() - 1) <= n {
            (n + 3 - c.len()) as nat
        } else {
            c.len()
        };
        let q = combine(c, b, r.gap, r.scale, d, len, bits);
        assert(next.current == q);
        // The leading coefficient stays other than zero.
        assert(q[0] == gf_mul(r.scale, c[0], bits) ^ gf_mul(d, 0, bits));
        lemma_mul_unit(d, bits);
        lemma_xor(gf_mul(r.scale, c[0], bits), 0, 0);
        assert(in_field(c[0], bits));
        assert(q[0] != 0);
        if c.len() == 1 {
            // The first change of length: nothing is asked of the new recurrence.
            assert(holds_on(s, q, q.len() - 1, (n + 1) as int, bits));
        } else {
            assert forall|k: int| q.len() - 1 <= k < n + 1 implies #[trigger] discrepancy(
                s,
                q,
                k,
                bits,
            ) == 0 by {
                lemma_discrepancy_of_combine(s, c, b, r.gap, r.scale, d, len, k, bits);
                lemma_mul_unit(r.scale, bits);
                lemma_mul_unit(d, bits);
                lemma_xor(0, 0, 0);
                if k < n {
                    assert(discrepancy(s, c, k, bits) == 0);
                    assert(discrepancy(s, b, k - r.gap, bits) == 0);
                } else {
                    lemma_mul_commutative(r.scale, d, bits);
                    lemma_xor(gf_mul(r.scale, d, bits), 0, 0);
                }
            }
        }
        if 2 * (c.len() - 1) <= n {
            // The recurrence that was current is the previous one now.
            assert(holds_on(s, c, c.len() - 1, n + 1 - 1, bits));
        }
    }
}

/// The synthesis keeps its invariant from the start.
pub proof fn lemma_run_invariant(s: Seq<u64>, n: nat, bits: u32)
    requires
        1 <= bits <= 64,
        no_zero_divisors(bits),
    ensures
        synthesis_invariant(bm_run(s, n, bits), s, n, bits),
    decreases n,
{
    if n == 0 {
        crate::locator::lemma_run_shape(s, 0, bits);
        lemma_mask(1, 1, bits);
    } else {
        lemma_run_invariant(s, (n - 1) as nat, bits);
        lemma_step_invariant(bm_run(s, (n - 1) as nat, bits), s, (n - 1) as nat, bits);
    }
}

/// The sum, over the first `count` coefficients of `a`, of the coefficient
/// times the discrepancy of `b` that many places below `n`.
pub open spec fn cross(s: Seq<u64>, a: Seq<u64>, b: Seq<u64>, n: int, count: nat, bits: u32) -> u64
    decreases count,
{
    if count == 0 {
        0
    } else {
        cross(s, a, b, n, (count - 1) as nat, bits) ^ gf_mul(
            coefficient(a, count - 1),
            discrepancy(s, b, n - (count - 1), bits),
            bits,
        )
    }
}

/// The first terms of the sum depend on the first coefficients only.
proof fn lemma_cross_prefix(
    s: Seq<u64>,
    a1: Seq<u64>,
    a2: Seq<u64>,
    b: Seq<u64>,
    n: int,
    count: nat,
    bits: u32,
)
    requires
        forall|i: int| 0 <= i < count ==> coefficient(a1, i) == coefficient(a2, i),
    ensures
        cross(s, a1, b, n, count, bits) == cross(s, a2, b, n, count, bits),
    decreases count,
{
    if count > 0 {
        lemma_cross_prefix(s, a1, a2, b, n, (count - 1) as nat, bits);
        assert(coefficient(a1, count - 1) == coefficient(a2, count - 1));
    }
}

/// The sum is zero where all the discrepancies in it are zero.
proof fn lemma_cross_of_zeros(s: Seq<u64>, a: Seq<u64>, b: Seq<u64>, n: int, count: nat, bits: u32)
    requires
        1 <= bits <= 64,
        holds_on(s, b, n - count + 1, n + 1, bits),
    ensures
        cross(s, a, b, n, count, bits) == 0,
    decreases count,
{
    if count > 0 {
        lemma_cross_of_zeros(s, a, b, n, (count - 1) as nat, bits);
        assert(discrepancy(s, b, n - (count - 1), bits) == 0);
        lemma_mul_unit(coefficient(a, count - 1), bits);
        lemma_xor(0, 0, 0);
    }
}

/// The sum is its first term where all the other discrepancies in it are
/// zero.
proof fn lemma_cross_first_term(
    s: Seq<u64>,
    a: Seq<u64>,
    b: Seq<u64>,
    n: int,
    count: nat,
    bits: u32,
)
    requires
        1 <= bits <= 64,
        count >= 1,
        holds_on(s, b, n - count + 1, n, bits),
    ensures
        cross(s, a, b, n, count, bits) == gf_mul(
            coefficient(a, 0),
            discrepancy(s, b, n, bits),
            bits,
        ),
    decreases count,
{
    let first = gf_mul(coefficient(a, 0), discrepancy(s, b, n, bits), bits);
    if count == 1 {
        assert(cross(s, a, b, n, 0, bits) == 0);
        lemma_xor(first, 0, 0);
    } else {
        lemma_cross_first_term(s, a, b, n, (count - 1) as nat, bits);
        assert(discrepancy(s, b, n - (count - 1), bits) == 0);
        lemma_mul_unit(coefficient(a, count - 1), bits);
        lemma_xor(first, 0, 0);
    }
}

/// One more coefficient of the second recurrence adds its product with a
/// discrepancy of the first.
proof fn lemma_cross_push(
    s: Seq<u64>,
    b: Seq<u64>,
    a: Seq<u64>,
    x: u64,
    n: int,
    count: nat,
    bits: u32,
)
    requires
        1 <= bits <= 64,
    ensures
        cross(s, b, a.push(x), n, count, bits) == cross(s, b, a, n, count, bits) ^ gf_mul(
            x,
            discrepancy_upto(s, b, n - a.len(), count, bits),
            bits,
        ),
    decreases count,
{
    let longer = a.push(x);
    if count == 0 {
        lemma_mul_unit(x, bits);
        lemma_xor(0, 0, 0);
    } else {
        let i = count - 1;
        let bi = coefficient(b, i);
        let sigma = coefficient(s, n - i - a.len());
        let da = discrepancy(s, a, n - i, bits);
        let before = discrepancy_upto(s, b, n - a.len(), i as nat, bits);
        lemma_cross_push(s, b, a, x, n, i as nat, bits);
        // The discrepancy of the longer recurrence.
        assert forall|j: int| 0 <= j < a.len() implies coefficient(longer, j) == coefficient(
            a,
            j,
        ) by {}
        lemma_discrepancy_prefix(s, longer, a, n - i, a.len(), bits);
        assert(coefficient(longer, a.len() as int) == x);
        assert(discrepancy(s, longer, n - i, bits) == da ^ gf_mul(x, sigma, bits));
        // bi (da + x sigma) = bi da + x (bi sigma)
        lemma_mul_distributive(bi, da, gf_mul(x, sigma, bits), bits);
        lemma_mul_associative(bi, x, sigma, bits);
        lemma_mul_commutative(bi, x, bits);
        lemma_mul_associative(x, bi, sigma, bits);
        // x (before + bi sigma) = x before + x (bi sigma)
        lemma_mul_distributive(x, before, gf_mul(bi, sigma, bits), bits);
        lemma_xor_swap(
            cross(s, b, a, n, i as nat, bits),
            gf_mul(x, before, bits),
            gf_mul(bi, da, bits),
            gf_mul(x, gf_mul(bi, sigma, bits), bits),
        );
    }
}

/// The sum does not change when the two recurrences change places.
pub proof fn lemma_cross_symmetric(s: Seq<u64>, a: Seq<u64>, b: Seq<u64>, n: int, bits: u32)
    requires
        1 <= bits <= 64,
    ensures
        cross(s, a, b, n, a.len(), bits) == cross(s, b, a, n, b.len(), bits),
    decreases a.len(),
{
    if a.len() == 0 {
        assert(holds_on(s, a, n - b.len() + 1, n + 1, bits));
        lemma_cross_of_zeros(s, b, a, n, b.len(), bits);
    } else {
        let front = a.drop_last();
        let x = a.last();
        assert(front.push(x) =~= a);
        lemma_cross_symmetric(s, front, b, n, bits);
        lemma_cross_push(s, b, front, x, n, b.len(), bits);
        assert forall|i: int| 0 <= i < front.len() implies coefficient(a, i) == coefficient(
            front,
            i,
        ) by {}
        lemma_cross_prefix(s, a, front, b, n, front.len(), bits);
    }
}

/// No recurrence that holds one place further than another is too short: a
/// recurrence `f` with the first coefficient one that holds of `s` up to the
/// place `n`, where the recurrence `c` fails for the first time, is long
/// enough for the two lengths to add up to more than `n`.
pub proof fn lemma_change_of_length(s: Seq<u64>, c: Seq<u64>, f: Seq<u64>, n: int, bits: u32)
    requires
        1 <= bits <= 64,
        c.len() >= 1,
        f.len() >= 1,
        f[0] == 1,
        holds_on(s, c, c.len() - 1, n, bits),
        discrepancy(s, c, n, bits) != 0,
        holds_on(s, f, f.len() - 1, n + 1, bits),
    ensures
        (c.len() - 1) + (f.len() - 1) >= n + 1,
{
    if (c.len() - 1) + (f.len() - 1) <= n {
        let d = discrepancy(s, c, n, bits);
        lemma_cross_symmetric(s, f, c, n, bits);
        assert(holds_on(s, c, n - f.len() + 1, n, bits));
        lemma_cross_first_term(s, f, c, n, f.len(), bits);
        assert(holds_on(s, f, n - c.len() + 1, n + 1, bits));
        lemma_cross_of_zeros(s, c, f, n, c.len(), bits);
        lemma_discrepancy_in_field(s, c, n, c.len(), bits);
        lemma_mul_unit(d, bits);
        lemma_mask(d, d, bits);
        assert(false);
    }
}

/// In a field, the recurrence that the synthesis has found after `n` steps
/// is no longer than any recurrence with the first coefficient one that
/// holds of the first `n` terms.
pub proof fn lemma_run_is_short(s: Seq<u64>, f: Seq<u64>, n: nat, bits: u32)
    requires
        1 <= bits <= 64,
        no_zero_divisors(bits),
        f.len() >= 1,
        f[0] == 1,
        holds_on(s, f, f.len() - 1, n as int, bits),
    ensures
        bm_run(s, n, bits).current.len() <= f.len(),
    decreases n,
{
    if n > 0 {
        let r = bm_run(s, (n - 1) as nat, bits);
        lemma_run_is_short(s, f, (n - 1) as nat, bits);
        lemma_run_invariant(s, (n - 1) as nat, bits);
        let d = discrepancy(s, r.current, n - 1, bits);
        if d != 0 && 2 * (r.current.len() - 1) <= n - 1 {
            lemma_change_of_length(s, r.current, f, n - 1, bits);
        }
    }
}

} // verus!
