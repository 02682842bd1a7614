//! The roots of a polynomial.
//!
//! A polynomial that is the product of different linear factors over
//! `GF(2^bits)` divides `x^(2^bits) - x`, and the trace of `b x` modulo the
//! polynomial, for a suitable `b`, has some of its roots and not the others:
//! the greatest common divisor of the two splits the polynomial. Splitting
//! finds the roots in a time that does not grow with the size of the field.
//!
//! What the splitting finds is not taken on trust. The values found are
//! checked to be roots, all different and as many as the degree; in a field
//! they are all the roots then. That there are fewer roots than the degree
//! is proved where the polynomial has the constant term zero or does not
//! divide `x^(2^bits) - x`. In any other case every element of the field is
//! tried; this is not expected to happen.
//!
//! Polynomials are lists of coefficients from the highest power down, without
//! leading zeros.

use crate::certify::{frobenius, frobenius_fixes, lemma_square_of_product};
use crate::complete::{cofactor, lemma_extended_value, lemma_factor};
use crate::field::{gf_mul, in_field, lemma_mask, lemma_xor, low_mask, Field};
use crate::locator::{evaluate, horner, is_root, lemma_constant_has_no_root};
use crate::ring::{
    lemma_mul_associative, lemma_mul_commutative, lemma_mul_distributive, lemma_mul_unit,
    lemma_square_of_sum, lemma_xor_swap,
};
use crate::sketch::MAX_CAPACITY;
use crate::sums::{all_in_field, lemma_contains_push};
use crate::unique::{lemma_differences_off_roots, no_zero_divisors};
use vstd::prelude::*;

verus! {

/// Whether a polynomial has no leading zero.
pub open spec fn normal(p: Seq<u64>) -> bool {
    p.len() > 0 ==> p[0] != 0
}

/// Whether two polynomials have the same value at `y`.
pub open spec fn same_value(p: Seq<u64>, q: Seq<u64>, y: u64, bits: u32) -> bool {
    horner(p, y, bits) == horner(q, y, bits)
}

/// A leading zero does not change the values of a polynomial.
pub proof fn lemma_leading_zero(q: Seq<u64>, y: u64, bits: u32)
    requires
        1 <= bits <= 64,
    ensures
        horner(seq![0u64] + q, y, bits) == horner(q, y, bits),
    decreases q.len(),
{
    let p = seq![0u64] + q;
    lemma_mul_unit(y, bits);
    lemma_xor(0, 0, 0);
    if q.len() == 0 {
        assert(p.drop_last() =~= Seq::<u64>::empty());
        assert(horner(p.drop_last(), y, bits) == 0);
    } else {
        assert(p.drop_last() =~= seq![0u64] + q.drop_last());
        lemma_leading_zero(q.drop_last(), y, bits);
    }
}

/// Leading zeros do not change the values of a polynomial.
pub proof fn lemma_leading_zeros(p: Seq<u64>, k: int, y: u64, bits: u32)
    requires
        1 <= bits <= 64,
        0 <= k <= p.len(),
        forall|i: int| 0 <= i < k ==> p[i] == 0,
    ensures
        horner(p.skip(k), y, bits) == horner(p, y, bits),
    decreases k,
{
    if k == 0 {
        assert(p.skip(0) =~= p);
    } else {
        lemma_leading_zeros(p, k - 1, y, bits);
        assert(p.skip(k - 1) =~= seq![0u64] + p.skip(k));
        lemma_leading_zero(p.skip(k), y, bits);
    }
}

/// The sum of two polynomials with equally many coefficients.
pub open spec fn poly_xor(a: Seq<u64>, b: Seq<u64>) -> Seq<u64> {
    Seq::new(a.len(), |i: int| a[i] ^ b[i])
}

/// The value of a sum is the sum of the values.
pub proof fn lemma_value_of_sum(a: Seq<u64>, b: Seq<u64>, y: u64, bits: u32)
    requires
        1 <= bits <= 64,
        a.len() == b.len(),
    ensures
        horner(poly_xor(a, b), y, bits) == horner(a, y, bits) ^ horner(b, y, bits),
    decreases a.len(),
{
    let s = poly_xor(a, b);
    if a.len() == 0 {
        lemma_xor(0, 0, 0);
    } else {
        lemma_value_of_sum(a.drop_last(), b.drop_last(), y, bits);
        assert(s.drop_last() =~= poly_xor(a.drop_last(), b.drop_last()));
        let ha = horner(a.drop_last(), y, bits);
        let hb = horner(b.drop_last(), y, bits);
        lemma_mul_distributive(y, ha, hb, bits);
        lemma_xor_swap(gf_mul(ha, y, bits), gf_mul(hb, y, bits), a.last(), b.last());
    }
}

/// The polynomial `c x^k m`, with `len` coefficients: `m` multiplied by `c`,
/// with `i` zeros before it and zeros after it.
pub open spec fn placed(m: Seq<u64>, c: u64, i: int, len: nat, bits: u32) -> Seq<u64> {
    Seq::new(
        len,
        |j: int|
            if i <= j < i + m.len() {
                gf_mul(c, m[j - i], bits)
            } else {
                0u64
            },
    )
}

/// A multiple of a polynomial is zero where the polynomial is zero.
pub proof fn lemma_placed_vanishes(m: Seq<u64>, c: u64, i: int, len: nat, y: u64, bits: u32)
    requires
        1 <= bits <= 64,
        0 <= i,
        i + m.len() <= len,
        horner(m, y, bits) == 0,
    ensures
        horner(placed(m, c, i, len, bits), y, bits) == 0,
    decreases len,
{
    let p = placed(m, c, i, len, bits);
    lemma_mul_unit(y, bits);
    lemma_mul_unit(c, bits);
    lemma_xor(0, 0, 0);
    if len == 0 {
    } else if i + m.len() < len {
        // The last coefficient is one of the zeros after m.
        assert(p.drop_last() =~= placed(m, c, i, (len - 1) as nat, bits));
        lemma_placed_vanishes(m, c, i, (len - 1) as nat, y, bits);
    } else if m.len() == 0 {
        assert(p.drop_last() =~= placed(m, c, i, (len - 1) as nat, bits));
        lemma_placed_vanishes(m, c, i - 1, (len - 1) as nat, y, bits);
        assert(placed(m, c, i - 1, (len - 1) as nat, bits) =~= placed(
            m,
            c,
            i,
            (len - 1) as nat,
            bits,
        ));
    } else {
        // The polynomial ends with m: its value is c times the value of m.
        lemma_placed_value(m, c, i, y, bits);
    }
}

/// The value of `c m` behind leading zeros is `c` times the value of `m`.
pub proof fn lemma_placed_value(m: Seq<u64>, c: u64, i: int, y: u64, bits: u32)
    requires
        1 <= bits <= 64,
        0 <= i,
    ensures
        horner(placed(m, c, i, (i + m.len()) as nat, bits), y, bits) == gf_mul(
            c,
            horner(m, y, bits),
            bits,
        ),
    decreases m.len(),
{
    let len = (i + m.len()) as nat;
    let p = placed(m, c, i, len, bits);
    lemma_mul_unit(c, bits);
    lemma_mul_unit(y, bits);
    lemma_xor(0, 0, 0);
    if m.len() == 0 {
        assert forall|j: int| 0 <= j < i implies p[j] == 0 by {}
        lemma_leading_zeros(p, i, y, bits);
        assert(p.skip(i) =~= Seq::<u64>::empty());
    } else {
        let front = m.drop_last();
        assert(p.drop_last() =~= placed(front, c, i, (i + front.len()) as nat, bits));
        lemma_placed_value(front, c, i, y, bits);
        let hf = horner(front, y, bits);
        // (c hf) y + c last = c (hf y + last)
        lemma_mul_associative(c, hf, y, bits);
        lemma_mul_distributive(c, gf_mul(hf, y, bits), m.last(), bits);
    }
}

/// The square of a polynomial: the squares of its coefficients, with zeros
/// between them.
pub open spec fn poly_square(p: Seq<u64>, bits: u32) -> Seq<u64> {
    Seq::new(
        if p.len() == 0 {
            0nat
        } else {
            (2 * p.len() - 1) as nat
        },
        |j: int|
            if j % 2 == 0 {
                gf_mul(p[j / 2], p[j / 2], bits)
            } else {
                0u64
            },
    )
}

/// The value of the square is the square of the value.
pub proof fn lemma_value_of_square(p: Seq<u64>, y: u64, bits: u32)
    requires
        1 <= bits <= 64,
    ensures
        horner(poly_square(p, bits), y, bits) == gf_mul(
            horner(p, y, bits),
            horner(p, y, bits),
            bits,
        ),
    decreases p.len(),
{
    let s = poly_square(p, bits);
    lemma_mul_unit(0, bits);
    lemma_mul_unit(y, bits);
    lemma_xor(0, 0, 0);
    if p.len() == 0 {
    } else if p.len() == 1 {
        assert(s.drop_last() =~= Seq::<u64>::empty());
        assert(horner(s.drop_last(), y, bits) == 0);
        assert(p.drop_last() =~= Seq::<u64>::empty());
        assert(horner(p.drop_last(), y, bits) == 0);
        lemma_xor(p[0], 0, 0);
        lemma_xor(gf_mul(p[0], p[0], bits), 0, 0);
    } else {
        let front = p.drop_last();
        let sf = poly_square(front, bits);
        let hf = horner(front, y, bits);
        let last = p.last();
        lemma_value_of_square(front, y, bits);
        // s is the square of the front, a zero, and the square of the last.
        assert(s.drop_last().drop_last() =~= sf);
        assert(s.drop_last().last() == 0);
        assert(s.last() == gf_mul(last, last, bits));
        let up = gf_mul(horner(sf, y, bits), y, bits);
        lemma_xor(up, 0, 0);
        assert(horner(s.drop_last(), y, bits) == up);
        // (hf y + last)^2 = (hf^2 y) y + last^2
        lemma_square_of_sum(gf_mul(hf, y, bits), last, bits);
        lemma_square_of_product(hf, y, bits);
        lemma_mul_associative(gf_mul(hf, hf, bits), y, y, bits);
    }
}

/// The number of leading zeros of a list of coefficients.
pub open spec fn leading_zeros(p: Seq<u64>) -> nat
    decreases p.len(),
{
    if p.len() == 0 || p[0] != 0 {
        0
    } else {
        1 + leading_zeros(p.skip(1))
    }
}

/// The polynomial without its leading zeros.
pub open spec fn trim(p: Seq<u64>) -> Seq<u64> {
    p.skip(leading_zeros(p) as int)
}

/// The leading zeros are the zeros before the first coefficient other than
/// zero.
pub proof fn lemma_leading_zeros_count(p: Seq<u64>, k: int)
    requires
        0 <= k <= p.len(),
        forall|i: int| 0 <= i < k ==> p[i] == 0,
        k == p.len() || p[k] != 0,
    ensures
        leading_zeros(p) == k,
    decreases k,
{
    if k > 0 {
        let rest = p.skip(1);
        assert forall|i: int| 0 <= i < k - 1 implies rest[i] == 0 by {
            assert(rest[i] == p[i + 1]);
        }
        if k < p.len() {
            assert(rest[k - 1] == p[k]);
        }
        lemma_leading_zeros_count(rest, k - 1);
    }
}

/// One step of the division of `work` by `m`: the multiple of `m` that takes
/// away coefficient `i` is added.
pub open spec fn rem_step(work: Seq<u64>, m: Seq<u64>, inverse: u64, i: int, bits: u32) -> Seq<
    u64,
> {
    poly_xor(work, placed(m, gf_mul(work[i], inverse, bits), i, work.len(), bits))
}

/// The steps of the division from step `i` up to, not including, step
/// `steps`.
pub open spec fn rem_steps(
    work: Seq<u64>,
    m: Seq<u64>,
    inverse: u64,
    i: nat,
    steps: nat,
    bits: u32,
) -> Seq<u64>
    decreases steps - i,
{
    if i >= steps {
        work
    } else {
        rem_steps(rem_step(work, m, inverse, i as int, bits), m, inverse, i + 1, steps, bits)
    }
}

/// The remainder of `a` modulo `m`, by long division; `inverse` is the
/// inverse of the leading coefficient of `m`.
pub open spec fn poly_rem(a: Seq<u64>, m: Seq<u64>, inverse: u64, bits: u32) -> Seq<u64> {
    if a.len() < m.len() {
        trim(a)
    } else {
        let steps = (a.len() - m.len() + 1) as nat;
        trim(rem_steps(a, m, inverse, 0, steps, bits).skip(steps as int))
    }
}

/// Coefficient `k` of the polynomial `p` written with `n` coefficients, with
/// zeros before it.
pub open spec fn padded(p: Seq<u64>, k: int, n: int) -> u64 {
    if k >= n - p.len() {
        p[k - (n - p.len())]
    } else {
        0
    }
}

/// The sum of two polynomials.
pub open spec fn poly_add(a: Seq<u64>, b: Seq<u64>) -> Seq<u64> {
    let n = if a.len() > b.len() {
        a.len()
    } else {
        b.len()
    };
    trim(Seq::new(n, |k: int| padded(a, k, n as int) ^ padded(b, k, n as int)))
}

/// The power of `beta x` with the exponent `2^k`, modulo `g`.
pub open spec fn trace_power(g: Seq<u64>, inverse: u64, beta: u64, k: nat, bits: u32) -> Seq<u64>
    decreases k,
{
    if k == 0 {
        poly_rem(seq![beta, 0u64], g, inverse, bits)
    } else {
        poly_rem(
            poly_square(trace_power(g, inverse, beta, (k - 1) as nat, bits), bits),
            g,
            inverse,
            bits,
        )
    }
}

/// The sum of the powers of `beta x` with the exponents `1`, `2`, .. up to
/// `2^k`, modulo `g`.
pub open spec fn trace_sum(g: Seq<u64>, inverse: u64, beta: u64, k: nat, bits: u32) -> Seq<u64>
    decreases k,
{
    if k == 0 {
        trace_power(g, inverse, beta, 0, bits)
    } else {
        poly_add(
            trace_sum(g, inverse, beta, (k - 1) as nat, bits),
            trace_power(g, inverse, beta, k, bits),
        )
    }
}

/// The power of `x` with the exponent `2^k`, modulo `q`.
pub open spec fn power_of_x(q: Seq<u64>, inverse: u64, k: nat, bits: u32) -> Seq<u64>
    decreases k,
{
    if k == 0 {
        identity()
    } else {
        poly_rem(poly_square(power_of_x(q, inverse, (k - 1) as nat, bits), bits), q, inverse, bits)
    }
}

/// What the algorithm of Euclid makes of `a` and `b` in at most `fuel`
/// divisions: the last remainder other than zero, or `None` where a leading
/// coefficient has no inverse.
pub open spec fn euclid(a: Seq<u64>, b: Seq<u64>, fuel: nat, bits: u32) -> Option<Seq<u64>>
    decreases fuel,
{
    if b.len() == 0 {
        Some(a)
    } else if fuel == 0 {
        None
    } else {
        match crate::field::gf_inv(b[0], bits) {
            None => None,
            Some(inverse) => euclid(b, poly_rem(a, b, inverse, bits), (fuel - 1) as nat, bits),
        }
    }
}

/// The polynomial without its leading zeros.
fn trimmed(p: &Vec<u64>) -> (r: Vec<u64>)
    ensures
        r@ == trim(p@),
        normal(r@),
        r@.len() <= p@.len(),
        r@ == p@.skip(p@.len() - r@.len()),
        forall|i: int| 0 <= i < p@.len() - r@.len() ==> p@[i] == 0,
{
    let mut k: usize = 0;
    while k < p.len() && p[k] == 0
        invariant
            k <= p.len(),
            forall|i: int| 0 <= i < k ==> p@[i] == 0,
        decreases p.len() - k,
    {
        k = k + 1;
    }
    let ghost start = k;
    let mut r: Vec<u64> = Vec::new();
    while k < p.len()
        invariant
            start <= k <= p.len(),
            r@ == p@.subrange(start as int, k as int),
        decreases p.len() - k,
    {
        r.push(p[k]);
        k = k + 1;
        assert(r@ =~= p@.subrange(start as int, k as int));
    }
    assert(r@ =~= p@.skip(start as int));
    proof {
        lemma_leading_zeros_count(p@, start as int);
    }
    r
}

/// The square of a polynomial.
fn squared(field: &Field, p: &Vec<u64>) -> (r: Vec<u64>)
    requires
        field.wf(),
        p@.len() <= MAX_CAPACITY + 1,
    ensures
        r@ == poly_square(p@, field.spec_bits()),
        all_in_field(r@, field.spec_bits()),
{
    let ghost bits = field.spec_bits();
    let mut r: Vec<u64> = Vec::new();
    let mut i: usize = 0;
    proof {
        lemma_mask(0, 0, bits);
    }
    while i < p.len()
        invariant
            field.wf(),
            bits == field.spec_bits(),
            p@.len() <= MAX_CAPACITY + 1,
            i <= p.len(),
            r@.len() == (if i == 0 {
                0int
            } else {
                2 * i - 1
            }),
            forall|j: int| 0 <= j < r@.len() ==> #[trigger] r@[j] == poly_square(p@, bits)[j],
            all_in_field(r@, bits),
        decreases p.len() - i,
    {
        if i > 0 {
            r.push(0);
        }
        let c: u64 = p[i];
        r.push(field.mul(c, c));
        i = i + 1;
    }
    assert(r@ =~= poly_square(p@, bits));
    r
}

/// The remainder of `a` modulo `m`, where `inverse` is the inverse of the
/// leading coefficient of `m`. It has the values of `a` where `m` is zero.
fn remainder(field: &Field, a: &Vec<u64>, m: &Vec<u64>, inverse: u64) -> (r: Vec<u64>)
    requires
        field.wf(),
        m@.len() >= 1,
        all_in_field(a@, field.spec_bits()),
        all_in_field(m@, field.spec_bits()),
        gf_mul(m@[0], inverse, field.spec_bits()) == 1,
    ensures
        r@ == poly_rem(a@, m@, inverse, field.spec_bits()),
        r@.len() < m@.len(),
        normal(r@),
        all_in_field(r@, field.spec_bits()),
        forall|y: u64| #[trigger]
            horner(m@, y, field.spec_bits()) == 0 ==> same_value(r@, a@, y, field.spec_bits()),
{
    let ghost bits = field.spec_bits();
    if a.len() < m.len() {
        let r: Vec<u64> = trimmed(a);
        proof {
            assert forall|y: u64| #[trigger] horner(m@, y, bits) == 0 implies same_value(
                r@,
                a@,
                y,
                bits,
            ) by {
                lemma_leading_zeros(a@, a@.len() - r@.len(), y, bits);
            }
        }
        return r;
    }
    let len: usize = a.len();
    let width: usize = m.len();
    let steps: usize = len - width + 1;
    let mut work: Vec<u64> = a.clone();
    assert(work@ =~= a@);
    let mut i: usize = 0;
    while i < steps
        invariant
            field.wf(),
            bits == field.spec_bits(),
            len == a@.len(),
            width == m@.len(),
            width >= 1,
            steps == len - width + 1,
            i <= steps,
            work@.len() == len,
            all_in_field(work@, bits),
            all_in_field(m@, bits),
            gf_mul(m@[0], inverse, bits) == 1,
            forall|j: int| 0 <= j < i ==> work@[j] == 0,
            forall|y: u64| #[trigger]
                horner(m@, y, bits) == 0 ==> same_value(work@, a@, y, bits),
            rem_steps(work@, m@, inverse, i as nat, steps as nat, bits) == rem_steps(
                a@,
                m@,
                inverse,
                0,
                steps as nat,
                bits,
            ),
        decreases steps - i,
    {
        let lead: u64 = work[i];
        let c: u64 = field.mul(lead, inverse);
        let ghost before = work@;
        let mut next: Vec<u64> = Vec::new();
        let mut j: usize = 0;
        while j < len
            invariant
                field.wf(),
                bits == field.spec_bits(),
                1 <= bits <= 64,
                len == work@.len(),
                width == m@.len(),
                i + width <= len,
                j <= len,
                before == work@,
                all_in_field(work@, bits),
                next@.len() == j,
                forall|k: int| 0 <= k < j ==> #[trigger] next@[k] == poly_xor(
                    before,
                    placed(m@, c, i as int, len as nat, bits),
                )[k],
                all_in_field(next@, bits),
            decreases len - j,
        {
            let v: u64 = if i <= j && j < i + width {
                let t: u64 = field.mul(c, m[j - i]);
                proof {
                    assert(in_field(work@[j as int], bits));
                    lemma_mask(work@[j as int], t, bits);
                }
                work[j] ^ t
            } else {
                proof {
                    assert(in_field(work@[j as int], bits));
                    lemma_xor(work@[j as int], 0, 0);
                }
                work[j]
            };
            next.push(v);
            j = j + 1;
        }
        proof {
            let add = placed(m@, c, i as int, len as nat, bits);
            assert(next@ =~= poly_xor(before, add));
            assert(next@ == rem_step(before, m@, inverse, i as int, bits));
            // The leading coefficient is gone: c m[0] = lead.
            assert(in_field(before[i as int], bits));
            lemma_mul_associative(lead, inverse, m@[0], bits);
            lemma_mul_commutative(inverse, m@[0], bits);
            lemma_mul_unit(lead, bits);
            lemma_mask(lead, lead, bits);
            lemma_xor(lead, 0, 0);
            assert(next@[i as int] == 0);
            assert forall|k: int| 0 <= k < i implies next@[k] == 0 by {
                lemma_xor(0, 0, 0);
            }
            assert forall|y: u64| #[trigger] horner(m@, y, bits) == 0 implies same_value(
                next@,
                a@,
                y,
                bits,
            ) by {
                lemma_value_of_sum(before, add, y, bits);
                lemma_placed_vanishes(m@, c, i as int, len as nat, y, bits);
                lemma_xor(horner(before, y, bits), 0, 0);
                assert(same_value(before, a@, y, bits));
            }
        }
        work = next;
        i = i + 1;
    }
    let mut rest: Vec<u64> = Vec::new();
    let mut k: usize = steps;
    while k < len
        invariant
            steps <= k <= len,
            len == work@.len(),
            rest@ == work@.subrange(steps as int, k as int),
        decreases len - k,
    {
        rest.push(work[k]);
        k = k + 1;
        assert(rest@ =~= work@.subrange(steps as int, k as int));
    }
    assert(rest@ =~= work@.skip(steps as int));
    let r: Vec<u64> = trimmed(&rest);
    proof {
        assert forall|y: u64| #[trigger] horner(m@, y, bits) == 0 implies same_value(
            r@,
            a@,
            y,
            bits,
        ) by {
            lemma_leading_zeros(work@, steps as int, y, bits);
            lemma_leading_zeros(rest@, rest@.len() - r@.len(), y, bits);
            assert(same_value(work@, a@, y, bits));
        }
        assert forall|k: int| 0 <= k < r@.len() implies in_field(#[trigger] r@[k], bits) by {
            assert(r@[k] == rest@[k + rest@.len() - r@.len()]);
            assert(rest@[k + rest@.len() - r@.len()] == work@[steps + k + rest@.len()
                - r@.len()]);
        }
    }
    r
}

/// Whether `d` lists as many roots of `q` in the field, all different, as the
/// degree of `q`.
pub open spec fn has_roots(q: Seq<u64>, d: Seq<u64>, bits: u32) -> bool {
    &&& d.no_duplicates()
    &&& d.len() + 1 == q.len()
    &&& forall|i: int| 0 <= i < d.len() ==> is_root(q, #[trigger] d[i], bits)
}

/// In a field, a polynomial that is zero at more places than it has
/// coefficients is zero.
pub proof fn lemma_vanishing_is_zero(r: Seq<u64>, d: Seq<u64>, bits: u32)
    requires
        1 <= bits <= 64,
        no_zero_divisors(bits),
        all_in_field(r, bits),
        r.len() <= d.len(),
        d.no_duplicates(),
        forall|i: int| 0 <= i < d.len() ==> in_field(#[trigger] d[i], bits) && horner(r, d[i], bits) == 0,
    ensures
        forall|j: int| 0 <= j < r.len() ==> r[j] == 0,
    decreases r.len(),
{
    if r.len() > 0 {
        if r[0] != 0 {
            lemma_factor(r, d, bits);
            assert(false);
        } else {
            let rest = r.skip(1);
            assert forall|i: int| 0 <= i < d.len() implies in_field(#[trigger] d[i], bits)
                && horner(rest, d[i], bits) == 0 by {
                lemma_leading_zeros(r, 1, d[i], bits);
            }
            assert forall|j: int| 0 <= j < rest.len() implies in_field(#[trigger] rest[j], bits) by {
                assert(rest[j] == r[j + 1]);
            }
            lemma_vanishing_is_zero(rest, d, bits);
            assert forall|j: int| 0 <= j < r.len() implies r[j] == 0 by {
                if j > 0 {
                    assert(rest[j - 1] == r[j]);
                }
            }
        }
    }
}

/// The polynomial `x`.
pub open spec fn identity() -> Seq<u64> {
    seq![1u64, 0u64]
}

/// The value of the polynomial `x` at `y` is `y`.
pub proof fn lemma_value_of_identity(y: u64, bits: u32)
    requires
        1 <= bits <= 64,
    ensures
        horner(identity(), y, bits) == y & crate::field::low_mask(bits),
{
    let p = identity();
    assert(p.drop_last() =~= seq![1u64]);
    assert(p.drop_last().drop_last() =~= Seq::<u64>::empty());
    assert(horner(p.drop_last().drop_last(), y, bits) == 0);
    lemma_mul_unit(y, bits);
    lemma_xor(1, 0, 0);
    assert(horner(p.drop_last(), y, bits) == 1);
    lemma_xor(gf_mul(1, y, bits), 0, 0);
}

/// In a field, a polynomial without leading zeros and with fewer
/// coefficients than `d` has values, that has the value `y` at each `y` of
/// `d`, is the polynomial `x`.
pub proof fn lemma_identity_on_roots(p: Seq<u64>, d: Seq<u64>, bits: u32)
    requires
        1 <= bits <= 64,
        no_zero_divisors(bits),
        all_in_field(p, bits),
        normal(p),
        p.len() <= d.len(),
        2 <= d.len(),
        d.no_duplicates(),
        forall|i: int| 0 <= i < d.len() ==> in_field(#[trigger] d[i], bits) && horner(p, d[i], bits) == d[i],
    ensures
        p == identity(),
{
    let n = d.len();
    let pp = Seq::new((n - p.len()) as nat, |j: int| 0u64) + p;
    let xx = Seq::new((n - 2) as nat, |j: int| 0u64) + identity();
    let r = poly_xor(pp, xx);
    lemma_mask(0, 0, bits);
    lemma_mask(1, 1, bits);
    assert forall|j: int| 0 <= j < r.len() implies in_field(#[trigger] r[j], bits) by {
        if j >= n - p.len() {
            assert(pp[j] == p[j - (n - p.len())]);
        }
        lemma_mask(pp[j], xx[j], bits);
    }
    assert forall|i: int| 0 <= i < d.len() implies in_field(#[trigger] d[i], bits) && horner(
        r,
        d[i],
        bits,
    ) == 0 by {
        let y = d[i];
        assert(horner(p, d[i], bits) == d[i]);
        lemma_value_of_sum(pp, xx, y, bits);
        lemma_leading_zeros(pp, n - p.len(), y, bits);
        assert(pp.skip(n - p.len()) =~= p);
        lemma_leading_zeros(xx, n - 2, y, bits);
        assert(xx.skip(n - 2) =~= identity());
        lemma_value_of_identity(y, bits);
        lemma_mask(y, y, bits);
        lemma_xor(y, 0, 0);
    }
    lemma_vanishing_is_zero(r, d, bits);
    assert forall|j: int| 0 <= j < n implies pp[j] == xx[j] by {
        assert(r[j] == 0);
        lemma_xor(pp[j], xx[j], 0);
        lemma_xor(xx[j], 0, 0);
    }
    assert(xx[n - 2] == 1);
    assert(xx[n - 1] == 0);
    if p.len() == 0 {
        assert(pp[n - 2] == 0);
    } else {
        let first = n - p.len();
        assert(pp[first] == p[0]);
        if first < n - 2 {
            assert(xx[first] == 0);
        }
        if first > n - 2 {
            assert(pp[n - 2] == 0);
        }
        assert(pp[n - 2] == p[0]);
        assert(pp[n - 1] == p[1]);
        assert(p =~= identity());
    }
}

/// Whether `x^(2^bits)` is `x` modulo `q`: in a field, it is so for every
/// polynomial that has as many roots in the field, all different, as its
/// degree.
fn splits(field: &Field, q: &Vec<u64>, inverse: u64) -> (ok: bool)
    requires
        field.wf(),
        3 <= q@.len() <= MAX_CAPACITY + 1,
        all_in_field(q@, field.spec_bits()),
        gf_mul(q@[0], inverse, field.spec_bits()) == 1,
    ensures
        ok <==> power_of_x(q@, inverse, field.spec_bits() as nat, field.spec_bits())
            == identity(),
        !ok && no_zero_divisors(field.spec_bits()) && frobenius_fixes(field.spec_bits())
            ==> forall|d: Seq<u64>| !has_roots(q@, d, field.spec_bits()),
{
    let bits: u32 = field.bits();
    let mut p: Vec<u64> = Vec::new();
    p.push(1);
    p.push(0);
    let mut k: u32 = 0;
    proof {
        lemma_mask(0, 0, bits);
        lemma_mask(1, 1, bits);
        assert(p@ =~= identity());
        assert forall|y: u64| #[trigger] horner(q@, y, bits) == 0 implies horner(p@, y, bits)
            == frobenius(y, 0, bits) by {
            lemma_value_of_identity(y, bits);
        }
    }
    while k < bits
        invariant
            field.wf(),
            bits == field.spec_bits(),
            k <= bits,
            3 <= q@.len() <= MAX_CAPACITY + 1,
            all_in_field(q@, bits),
            gf_mul(q@[0], inverse, bits) == 1,
            p@ == power_of_x(q@, inverse, k as nat, bits),
            p@.len() < q@.len(),
            normal(p@),
            all_in_field(p@, bits),
            forall|y: u64| #[trigger]
                horner(q@, y, bits) == 0 ==> horner(p@, y, bits) == frobenius(y, k as nat, bits),
        decreases bits - k,
    {
        let square: Vec<u64> = squared(field, &p);
        let ghost before = p@;
        let next: Vec<u64> = remainder(field, &square, q, inverse);
        proof {
            assert forall|y: u64| #[trigger] horner(q@, y, bits) == 0 implies horner(
                next@,
                y,
                bits,
            ) == frobenius(y, (k + 1) as nat, bits) by {
                lemma_value_of_square(before, y, bits);
                assert(same_value(next@, square@, y, bits));
            }
        }
        p = next;
        k = k + 1;
    }
    let ok: bool = p.len() == 2 && p[0] == 1 && p[1] == 0;
    proof {
        if ok {
            assert(p@ =~= identity());
        } else if p@ == identity() {
            assert(identity()[0] == 1 && identity()[1] == 0);
        }
        if !ok && no_zero_divisors(bits) && frobenius_fixes(bits) {
            assert forall|d: Seq<u64>| !has_roots(q@, d, bits) by {
                if has_roots(q@, d, bits) {
                    assert forall|i: int| 0 <= i < d.len() implies in_field(#[trigger] d[i], bits)
                        && horner(p@, d[i], bits) == d[i] by {
                        assert(is_root(q@, d[i], bits));
                        assert(frobenius(d[i], bits as nat, bits) == d[i]);
                    }
                    lemma_identity_on_roots(p@, d, bits);
                    assert(p@[0] == 1 && p@[1] == 0);
                }
            }
        }
    }
    ok
}

/// The monomials of degree below `bits` are field elements.
proof fn lemma_monomial_in_field(j: u32, bits: u32)
    by (bit_vector)
    requires
        j < bits <= 64,
    ensures
        1u64 << j <= crate::field::low_mask(bits),
{
}

/// In a field, as many roots, all different, as the degree of a polynomial
/// are all its roots.
pub proof fn lemma_all_roots(c: Seq<u64>, found: Seq<u64>, bits: u32)
    requires
        1 <= bits <= 64,
        no_zero_divisors(bits),
        all_in_field(c, bits),
        c.len() >= 1,
        c[0] != 0,
        has_roots(c, found, bits),
    ensures
        forall|x: u64| #[trigger] found.contains(x) <==> is_root(c, x, bits),
{
    assert forall|i: int| 0 <= i < found.len() implies in_field(#[trigger] found[i], bits) by {
        assert(is_root(c, found[i], bits));
    }
    assert forall|i: int| 0 <= i < found.len() implies horner(c, #[trigger] found[i], bits)
        == 0 by {
        assert(is_root(c, found[i], bits));
    }
    lemma_factor(c, found, bits);
    let q = cofactor(c, found, bits);
    assert forall|x: u64| #[trigger] found.contains(x) <==> is_root(c, x, bits) by {
        lemma_extended_value(q, found, x, bits);
        assert(q.drop_last() =~= Seq::<u64>::empty());
        assert(horner(q.drop_last(), x, bits) == 0);
        lemma_mul_unit(x, bits);
        lemma_xor(q[0], 0, 0);
        assert(horner(q, x, bits) == q[0]);
        assert(in_field(q[0], bits));
        if found.contains(x) {
            let i = choose|i: int| 0 <= i < found.len() && found[i] == x;
            assert(is_root(c, found[i], bits));
        } else if x != 0 && in_field(x, bits) {
            assert forall|i: int| 0 <= i < found.len() implies in_field(
                #[trigger] found[i],
                bits,
            ) && found[i] != x by {
                assert(found.contains(found[i]));
            }
            lemma_differences_off_roots(found, x, bits);
        }
    }
}

/// In a field, a polynomial with the constant term zero has fewer roots
/// other than zero than its degree.
pub proof fn lemma_root_at_zero(c: Seq<u64>, d: Seq<u64>, bits: u32)
    requires
        1 <= bits <= 64,
        no_zero_divisors(bits),
        all_in_field(c, bits),
        c.len() >= 1,
        c[0] != 0,
        c.last() == 0,
    ensures
        !has_roots(c, d, bits),
{
    if has_roots(c, d, bits) {
        let more = d.push(0);
        lemma_mask(0, 0, bits);
        lemma_mul_unit(horner(c.drop_last(), 0, bits), bits);
        lemma_xor(0, 0, 0);
        assert(horner(c, 0, bits) == 0);
        assert forall|i: int| 0 <= i < more.len() implies in_field(#[trigger] more[i], bits) by {
            if i < d.len() {
                assert(is_root(c, d[i], bits));
            }
        }
        assert forall|i: int| 0 <= i < more.len() implies horner(c, #[trigger] more[i], bits)
            == 0 by {
            if i < d.len() {
                assert(is_root(c, d[i], bits));
            }
        }
        assert forall|i: int, j: int| 0 <= i < more.len() && 0 <= j < more.len() && i != j implies more[i]
            != more[j] by {
            if i < d.len() {
                assert(is_root(c, d[i], bits));
            }
            if j < d.len() {
                assert(is_root(c, d[j], bits));
            }
        }
        lemma_factor(c, more, bits);
        assert(false);
    }
}

/// The sum of two polynomials.
fn poly_sum(a: &Vec<u64>, b: &Vec<u64>, bits: Ghost<u32>) -> (r: Vec<u64>)
    requires
        1 <= bits@ <= 64,
        all_in_field(a@, bits@),
        all_in_field(b@, bits@),
    ensures
        r@ == poly_add(a@, b@),
        all_in_field(r@, bits@),
        r@.len() <= a@.len() || r@.len() <= b@.len(),
{
    let n: usize = if a.len() > b.len() {
        a.len()
    } else {
        b.len()
    };
    let mut sum: Vec<u64> = Vec::new();
    let mut k: usize = 0;
    proof {
        lemma_mask(0, 0, bits@);
    }
    while k < n
        invariant
            1 <= bits@ <= 64,
            n >= a@.len(),
            n >= b@.len(),
            n == a@.len() || n == b@.len(),
            k <= n,
            sum@.len() == k,
            forall|j: int|
                0 <= j < k ==> #[trigger] sum@[j] == padded(a@, j, n as int) ^ padded(
                    b@,
                    j,
                    n as int,
                ),
            all_in_field(a@, bits@),
            all_in_field(b@, bits@),
            all_in_field(sum@, bits@),
        decreases n - k,
    {
        let x: u64 = if k >= n - a.len() {
            a[k - (n - a.len())]
        } else {
            0
        };
        let y: u64 = if k >= n - b.len() {
            b[k - (n - b.len())]
        } else {
            0
        };
        proof {
            if k >= n - a.len() {
                assert(in_field(a@[k - (n - a@.len())], bits@));
            }
            if k >= n - b.len() {
                assert(in_field(b@[k - (n - b@.len())], bits@));
            }
            lemma_mask(x, y, bits@);
        }
        sum.push(x ^ y);
        k = k + 1;
    }
    let r: Vec<u64> = trimmed(&sum);
    proof {
        assert(sum@ =~= Seq::new(
            n as nat,
            |k: int| padded(a@, k, n as int) ^ padded(b@, k, n as int),
        ));
        assert forall|k: int| 0 <= k < r@.len() implies in_field(#[trigger] r@[k], bits@) by {
            assert(r@[k] == sum@[k + sum@.len() - r@.len()]);
        }
    }
    r
}

/// The trace of `beta x` modulo `g`: the sum of its powers with the
/// exponents `1`, `2`, `4`, .. up to `2^(bits-1)`.
fn trace_modulo(field: &Field, g: &Vec<u64>, inverse: u64, beta: u64) -> (t: Vec<u64>)
    requires
        field.wf(),
        1 <= g@.len() <= MAX_CAPACITY + 1,
        all_in_field(g@, field.spec_bits()),
        gf_mul(g@[0], inverse, field.spec_bits()) == 1,
        in_field(beta, field.spec_bits()),
    ensures
        t@ == trace_sum(g@, inverse, beta, (field.spec_bits() - 1) as nat, field.spec_bits()),
        t@.len() < g@.len(),
        all_in_field(t@, field.spec_bits()),
{
    let bits: u32 = field.bits();
    let mut start: Vec<u64> = Vec::new();
    start.push(beta);
    start.push(0);
    proof {
        lemma_mask(0, 0, bits);
    }
    assert(start@ =~= seq![beta, 0u64]);
    let mut power: Vec<u64> = remainder(field, &start, g, inverse);
    let mut total: Vec<u64> = power.clone();
    assert(total@ =~= power@);
    let mut k: u32 = 1;
    while k < bits
        invariant
            field.wf(),
            bits == field.spec_bits(),
            1 <= k <= bits,
            1 <= g@.len() <= MAX_CAPACITY + 1,
            all_in_field(g@, bits),
            gf_mul(g@[0], inverse, bits) == 1,
            power@ == trace_power(g@, inverse, beta, (k - 1) as nat, bits),
            total@ == trace_sum(g@, inverse, beta, (k - 1) as nat, bits),
            power@.len() < g@.len(),
            total@.len() < g@.len(),
            all_in_field(power@, bits),
            all_in_field(total@, bits),
        decreases bits - k,
    {
        let square: Vec<u64> = squared(field, &power);
        power = remainder(field, &square, g, inverse);
        total = poly_sum(&total, &power, Ghost(bits));
        k = k + 1;
    }
    total
}

/// A common divisor of two polynomials, by the algorithm of Euclid; `None`
/// where a leading coefficient has no inverse.
fn common_divisor(field: &Field, a: &Vec<u64>, b: &Vec<u64>) -> (r: Option<Vec<u64>>)
    requires
        field.wf(),
        all_in_field(a@, field.spec_bits()),
        all_in_field(b@, field.spec_bits()),
    ensures
        r matches Some(g) ==> euclid(a@, b@, b@.len(), field.spec_bits()) == Some(g@),
        r is None ==> euclid(a@, b@, b@.len(), field.spec_bits()) is None,
        r matches Some(g) ==> all_in_field(g@, field.spec_bits()),
{
    let ghost bits = field.spec_bits();
    let ghost mut fuel: nat = b@.len();
    let mut high: Vec<u64> = a.clone();
    let mut low: Vec<u64> = b.clone();
    assert(high@ =~= a@);
    assert(low@ =~= b@);
    while low.len() > 0
        invariant
            field.wf(),
            bits == field.spec_bits(),
            all_in_field(high@, bits),
            all_in_field(low@, bits),
            low@.len() <= fuel,
            euclid(high@, low@, fuel, bits) == euclid(a@, b@, b@.len(), bits),
        decreases low@.len(),
    {
        match field.inv(low[0]) {
            None => {
                assert(crate::field::gf_inv(low@[0], bits) is None);
                assert(euclid(high@, low@, fuel, bits) is None);
                return None;
            },
            Some(inverse) => {
                let rest: Vec<u64> = remainder(field, &high, &low, inverse);
                proof {
                    assert(crate::field::gf_inv(low@[0], bits) == Some(inverse));
                    assert(euclid(high@, low@, fuel, bits) == euclid(
                        low@,
                        rest@,
                        (fuel - 1) as nat,
                        bits,
                    ));
                    fuel = (fuel - 1) as nat;
                }
                high = low;
                low = rest;
            },
        }
    }
    Some(high)
}

/// The division after one more step.
pub proof fn lemma_rem_steps_last(
    w: Seq<u64>,
    m: Seq<u64>,
    inverse: u64,
    j: nat,
    i: nat,
    bits: u32,
)
    requires
        j <= i,
    ensures
        rem_steps(w, m, inverse, j, i + 1, bits) == rem_step(
            rem_steps(w, m, inverse, j, i, bits),
            m,
            inverse,
            i as int,
            bits,
        ),
    decreases i - j,
{
    if j < i {
        lemma_rem_steps_last(rem_step(w, m, inverse, j as int, bits), m, inverse, j + 1, i, bits);
    } else {
        let next = rem_step(w, m, inverse, i as int, bits);
        assert(rem_steps(next, m, inverse, i + 1, i + 1, bits) == next);
    }
}

/// The quotient of `a` by `b`, by long division; `inverse` is the inverse of
/// the leading coefficient of `b`. Its coefficient `i` is what step `i` of
/// the division takes away, as a multiple of `b`.
pub open spec fn poly_quot(a: Seq<u64>, b: Seq<u64>, inverse: u64, bits: u32) -> Seq<u64> {
    Seq::new(
        (a.len() - b.len() + 1) as nat,
        |i: int| gf_mul(rem_steps(a, b, inverse, 0, i as nat, bits)[i], inverse, bits),
    )
}

/// The first split of `g` that the traces of the monomials give, tried from
/// the monomial `offset` places after trial `i` on: a common divisor of `g`
/// and a trace, of a degree between those of a constant and of `g`, and the
/// quotient of `g` by it. `None` where no trace splits `g`, or where a
/// leading coefficient has no inverse.
pub open spec fn first_split(g: Seq<u64>, inverse: u64, offset: u32, i: nat, bits: u32) -> Option<
    (Seq<u64>, Seq<u64>),
>
    decreases bits - i,
{
    if i >= bits {
        None
    } else {
        let beta = 1u64 << (((i + offset) % (bits as int)) as u32);
        let trace = trace_sum(g, inverse, beta, (bits - 1) as nat, bits);
        match euclid(g, trace, trace.len(), bits) {
            None => None,
            Some(h) => if 1 < h.len() < g.len() {
                match crate::field::gf_inv(h[0], bits) {
                    None => None,
                    Some(inverse_h) => Some((h, poly_quot(g, h, inverse_h, bits))),
                }
            } else {
                first_split(g, inverse, offset, i + 1, bits)
            },
        }
    }
}

/// What the splitting finds from the polynomials in `stack`, the last first,
/// in at most `fuel` steps: the root of each polynomial of degree one, and
/// what it finds from the two parts of each polynomial of a higher degree.
/// It stops where a polynomial does not split.
pub open spec fn split_run(
    stack: Seq<Seq<u64>>,
    found: Seq<u64>,
    fuel: nat,
    offset: u32,
    bits: u32,
) -> Seq<u64>
    decreases fuel,
{
    if stack.len() == 0 || fuel == 0 {
        found
    } else {
        let g = stack.last();
        let rest = stack.drop_last();
        if g.len() < 2 {
            split_run(rest, found, (fuel - 1) as nat, offset, bits)
        } else {
            match crate::field::gf_inv(g[0], bits) {
                None => found,
                Some(inverse) => if g.len() == 2 {
                    split_run(
                        rest,
                        found.push(gf_mul(g[1], inverse, bits)),
                        (fuel - 1) as nat,
                        offset,
                        bits,
                    )
                } else {
                    match first_split(g, inverse, offset, 0, bits) {
                        None => found,
                        Some(parts) => split_run(
                            rest.push(parts.0).push(parts.1),
                            found,
                            (fuel - 1) as nat,
                            offset,
                            bits,
                        ),
                    }
                },
            }
        }
    }
}

/// The polynomial `work` after the multiple `c x^k m` that starts at
/// coefficient `i` is added.
fn divide_step(field: &Field, work: &Vec<u64>, m: &Vec<u64>, c: u64, i: usize) -> (next: Vec<u64>)
    requires
        field.wf(),
        i + m@.len() <= work@.len(),
        all_in_field(work@, field.spec_bits()),
    ensures
        next@ == poly_xor(work@, placed(m@, c, i as int, work@.len(), field.spec_bits())),
        all_in_field(next@, field.spec_bits()),
{
    let ghost bits = field.spec_bits();
    let len: usize = work.len();
    let width: usize = m.len();
    let mut next: Vec<u64> = Vec::new();
    let mut j: usize = 0;
    while j < len
        invariant
            field.wf(),
            bits == field.spec_bits(),
            len == work@.len(),
            width == m@.len(),
            i + width <= len,
            j <= len,
            all_in_field(work@, bits),
            next@.len() == j,
            forall|k: int| 0 <= k < j ==> #[trigger] next@[k] == poly_xor(
                work@,
                placed(m@, c, i as int, len as nat, bits),
            )[k],
            all_in_field(next@, bits),
        decreases len - j,
    {
        let v: u64 = if i <= j && j < i + width {
            let t: u64 = field.mul(c, m[j - i]);
            proof {
                assert(in_field(work@[j as int], bits));
                lemma_mask(work@[j as int], t, bits);
            }
            work[j] ^ t
        } else {
            proof {
                assert(in_field(work@[j as int], bits));
                lemma_xor(work@[j as int], 0, 0);
            }
            work[j]
        };
        next.push(v);
        j = j + 1;
    }
    assert(next@ =~= poly_xor(work@, placed(m@, c, i as int, len as nat, bits)));
    next
}

/// The quotient of `a` by `b`, where `inverse` is the inverse of the leading
/// coefficient of `b`.
fn quotient_of(field: &Field, a: &Vec<u64>, b: &Vec<u64>, inverse: u64) -> (q: Vec<u64>)
    requires
        field.wf(),
        1 <= b@.len() <= a@.len(),
        all_in_field(a@, field.spec_bits()),
        all_in_field(b@, field.spec_bits()),
    ensures
        q@ == poly_quot(a@, b@, inverse, field.spec_bits()),
        q@.len() == a@.len() - b@.len() + 1,
        all_in_field(q@, field.spec_bits()),
{
    let ghost bits = field.spec_bits();
    let len: usize = a.len();
    let width: usize = b.len();
    let steps: usize = len - width + 1;
    let mut work: Vec<u64> = a.clone();
    assert(work@ =~= a@);
    let mut q: Vec<u64> = Vec::new();
    let mut i: usize = 0;
    while i < steps
        invariant
            field.wf(),
            bits == field.spec_bits(),
            len == a@.len(),
            width == b@.len(),
            width >= 1,
            work@.len() == len,
            steps + width == len + 1,
            i <= steps,
            q@.len() == i,
            work@ == rem_steps(a@, b@, inverse, 0, i as nat, bits),
            forall|k: int| 0 <= k < i ==> #[trigger] q@[k] == poly_quot(a@, b@, inverse, bits)[k],
            all_in_field(work@, bits),
            all_in_field(q@, bits),
        decreases steps - i,
    {
        let c: u64 = field.mul(work[i], inverse);
        q.push(c);
        proof {
            lemma_rem_steps_last(a@, b@, inverse, 0, i as nat, bits);
        }
        work = divide_step(field, &work, b, c, i);
        i = i + 1;
    }
    assert(q@ =~= poly_quot(a@, b@, inverse, bits));
    q
}

/// Values that may be the roots of the polynomial `q`, found by splitting
/// it; the seed decides with which split the search starts. They are to be
/// checked by the caller.
fn split_roots(field: &Field, q: &Vec<u64>, seed: u64) -> (found: Vec<u64>)
    requires
        field.wf(),
        1 <= q@.len() <= MAX_CAPACITY + 1,
        all_in_field(q@, field.spec_bits()),
    ensures
        found@ == split_run(
            seq![q@],
            Seq::empty(),
            (4 * q@.len() + 4) as nat,
            (seed % (field.spec_bits() as u64)) as u32,
            field.spec_bits(),
        ),
{
    let bits: u32 = field.bits();
    let ghost bound = q@.len();
    let offset: u32 = (seed % (bits as u64)) as u32;
    let mut found: Vec<u64> = Vec::new();
    let mut stack: Vec<Vec<u64>> = Vec::new();
    let first: Vec<u64> = q.clone();
    assert(first@ =~= q@);
    stack.push(first);
    let mut fuel: usize = 4 * q.len() + 4;
    let ghost mut model: Seq<Seq<u64>> = seq![q@];
    let ghost target = split_run(model, Seq::empty(), fuel as nat, offset, bits);
    assert(found@ =~= Seq::<u64>::empty());
    while stack.len() > 0 && fuel > 0
        invariant
            field.wf(),
            bits == field.spec_bits(),
            offset < bits,
            bound <= MAX_CAPACITY + 1,
            model.len() == stack@.len(),
            forall|i: int| 0 <= i < stack@.len() ==> #[trigger] model[i] == stack@[i]@,
            split_run(model, found@, fuel as nat, offset, bits) == target,
            target == split_run(
                seq![q@],
                Seq::empty(),
                (4 * q@.len() + 4) as nat,
                (seed % (bits as u64)) as u32,
                bits,
            ),
            offset == (seed % (bits as u64)) as u32,
            forall|i: int|
                0 <= i < stack@.len() ==> all_in_field(#[trigger] stack@[i]@, bits) && stack@[i]@.len()
                    <= bound,
        decreases fuel,
    {
        let ghost before = model;
        let ghost fuel_before = fuel as nat;
        fuel = fuel - 1;
        let g: Vec<u64> = stack.pop().unwrap();
        proof {
            model = before.drop_last();
            assert(before.last() == g@);
        }
        if g.len() < 2 {
            continue ;
        }
        let inverse: u64 = match field.inv(g[0]) {
            Some(inverse) => inverse,
            None => {
                assert(split_run(before, found@, fuel_before, offset, bits) == found@);
                return found;
            },
        };
        if g.len() == 2 {
            found.push(field.mul(g[1], inverse));
            continue ;
        }
        let mut split: bool = false;
        let mut high: Vec<u64> = Vec::new();
        let mut low: Vec<u64> = Vec::new();
        let mut i: u32 = 0;
        while i < bits && !split
            invariant
                field.wf(),
                bits == field.spec_bits(),
                offset < bits,
                i <= bits,
                bound <= MAX_CAPACITY + 1,
                3 <= g@.len() <= bound,
                all_in_field(g@, bits),
                gf_mul(g@[0], inverse, bits) == 1,
                !split ==> first_split(g@, inverse, offset, i as nat, bits) == first_split(
                    g@,
                    inverse,
                    offset,
                    0,
                    bits,
                ),
                split ==> first_split(g@, inverse, offset, 0, bits) == Some((high@, low@)),
                split ==> all_in_field(high@, bits) && all_in_field(low@, bits) && high@.len()
                    <= bound && low@.len() <= bound,
                before.len() >= 1,
                before.last() == g@,
                crate::field::gf_inv(g@[0], bits) == Some(inverse),
                split_run(before, found@, fuel_before, offset, bits) == target,
                fuel_before >= 1,
                target == split_run(
                    seq![q@],
                    Seq::empty(),
                    (4 * q@.len() + 4) as nat,
                    (seed % (bits as u64)) as u32,
                    bits,
                ),
                offset == (seed % (bits as u64)) as u32,
            decreases bits - i + (if split {
                0int
            } else {
                1int
            }),
        {
            let position: u32 = (i + offset) % bits;
            let beta: u64 = 1u64 << position;
            proof {
                lemma_monomial_in_field(position, bits);
                assert(position == ((i as nat + offset) % (bits as int)) as u32);
            }
            let trace: Vec<u64> = trace_modulo(field, &g, inverse, beta);
            match common_divisor(field, &g, &trace) {
                None => {
                    assert(first_split(g@, inverse, offset, i as nat, bits) is None);
                    assert(split_run(before, found@, fuel_before, offset, bits) == found@);
                    return found;
                },
                Some(h) => {
                    if h.len() > 1 && h.len() < g.len() {
                        match field.inv(h[0]) {
                            None => {
                                assert(first_split(g@, inverse, offset, i as nat, bits) is None);
                                assert(split_run(before, found@, fuel_before, offset, bits)
                                    == found@);
                                return found;
                            },
                            Some(inverse_h) => {
                                let k: Vec<u64> = quotient_of(field, &g, &h, inverse_h);
                                assert(first_split(g@, inverse, offset, i as nat, bits) == Some(
                                    (h@, k@),
                                ));
                                high = h;
                                low = k;
                                split = true;
                            },
                        }
                    } else {
                        assert(first_split(g@, inverse, offset, i as nat, bits) == first_split(
                            g@,
                            inverse,
                            offset,
                            (i + 1) as nat,
                            bits,
                        ));
                    }
                },
            }
            i = i + 1;
        }
        if !split {
            assert(first_split(g@, inverse, offset, 0, bits) is None);
            assert(split_run(before, found@, fuel_before, offset, bits) == found@);
            return found;
        }
        proof {
            model = model.push(high@).push(low@);
        }
        stack.push(high);
        stack.push(low);
    }
    found
}

/// Whether `found` lists as many roots of `c`, all different, as the degree
/// of `c`.
fn check_roots(field: &Field, c: &Vec<u64>, found: &Vec<u64>) -> (ok: bool)
    requires
        field.wf(),
    ensures
        ok <==> has_roots(c@, found@, field.spec_bits()),
{
    let ghost bits = field.spec_bits();
    if c.len() == 0 || found.len() != c.len() - 1 {
        return false;
    }
    let mask: u64 = field.mask();
    let mut i: usize = 0;
    while i < found.len()
        invariant
            field.wf(),
            bits == field.spec_bits(),
            mask == crate::field::low_mask(bits),
            i <= found.len(),
            forall|k: int| 0 <= k < i ==> is_root(c@, #[trigger] found@[k], bits),
            forall|k: int, l: int| 0 <= k < l < i ==> found@[k] != found@[l],
        decreases found.len() - i,
    {
        let x: u64 = found[i];
        if x == 0 || x > mask {
            assert(!is_root(c@, found@[i as int], bits));
            return false;
        }
        if evaluate(field, c, x) != 0 {
            assert(!is_root(c@, found@[i as int], bits));
            return false;
        }
        let mut j: usize = 0;
        while j < i
            invariant
                j <= i,
                i < found.len(),
                x == found@[i as int],
                forall|k: int| 0 <= k < j ==> found@[k] != x,
            decreases i - j,
        {
            if found[j] == x {
                assert(found@[j as int] == found@[i as int]);
                return false;
            }
            j = j + 1;
        }
        i = i + 1;
    }
    true
}

/// The roots of the polynomial `c` other than zero, each once; `None` if
/// there are fewer of them than the degree of `c`. The seed decides where
/// the search starts, and so the order of the roots.
///
/// In a field that is confirmed to be one the roots are found by splitting
/// the polynomial: that there are fewer roots than the degree is known where
/// the constant term is zero or the polynomial does not divide
/// `x^(2^bits) - x`, and the values that the splitting finds are all the
/// roots if they are roots, all different and as many as the degree. Should
/// the field not be confirmed, or the splitting not find the roots, every
/// element of the field is tried.
pub(crate) fn roots_by_splitting(field: &Field, c: &Vec<u64>, seed: u64) -> (r: Option<Vec<u64>>)
    requires
        field.wf(),
        1 <= c@.len() <= MAX_CAPACITY + 1,
        all_in_field(c@, field.spec_bits()),
        c@.len() == 1 ==> c@ == seq![1u64],
    ensures
        r matches Some(found) ==> {
            &&& found@.no_duplicates()
            &&& forall|x: u64| #[trigger] found@.contains(x) <==> is_root(c@, x, field.spec_bits())
        },
        r is None ==> forall|d: Seq<u64>| !has_roots(c@, d, field.spec_bits()),
{
    let ghost bits = field.spec_bits();
    if c.len() >= 2 && field.certify() {
        match field.inv(c[0]) {
            Some(inverse) => {
                proof {
                    lemma_mul_unit(inverse, bits);
                    assert(c@[0] != 0);
                }
                if c[c.len() - 1] == 0 {
                    proof {
                        assert forall|d: Seq<u64>| !has_roots(c@, d, bits) by {
                            lemma_root_at_zero(c@, d, bits);
                        }
                    }
                    return None;
                }
                if c.len() >= 3 {
                    if !splits(field, c, inverse) {
                        return None;
                    }
                }
                let found: Vec<u64> = split_roots(field, c, seed);
                if check_roots(field, c, &found) {
                    proof {
                        lemma_all_roots(c@, found@, bits);
                    }
                    return Some(found);
                }
            },
            None => {},
        }
    }
    Some(scan_roots(field, seed, c))
}

/// The roots of the polynomial `c`, in the order that the seed gives.
///
/// Every field element is tried, so the time taken grows with the size of the
/// field.
fn scan_roots(field: &Field, seed: u64, c: &Vec<u64>) -> (found: Vec<u64>)
    requires
        field.wf(),
        c@.len() == 1 ==> c@ == seq![1u64],
    ensures
        found@.no_duplicates(),
        forall|x: u64| #[trigger] found@.contains(x) <==> is_root(c@, x, field.spec_bits()),
{
    let ghost bits = field.spec_bits();
    let mut found: Vec<u64> = Vec::new();
    if c.len() == 1 {
        proof {
            assert forall|x: u64| !is_root(c@, x, bits) by {
                lemma_constant_has_no_root(x, bits);
            }
        }
        return found;
    }
    let mask: u64 = field.mask();
    let start: u64 = seed & mask;
    let mut i: u128 = 0;
    proof {
        lemma_mask(seed, seed, bits);
    }
    while i <= mask as u128
        invariant
            field.wf(),
            bits == field.spec_bits(),
            mask == low_mask(bits),
            start <= mask,
            i <= mask + 1,
            found@.no_duplicates(),
            forall|x: u64| #[trigger]
                found@.contains(x) <==> is_root(c@, x, bits) && (x ^ start) < i,
        decreases mask + 1 - i,
    {
        let x: u64 = (i as u64) ^ start;
        let ghost before = found@;
        proof {
            lemma_xor(i as u64, start, 0);
            lemma_mask(i as u64, start, bits);
        }
        let mut is_new: bool = false;
        if x != 0 {
            if evaluate(field, c, x) == 0 {
                found.push(x);
                is_new = true;
            }
        }
        proof {
            assert(is_new <==> is_root(c@, x, bits));
            assert forall|y: u64| #[trigger]
                found@.contains(y) <==> is_root(c@, y, bits) && (y ^ start) < i + 1 by {
                lemma_xor(y, start, i as u64);
                if is_new {
                    lemma_contains_push(before, x, y);
                }
            }
            if is_new {
                assert(!before.contains(x));
                assert forall|p: int, q: int|
                    0 <= p < found@.len() && 0 <= q < found@.len() && p != q implies found@[p]
                    != found@[q] by {
                    if p < before.len() {
                        assert(before.contains(before[p]));
                    }
                    if q < before.len() {
                        assert(before.contains(before[q]));
                    }
                }
            }
        }
        i = i + 1;
    }
    proof {
        assert forall|y: u64| #[trigger] found@.contains(y) <==> is_root(c@, y, bits) by {
            lemma_mask(y, start, bits);
        }
    }
    found
}

} // verus!
