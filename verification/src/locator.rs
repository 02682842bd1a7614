//! The locator of a sketch: the polynomial whose roots are its elements.
//!
//! The power sums `s_1, s_2, ..` of a set of field elements obey a linear
//! recurrence, and the shortest recurrence that the power sums of a sketch
//! obey tells which elements the sketch holds. The register synthesis of
//! Berlekamp and Massey finds it: coefficients `c_0, .., c_L` with
//! `c_0 s_n + c_1 s_(n-1) + .. + c_L s_(n-L) = 0` for every `n` that the
//! power sums at hand allow. It is run here without divisions, so `c_0` is not
//! one in general. The elements of the sketch are the roots of the polynomial
//! `c_0 x^L + c_1 x^(L-1) + .. + c_L`.

use crate::field::{gf_mul, in_field, lemma_mask, lemma_mul_in_field, lemma_xor, Field};
use crate::ring::lemma_mul_unit;
use crate::sketch::MAX_CAPACITY;
use crate::sums::{all_in_field, zeros};
use vstd::prelude::*;

verus! {

/// Coefficient `i` of a polynomial: zero outside the sequence.
pub open spec fn coefficient(p: Seq<u64>, i: int) -> u64 {
    if 0 <= i < p.len() {
        p[i]
    } else {
        0
    }
}

/// The power sum of the given order, from the power sums of odd order that a
/// sketch holds: the one of order `2k` is the square of the one of order `k`.
pub open spec fn power_sum(syndromes: Seq<u64>, order: nat, bits: u32) -> u64
    decreases order,
{
    if order == 0 {
        0
    } else if order % 2 == 1 {
        coefficient(syndromes, (order - 1) / 2)
    } else {
        let root = power_sum(syndromes, order / 2, bits);
        gf_mul(root, root, bits)
    }
}

/// The power sums of the orders from 1 to twice the capacity.
pub open spec fn all_power_sums(syndromes: Seq<u64>, bits: u32) -> Seq<u64> {
    Seq::new(2 * syndromes.len(), |j: int| power_sum(syndromes, (j + 1) as nat, bits))
}

/// The state of the register synthesis.
pub struct Register {
    /// The recurrence found so far.
    pub current: Seq<u64>,
    /// The recurrence before the last change of length.
    pub previous: Seq<u64>,
    /// The number of steps since `previous` was current, plus one.
    pub gap: nat,
    /// The discrepancy at which `previous` was replaced.
    pub scale: u64,
}

/// The sum of the first `count` terms of the recurrence `c` at place `n` of
/// the sequence `s`. Terms outside the sequence count as zero.
pub open spec fn discrepancy_upto(s: Seq<u64>, c: Seq<u64>, n: int, count: nat, bits: u32) -> u64
    decreases count,
{
    if count == 0 {
        0
    } else {
        discrepancy_upto(s, c, n, (count - 1) as nat, bits) ^ gf_mul(
            coefficient(c, count - 1),
            coefficient(s, n - (count - 1)),
            bits,
        )
    }
}

/// By how much the recurrence `c` fails at place `n` of the sequence `s`.
pub open spec fn discrepancy(s: Seq<u64>, c: Seq<u64>, n: int, bits: u32) -> u64 {
    discrepancy_upto(s, c, n, c.len(), bits)
}

/// The polynomial `scale * c - d * x^gap * b`, with `len` coefficients.
pub open spec fn combine(
    c: Seq<u64>,
    b: Seq<u64>,
    gap: nat,
    scale: u64,
    d: u64,
    len: nat,
    bits: u32,
) -> Seq<u64> {
    Seq::new(
        len,
        |i: int|
            gf_mul(scale, coefficient(c, i), bits) ^ gf_mul(d, coefficient(b, i - gap), bits),
    )
}

/// One step of the synthesis: the recurrence is made to hold at place `n`.
pub open spec fn bm_step(r: Register, s: Seq<u64>, n: nat, bits: u32) -> Register {
    let d = discrepancy(s, r.current, n as int, bits);
    if d == 0 {
        Register { current: r.current, previous: r.previous, gap: r.gap + 1, scale: r.scale }
    } else if 2 * (r.current.len() - 1) <= n {
        Register {
            current: combine(
                r.current,
                r.previous,
                r.gap,
                r.scale,
                d,
                (n + 3 - r.current.len()) as nat,
                bits,
            ),
            previous: r.current,
            gap: 1,
            scale: d,
        }
    } else {
        Register {
            current: combine(r.current, r.previous, r.gap, r.scale, d, r.current.len(), bits),
            previous: r.previous,
            gap: r.gap + 1,
            scale: r.scale,
        }
    }
}

/// The state of the synthesis after the first `n` terms of `s`.
pub open spec fn bm_run(s: Seq<u64>, n: nat, bits: u32) -> Register
    decreases n,
{
    if n == 0 {
        Register { current: seq![1u64], previous: seq![1u64], gap: 1, scale: 1 }
    } else {
        bm_step(bm_run(s, (n - 1) as nat, bits), s, (n - 1) as nat, bits)
    }
}

/// The locator of a sketch, its coefficients listed from the highest power
/// down.
pub open spec fn locator(syndromes: Seq<u64>, bits: u32) -> Seq<u64> {
    bm_run(all_power_sums(syndromes, bits), 2 * syndromes.len(), bits).current
}

/// The value at `x` of the polynomial with the coefficients `c`, listed from
/// the highest power down.
pub open spec fn horner(c: Seq<u64>, x: u64, bits: u32) -> u64
    decreases c.len(),
{
    if c.len() == 0 {
        0
    } else {
        gf_mul(horner(c.drop_last(), x, bits), x, bits) ^ c.last()
    }
}

/// Whether `x` is a field element other than zero at which the polynomial `c`
/// is zero.
pub open spec fn is_root(c: Seq<u64>, x: u64, bits: u32) -> bool {
    x != 0 && in_field(x, bits) && horner(c, x, bits) == 0
}

/// The shape of the state of the synthesis.
pub open spec fn register_shape(r: Register, n: nat, bits: u32) -> bool {
    &&& 1 <= r.current.len() <= n + 1
    &&& 1 <= r.previous.len()
    &&& 1 <= r.gap
    &&& r.previous.len() + r.gap + r.current.len() == n + 3
    &&& r.current.len() == 1 ==> r.current == seq![1u64]
    &&& all_in_field(r.current, bits)
    &&& all_in_field(r.previous, bits)
}

/// A combination of polynomials has field elements as coefficients.
pub proof fn lemma_combine_in_field(
    c: Seq<u64>,
    b: Seq<u64>,
    gap: nat,
    scale: u64,
    d: u64,
    len: nat,
    bits: u32,
)
    requires
        1 <= bits <= 64,
    ensures
        all_in_field(combine(c, b, gap, scale, d, len, bits), bits),
{
    let r = combine(c, b, gap, scale, d, len, bits);
    assert forall|i: int| 0 <= i < len implies in_field(#[trigger] r[i], bits) by {
        let left = gf_mul(scale, coefficient(c, i), bits);
        let right = gf_mul(d, coefficient(b, i - gap), bits);
        lemma_mul_in_field(scale, coefficient(c, i), bits);
        lemma_mul_in_field(d, coefficient(b, i - gap), bits);
        lemma_mask(left, right, bits);
    }
}

/// One step keeps the shape of the state.
pub proof fn lemma_step_shape(r: Register, s: Seq<u64>, n: nat, bits: u32)
    requires
        1 <= bits <= 64,
        register_shape(r, n, bits),
    ensures
        register_shape(bm_step(r, s, n, bits), n + 1, bits),
{
    let d = discrepancy(s, r.current, n as int, bits);
    if d != 0 {
        if 2 * (r.current.len() - 1) <= n {
            lemma_combine_in_field(
                r.current,
                r.previous,
                r.gap,
                r.scale,
                d,
                (n + 3 - r.current.len()) as nat,
                bits,
            );
        } else {
            lemma_combine_in_field(
                r.current,
                r.previous,
                r.gap,
                r.scale,
                d,
                r.current.len(),
                bits,
            );
        }
    }
}

/// The state has its shape after any number of steps.
pub proof fn lemma_run_shape(s: Seq<u64>, n: nat, bits: u32)
    requires
        1 <= bits <= 64,
    ensures
        register_shape(bm_run(s, n, bits), n, bits),
    decreases n,
{
    if n == 0 {
        lemma_mask(1, 1, bits);
    } else {
        lemma_run_shape(s, (n - 1) as nat, bits);
        lemma_step_shape(bm_run(s, (n - 1) as nat, bits), s, (n - 1) as nat, bits);
    }
}

/// By how much the recurrence `c` fails at place `n` of the sequence `s`.
fn discrepancy_at(field: &Field, s: &Vec<u64>, c: &Vec<u64>, n: usize) -> (d: u64)
    requires
        field.wf(),
        n < s.len(),
        c.len() <= n + 1,
    ensures
        d == discrepancy(s@, c@, n as int, field.spec_bits()),
{
    let mut d: u64 = 0;
    let mut i: usize = 0;
    while i < c.len()
        invariant
            field.wf(),
            n < s.len(),
            c.len() <= n + 1,
            i <= c.len(),
            d == discrepancy_upto(s@, c@, n as int, i as nat, field.spec_bits()),
        decreases c.len() - i,
    {
        let term: u64 = field.mul(c[i], s[n - i]);
        d = d ^ term;
        i = i + 1;
    }
    d
}

/// The polynomial `scale * c - d * x^gap * b`, with `len` coefficients.
fn combine_into(
    field: &Field,
    c: &Vec<u64>,
    b: &Vec<u64>,
    gap: usize,
    scale: u64,
    d: u64,
    len: usize,
) -> (r: Vec<u64>)
    requires
        field.wf(),
    ensures
        r@ == combine(c@, b@, gap as nat, scale, d, len as nat, field.spec_bits()),
{
    let ghost bits = field.spec_bits();
    let mut r: Vec<u64> = Vec::new();
    let mut i: usize = 0;
    while i < len
        invariant
            field.wf(),
            bits == field.spec_bits(),
            i <= len,
            r@ == combine(c@, b@, gap as nat, scale, d, i as nat, bits),
        decreases len - i,
    {
        let left: u64 = if i < c.len() {
            field.mul(scale, c[i])
        } else {
            proof {
                lemma_mul_unit(scale, bits);
            }
            0
        };
        let right: u64 = if i >= gap && i - gap < b.len() {
            field.mul(d, b[i - gap])
        } else {
            proof {
                lemma_mul_unit(d, bits);
            }
            0
        };
        r.push(left ^ right);
        i = i + 1;
        assert(r@ =~= combine(c@, b@, gap as nat, scale, d, i as nat, bits));
    }
    r
}

/// The recurrence that the synthesis finds for the sequence `s`.
pub(crate) fn synthesize(field: &Field, s: &Vec<u64>) -> (c: Vec<u64>)
    requires
        field.wf(),
        s.len() <= 2 * MAX_CAPACITY,
    ensures
        c@ == bm_run(s@, s@.len(), field.spec_bits()).current,
        1 <= c@.len() <= s@.len() + 1,
        c@.len() == 1 ==> c@ == seq![1u64],
        all_in_field(c@, field.spec_bits()),
{
    let ghost bits = field.spec_bits();
    let mut current: Vec<u64> = Vec::new();
    current.push(1);
    let mut previous: Vec<u64> = Vec::new();
    previous.push(1);
    let mut gap: usize = 1;
    let mut scale: u64 = 1;
    let mut n: usize = 0;
    assert(current@ =~= seq![1u64]);
    assert(previous@ =~= seq![1u64]);
    while n < s.len()
        invariant
            field.wf(),
            bits == field.spec_bits(),
            s.len() <= 2 * MAX_CAPACITY,
            n <= s.len(),
            bm_run(s@, n as nat, bits) == (Register {
                current: current@,
                previous: previous@,
                gap: gap as nat,
                scale,
            }),
        decreases s.len() - n,
    {
        proof {
            lemma_run_shape(s@, n as nat, bits);
            lemma_run_shape(s@, (n + 1) as nat, bits);
        }
        let d: u64 = discrepancy_at(field, s, &current, n);
        if d == 0 {
            gap = gap + 1;
        } else if 2 * (current.len() - 1) <= n {
            let next: Vec<u64> = combine_into(
                field,
                &current,
                &previous,
                gap,
                scale,
                d,
                n + 3 - current.len(),
            );
            previous = current;
            current = next;
            gap = 1;
            scale = d;
        } else {
            let next: Vec<u64> = combine_into(
                field,
                &current,
                &previous,
                gap,
                scale,
                d,
                current.len(),
            );
            current = next;
            gap = gap + 1;
        }
        n = n + 1;
    }
    proof {
        lemma_run_shape(s@, s@.len(), bits);
    }
    current
}

/// The value at `x` of the polynomial with the coefficients `c`, listed from
/// the highest power down.
pub(crate) fn evaluate(field: &Field, c: &Vec<u64>, x: u64) -> (v: u64)
    requires
        field.wf(),
    ensures
        v == horner(c@, x, field.spec_bits()),
{
    let mut v: u64 = 0;
    let mut k: usize = 0;
    assert(c@.take(0) =~= Seq::<u64>::empty());
    while k < c.len()
        invariant
            field.wf(),
            k <= c.len(),
            v == horner(c@.take(k as int), x, field.spec_bits()),
        decreases c.len() - k,
    {
        let shifted: u64 = field.mul(v, x);
        assert(c@.take(k + 1).drop_last() =~= c@.take(k as int));
        v = shifted ^ c[k];
        k = k + 1;
    }
    assert(c@.take(c@.len() as int) =~= c@);
    v
}

/// The power sums of the orders from 1 to twice the capacity.
pub(crate) fn expand(field: &Field, syndromes: &Vec<u64>) -> (s: Vec<u64>)
    requires
        field.wf(),
        syndromes.len() <= MAX_CAPACITY,
    ensures
        s@ == all_power_sums(syndromes@, field.spec_bits()),
{
    let ghost bits = field.spec_bits();
    let total: usize = 2 * syndromes.len();
    let mut s: Vec<u64> = Vec::new();
    let mut j: usize = 0;
    while j < total
        invariant
            field.wf(),
            bits == field.spec_bits(),
            total == 2 * syndromes.len(),
            syndromes.len() <= MAX_CAPACITY,
            j <= total,
            s@.len() == j,
            forall|i: int| 0 <= i < j ==> #[trigger] s@[i] == power_sum(
                syndromes@,
                (i + 1) as nat,
                bits,
            ),
        decreases total - j,
    {
        let order: usize = j + 1;
        let value: u64 = if order % 2 == 1 {
            syndromes[(order - 1) / 2]
        } else {
            let root: u64 = s[order / 2 - 1];
            field.mul(root, root)
        };
        s.push(value);
        j = j + 1;
    }
    assert(s@ =~= all_power_sums(syndromes@, bits));
    s
}

/// All power sums of the sketch of nothing are zero.
pub proof fn lemma_power_sum_of_zeros(capacity: nat, order: nat, bits: u32)
    requires
        1 <= bits <= 64,
    ensures
        power_sum(zeros(capacity), order, bits) == 0,
    decreases order,
{
    if order != 0 && order % 2 == 0 {
        lemma_power_sum_of_zeros(capacity, order / 2, bits);
        lemma_mul_unit(0, bits);
    }
}

/// Every recurrence holds of a sequence of zeros.
pub proof fn lemma_discrepancy_of_zeros(s: Seq<u64>, c: Seq<u64>, n: int, count: nat, bits: u32)
    requires
        1 <= bits <= 64,
        forall|i: int| 0 <= i < s.len() ==> s[i] == 0,
    ensures
        discrepancy_upto(s, c, n, count, bits) == 0,
    decreases count,
{
    if count > 0 {
        lemma_discrepancy_of_zeros(s, c, n, (count - 1) as nat, bits);
        lemma_mul_unit(coefficient(c, count - 1), bits);
        lemma_xor(0, 0, 0);
    }
}

/// The synthesis leaves the recurrence of length zero as it is while the
/// sequence is zero.
pub proof fn lemma_run_on_zeros(s: Seq<u64>, n: nat, bits: u32)
    requires
        1 <= bits <= 64,
        forall|i: int| 0 <= i < s.len() ==> s[i] == 0,
    ensures
        bm_run(s, n, bits).current == seq![1u64],
    decreases n,
{
    if n > 0 {
        lemma_run_on_zeros(s, (n - 1) as nat, bits);
        let r = bm_run(s, (n - 1) as nat, bits);
        lemma_discrepancy_of_zeros(s, r.current, n - 1, r.current.len(), bits);
    }
}

/// The locator of the sketch of nothing is the constant one.
pub proof fn lemma_locator_of_zeros(capacity: nat, bits: u32)
    requires
        1 <= bits <= 64,
    ensures
        locator(zeros(capacity), bits) == seq![1u64],
{
    let s = all_power_sums(zeros(capacity), bits);
    assert forall|i: int| 0 <= i < s.len() implies s[i] == 0 by {
        lemma_power_sum_of_zeros(capacity, (i + 1) as nat, bits);
    }
    lemma_run_on_zeros(s, 2 * capacity, bits);
}

/// The constant one has no root.
pub proof fn lemma_constant_has_no_root(x: u64, bits: u32)
    requires
        1 <= bits <= 64,
    ensures
        !is_root(seq![1u64], x, bits),
{
    let c = seq![1u64];
    assert(c.drop_last() =~= Seq::<u64>::empty());
    assert(horner(c.drop_last(), x, bits) == 0);
    assert(c.last() == 1);
    lemma_mul_unit(x, bits);
    lemma_xor(1, 0, 0);
}

} // verus!
