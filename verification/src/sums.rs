//! What a sketch holds: the power sums of odd order of its elements.
//!
//! A sketch of capacity `c` over `GF(2^bits)` is a sequence of `c` field
//! elements. The sketch of one element `x` holds `x`, `x^3`, `x^5` and so on,
//! up to `x^(2c-1)`; the sketch of several elements is the sum of their
//! sketches. The power sums of even order are not stored: in a field of
//! characteristic two, the sum of the `2k`-th powers is the square of the sum
//! of the `k`-th powers.
//!
//! Since every field element is its own opposite, adding an element a second
//! time takes it out again: a sketch stands for the set of the elements that
//! were added an odd number of times.

use crate::field::{gf_pow, in_field, lemma_mask, lemma_xor};
use crate::ring::{lemma_pow_in_field, lemma_pow_of_zero, lemma_pow_truncates};
use vstd::prelude::*;

verus! {

/// The power of `x` of the `k`-th odd order, `x^(2k+1)`, in `GF(2^bits)`.
pub open spec fn odd_power(x: u64, k: nat, bits: u32) -> u64 {
    gf_pow(x, 2 * k + 1, bits)
}

/// The sketch of the single element `x`.
pub open spec fn element_sketch(x: u64, bits: u32, capacity: nat) -> Seq<u64> {
    Seq::new(capacity, |k: int| odd_power(x, k as nat, bits))
}

/// The sketch of nothing.
pub open spec fn zeros(capacity: nat) -> Seq<u64> {
    Seq::new(capacity, |k: int| 0u64)
}

/// The sum of two sketches, term by term. The result is as long as `a`.
pub open spec fn xor_seq(a: Seq<u64>, b: Seq<u64>) -> Seq<u64> {
    Seq::new(a.len(), |k: int| a[k] ^ b[k])
}

/// The sketch that results from adding the given elements, one after the
/// other, to an empty sketch.
pub open spec fn sketch_of(elements: Seq<u64>, bits: u32, capacity: nat) -> Seq<u64>
    decreases elements.len(),
{
    if elements.len() == 0 {
        zeros(capacity)
    } else {
        xor_seq(
            sketch_of(elements.drop_last(), bits, capacity),
            element_sketch(elements.last(), bits, capacity),
        )
    }
}

/// Whether every term of a sketch is an element of `GF(2^bits)`.
pub open spec fn all_in_field(s: Seq<u64>, bits: u32) -> bool {
    forall|k: int| 0 <= k < s.len() ==> in_field(#[trigger] s[k], bits)
}

/// Adding the same sketch twice changes nothing.
pub proof fn lemma_xor_seq_twice(s: Seq<u64>, p: Seq<u64>)
    requires
        s.len() == p.len(),
    ensures
        xor_seq(xor_seq(s, p), p) == s,
{
    assert forall|k: int| 0 <= k < s.len() implies (s[k] ^ p[k]) ^ p[k] == s[k] by {
        lemma_xor(s[k], p[k], 0);
    }
    assert(xor_seq(xor_seq(s, p), p) =~= s);
}

/// The sum of a sketch and itself is the sketch of nothing.
pub proof fn lemma_xor_seq_self(s: Seq<u64>)
    ensures
        xor_seq(s, s) == zeros(s.len()),
{
    assert forall|k: int| 0 <= k < s.len() implies s[k] ^ s[k] == 0 by {
        lemma_xor(s[k], 0, 0);
    }
    assert(xor_seq(s, s) =~= zeros(s.len()));
}

/// The sketch of nothing is the unit of the sum.
pub proof fn lemma_xor_seq_zeros(s: Seq<u64>)
    ensures
        xor_seq(s, zeros(s.len())) == s,
        xor_seq(zeros(s.len()), s) == s,
{
    assert forall|k: int| 0 <= k < s.len() implies s[k] ^ 0 == s[k] && 0 ^ s[k] == s[k] by {
        lemma_xor(s[k], 0, 0);
    }
    assert(xor_seq(s, zeros(s.len())) =~= s);
    assert(xor_seq(zeros(s.len()), s) =~= s);
}

/// The sum of sketches is commutative and associative.
pub proof fn lemma_xor_seq_laws(a: Seq<u64>, b: Seq<u64>, c: Seq<u64>)
    requires
        a.len() == b.len(),
        b.len() == c.len(),
    ensures
        xor_seq(a, b) == xor_seq(b, a),
        xor_seq(xor_seq(a, b), c) == xor_seq(a, xor_seq(b, c)),
{
    assert forall|k: int| 0 <= k < a.len() implies a[k] ^ b[k] == b[k] ^ a[k] && (a[k] ^ b[k])
        ^ c[k] == a[k] ^ (b[k] ^ c[k]) by {
        lemma_xor(a[k], b[k], c[k]);
    }
    assert(xor_seq(a, b) =~= xor_seq(b, a));
    assert(xor_seq(xor_seq(a, b), c) =~= xor_seq(a, xor_seq(b, c)));
}

/// The sum of two sketches over a field is a sketch over that field.
pub proof fn lemma_xor_seq_in_field(a: Seq<u64>, b: Seq<u64>, bits: u32)
    requires
        1 <= bits <= 64,
        a.len() <= b.len(),
        all_in_field(a, bits),
        all_in_field(b, bits),
    ensures
        all_in_field(xor_seq(a, b), bits),
{
    assert forall|k: int| 0 <= k < a.len() implies in_field(#[trigger] xor_seq(a, b)[k], bits) by {
        assert(in_field(a[k], bits) && in_field(b[k], bits));
        lemma_mask(a[k], b[k], bits);
    }
}

/// The sketch of an element depends on its `bits` lowest bits only, holds
/// field elements only, and is the sketch of nothing where those bits are
/// zero.
pub proof fn lemma_element_sketch(x: u64, bits: u32, capacity: nat)
    requires
        1 <= bits <= 64,
    ensures
        element_sketch(x & crate::field::low_mask(bits), bits, capacity) == element_sketch(
            x,
            bits,
            capacity,
        ),
        all_in_field(element_sketch(x, bits, capacity), bits),
        x & crate::field::low_mask(bits) == 0 ==> element_sketch(x, bits, capacity) == zeros(
            capacity,
        ),
{
    let m = crate::field::low_mask(bits);
    let whole = element_sketch(x, bits, capacity);
    let cut = element_sketch(x & m, bits, capacity);
    assert forall|k: int| 0 <= k < capacity implies #[trigger] cut[k] == whole[k] && in_field(
        whole[k],
        bits,
    ) && (x & m == 0 ==> whole[k] == 0) by {
        lemma_pow_truncates(x, 2 * (k as nat) + 1, bits);
        lemma_pow_in_field(x, 2 * (k as nat) + 1, bits);
        lemma_pow_of_zero(2 * (k as nat) + 1, bits);
    }
    assert(element_sketch(x & m, bits, capacity) =~= element_sketch(x, bits, capacity));
    if x & m == 0 {
        assert(element_sketch(x, bits, capacity) =~= zeros(capacity));
    }
}

/// A sketch of elements has the asked capacity and holds field elements only.
pub proof fn lemma_sketch_of_shape(elements: Seq<u64>, bits: u32, capacity: nat)
    requires
        1 <= bits <= 64,
    ensures
        sketch_of(elements, bits, capacity).len() == capacity,
        all_in_field(sketch_of(elements, bits, capacity), bits),
    decreases elements.len(),
{
    if elements.len() == 0 {
        lemma_mask(0, 0, bits);
    } else {
        lemma_sketch_of_shape(elements.drop_last(), bits, capacity);
        lemma_element_sketch(elements.last(), bits, capacity);
        lemma_xor_seq_in_field(
            sketch_of(elements.drop_last(), bits, capacity),
            element_sketch(elements.last(), bits, capacity),
            bits,
        );
    }
}

/// A sketch of lower capacity is the start of the sketch of higher capacity.
pub proof fn lemma_sketch_of_prefix(elements: Seq<u64>, bits: u32, capacity: nat, shorter: nat)
    requires
        shorter <= capacity,
    ensures
        sketch_of(elements, bits, capacity).take(shorter as int) == sketch_of(
            elements,
            bits,
            shorter,
        ),
    decreases elements.len(),
{
    let long = sketch_of(elements, bits, capacity);
    let short = sketch_of(elements, bits, shorter);
    if elements.len() == 0 {
        assert(long.take(shorter as int) =~= short);
    } else {
        lemma_sketch_of_prefix(elements.drop_last(), bits, capacity, shorter);
        let front_long = sketch_of(elements.drop_last(), bits, capacity);
        let front_short = sketch_of(elements.drop_last(), bits, shorter);
        lemma_sketch_of_len(elements.drop_last(), bits, capacity);
        lemma_sketch_of_len(elements.drop_last(), bits, shorter);
        assert forall|k: int| 0 <= k < shorter implies #[trigger] long.take(shorter as int)[k]
            == short[k] by {
            assert(front_long.take(shorter as int)[k] == front_short[k]);
        }
        assert(long.take(shorter as int) =~= short);
    }
}

/// A sketch of elements has the asked capacity.
pub proof fn lemma_sketch_of_len(elements: Seq<u64>, bits: u32, capacity: nat)
    ensures
        sketch_of(elements, bits, capacity).len() == capacity,
    decreases elements.len(),
{
    if elements.len() > 0 {
        lemma_sketch_of_len(elements.drop_last(), bits, capacity);
    }
}

/// Whether the sketch of the given elements holds `x`: whether `x` occurs an
/// odd number of times among them.
pub open spec fn holds(elements: Seq<u64>, x: u64) -> bool
    decreases elements.len(),
{
    if elements.len() == 0 {
        false
    } else {
        holds(elements.drop_last(), x) != (elements.last() == x)
    }
}

/// The set that the sketch of the given elements stands for.
pub open spec fn held(elements: Seq<u64>) -> Set<u64> {
    Set::new(|x: u64| holds(elements, x))
}

/// The sketch of two runs of elements, one after the other, is the sum of
/// their sketches.
pub proof fn lemma_sketch_of_concat(a: Seq<u64>, b: Seq<u64>, bits: u32, capacity: nat)
    requires
        1 <= bits <= 64,
    ensures
        sketch_of(a + b, bits, capacity) == xor_seq(
            sketch_of(a, bits, capacity),
            sketch_of(b, bits, capacity),
        ),
    decreases b.len(),
{
    let sa = sketch_of(a, bits, capacity);
    lemma_sketch_of_shape(a, bits, capacity);
    if b.len() == 0 {
        assert(a + b =~= a);
        lemma_xor_seq_zeros(sa);
    } else {
        let front = b.drop_last();
        let last = element_sketch(b.last(), bits, capacity);
        assert((a + b).drop_last() =~= a + front);
        lemma_sketch_of_concat(a, front, bits, capacity);
        lemma_sketch_of_shape(front, bits, capacity);
        lemma_xor_seq_laws(sa, sketch_of(front, bits, capacity), last);
    }
}

/// After two runs of elements, one after the other, the sketch holds what
/// exactly one of the two runs leaves in it.
pub proof fn lemma_holds_concat(a: Seq<u64>, b: Seq<u64>, x: u64)
    ensures
        holds(a + b, x) == (holds(a, x) != holds(b, x)),
    decreases b.len(),
{
    if b.len() == 0 {
        assert(a + b =~= a);
    } else {
        assert((a + b).drop_last() =~= a + b.drop_last());
        lemma_holds_concat(a, b.drop_last(), x);
    }
}

/// What a sketch holds without one of its additions.
pub proof fn lemma_holds_remove(a: Seq<u64>, j: int, x: u64)
    requires
        0 <= j < a.len(),
    ensures
        holds(a.remove(j), x) == (holds(a, x) != (a[j] == x)),
    decreases a.len(),
{
    if j == a.len() - 1 {
        assert(a.remove(j) =~= a.drop_last());
    } else {
        assert(a.remove(j).drop_last() =~= a.drop_last().remove(j));
        lemma_holds_remove(a.drop_last(), j, x);
    }
}

/// The sketch without one of its additions.
pub proof fn lemma_sketch_of_remove(a: Seq<u64>, j: int, bits: u32, capacity: nat)
    requires
        1 <= bits <= 64,
        0 <= j < a.len(),
    ensures
        sketch_of(a, bits, capacity) == xor_seq(
            sketch_of(a.remove(j), bits, capacity),
            element_sketch(a[j], bits, capacity),
        ),
    decreases a.len(),
{
    if j == a.len() - 1 {
        assert(a.remove(j) =~= a.drop_last());
    } else {
        let front = a.drop_last();
        assert(a.remove(j).drop_last() =~= front.remove(j));
        assert(a.remove(j).last() == a.last());
        lemma_sketch_of_remove(front, j, bits, capacity);
        let rest = sketch_of(front.remove(j), bits, capacity);
        let ej = element_sketch(a[j], bits, capacity);
        let el = element_sketch(a.last(), bits, capacity);
        lemma_sketch_of_shape(front.remove(j), bits, capacity);
        // (rest + ej) + el = (rest + el) + ej
        lemma_xor_seq_laws(rest, ej, el);
        lemma_xor_seq_laws(ej, el, el);
        lemma_xor_seq_laws(rest, el, ej);
    }
}

/// What a sketch holds was added to it.
pub proof fn lemma_holds_witness(a: Seq<u64>, x: u64) -> (j: int)
    requires
        holds(a, x),
    ensures
        0 <= j < a.len(),
        a[j] == x,
    decreases a.len(),
{
    if a.last() == x {
        a.len() - 1
    } else {
        lemma_holds_witness(a.drop_last(), x)
    }
}

/// Elements of which none is left make the sketch of nothing.
pub proof fn lemma_sketch_of_nothing_held(a: Seq<u64>, bits: u32, capacity: nat)
    requires
        1 <= bits <= 64,
        forall|x: u64| !holds(a, x),
    ensures
        sketch_of(a, bits, capacity) == zeros(capacity),
    decreases a.len(),
{
    if a.len() > 0 {
        let x = a.last();
        let front = a.drop_last();
        assert(!holds(a, x));
        let j = lemma_holds_witness(front, x);
        let rest = front.remove(j);
        assert forall|y: u64| !holds(rest, y) by {
            lemma_holds_remove(front, j, y);
            assert(!holds(a, y));
        }
        lemma_sketch_of_nothing_held(rest, bits, capacity);
        lemma_sketch_of_remove(front, j, bits, capacity);
        lemma_sketch_of_shape(rest, bits, capacity);
        lemma_xor_seq_twice(sketch_of(rest, bits, capacity), element_sketch(x, bits, capacity));
    }
}

/// A sketch depends only on the set that it stands for: neither on the order
/// in which elements were added, nor on elements that were added and taken
/// out again.
pub proof fn lemma_sketch_of_held(a: Seq<u64>, b: Seq<u64>, bits: u32, capacity: nat)
    requires
        1 <= bits <= 64,
        held(a) == held(b),
    ensures
        sketch_of(a, bits, capacity) == sketch_of(b, bits, capacity),
{
    let sa = sketch_of(a, bits, capacity);
    let sb = sketch_of(b, bits, capacity);
    assert forall|x: u64| !holds(a + b, x) by {
        lemma_holds_concat(a, b, x);
        assert(held(a).contains(x) == holds(a, x));
        assert(held(b).contains(x) == holds(b, x));
    }
    lemma_sketch_of_nothing_held(a + b, bits, capacity);
    lemma_sketch_of_concat(a, b, bits, capacity);
    lemma_sketch_of_shape(a, bits, capacity);
    lemma_sketch_of_shape(b, bits, capacity);
    // sa = (sa + sb) + sb = 0 + sb = sb
    lemma_xor_seq_twice(sa, sb);
    lemma_xor_seq_zeros(sb);
}

/// A run of elements without repetition leaves each of them in the sketch.
pub proof fn lemma_holds_distinct(a: Seq<u64>, x: u64)
    requires
        a.no_duplicates(),
    ensures
        holds(a, x) == a.contains(x),
    decreases a.len(),
{
    if a.len() > 0 {
        let front = a.drop_last();
        lemma_holds_distinct(front, x);
        if a.last() == x {
            if front.contains(x) {
                let j = choose|j: int| 0 <= j < front.len() && front[j] == x;
                assert(a[j] == a[a.len() - 1]);
            }
            assert(a[a.len() - 1] == x);
        } else if a.contains(x) {
            let j = choose|j: int| 0 <= j < a.len() && a[j] == x;
            assert(front[j] == x);
        } else if front.contains(x) {
            let j = choose|j: int| 0 <= j < front.len() && front[j] == x;
            assert(a[j] == x);
        }
    }
}

/// Membership after one more element.
pub proof fn lemma_contains_push(s: Seq<u64>, a: u64, y: u64)
    ensures
        s.push(a).contains(y) <==> (s.contains(y) || y == a),
{
    let t = s.push(a);
    if s.contains(y) {
        let j = choose|j: int| 0 <= j < s.len() && s[j] == y;
        assert(t[j] == y);
    }
    if y == a {
        assert(t[s.len() as int] == y);
    }
    if t.contains(y) {
        let j = choose|j: int| 0 <= j < t.len() && t[j] == y;
        if j < s.len() {
            assert(s[j] == y);
        }
    }
}

} // verus!
