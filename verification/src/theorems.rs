//! What holds of sketches, whatever they hold.
//!
//! The statements are about the specifications that the contracts of
//! [`Minisketch`] use: [`sketch_of`] for what a sketch holds after a run of
//! additions, [`xor_seq`] for what `add` and `merge` do to it, [`serialized`]
//! and [`deserialized`] for the wire format and [`Minisketch::is_decoding`]
//! for what `decode` returns.

use crate::certify::{is_field, lemma_field_has_no_zero_divisors};
use crate::complete::lemma_locator_of_sketch;
use crate::field::in_field;
use crate::locator::{is_root, lemma_constant_has_no_root, lemma_locator_of_zeros, locator};
use crate::sketch::Minisketch;
use crate::sums::{
    element_sketch, held, holds, lemma_holds_concat, lemma_sketch_of_concat,
    lemma_sketch_of_held, lemma_sketch_of_prefix, lemma_xor_seq_self, lemma_xor_seq_twice,
    sketch_of, xor_seq, zeros,
};
use crate::unique::{distinct_elements, lemma_same_sketch_same_set};
use crate::wire::{deserialized, lemma_round_trip, serialized};
use vstd::prelude::*;

verus! {

/// Adding an element a second time takes it out again: the sketch is as it
/// was before the element was added first.
pub proof fn lemma_add_twice(s: Seq<u64>, element: u64, bits: u32)
    ensures
        xor_seq(
            xor_seq(s, element_sketch(element, bits, s.len())),
            element_sketch(element, bits, s.len()),
        ) == s,
{
    lemma_xor_seq_twice(s, element_sketch(element, bits, s.len()));
}

/// Merging two sketches gives the sketch of the elements of both, and this
/// sketch holds the elements that exactly one of the two held.
pub proof fn lemma_merge_adds_up(a: Seq<u64>, b: Seq<u64>, bits: u32, capacity: nat)
    requires
        1 <= bits <= 64,
    ensures
        xor_seq(sketch_of(a, bits, capacity), sketch_of(b, bits, capacity)) == sketch_of(
            a + b,
            bits,
            capacity,
        ),
        forall|x: u64| holds(a + b, x) == (holds(a, x) != holds(b, x)),
{
    lemma_sketch_of_concat(a, b, bits, capacity);
    assert forall|x: u64| holds(a + b, x) == (holds(a, x) != holds(b, x)) by {
        lemma_holds_concat(a, b, x);
    }
}

/// The merge of the sketches of two sets is the sketch of their symmetric
/// difference, in whatever order the elements of each were added. Where the
/// capacities differ, the merge has the lower one.
pub proof fn lemma_merge_is_symmetric_difference(
    a: Seq<u64>,
    b: Seq<u64>,
    d: Seq<u64>,
    bits: u32,
    capacity_a: nat,
    capacity_b: nat,
)
    requires
        1 <= bits <= 64,
        held(d) == held(a).difference(held(b)).union(held(b).difference(held(a))),
    ensures
        ({
            let c = vstd::math::min(capacity_a as int, capacity_b as int);
            xor_seq(
                sketch_of(a, bits, capacity_a).take(c),
                sketch_of(b, bits, capacity_b).take(c),
            ) == sketch_of(d, bits, c as nat)
        }),
{
    let c = vstd::math::min(capacity_a as int, capacity_b as int) as nat;
    lemma_sketch_of_prefix(a, bits, capacity_a, c);
    lemma_sketch_of_prefix(b, bits, capacity_b, c);
    lemma_merge_adds_up(a, b, bits, c);
    assert forall|x: u64| held(a + b).contains(x) == held(d).contains(x) by {
        assert(held(a).contains(x) == holds(a, x));
        assert(held(b).contains(x) == holds(b, x));
    }
    assert(held(a + b) =~= held(d));
    lemma_sketch_of_held(a + b, d, bits, c);
}

/// The merge of a sketch with itself, or with a sketch of the same set, is
/// the sketch of nothing.
pub proof fn lemma_merge_with_itself(s: Seq<u64>)
    ensures
        xor_seq(s, s) == zeros(s.len()),
{
    lemma_xor_seq_self(s);
}

/// The sketch of nothing decodes to nothing, and to nothing else.
pub proof fn lemma_nothing_decodes_to_nothing(sketch: Minisketch, e: Seq<u64>)
    requires
        sketch.wf(),
        sketch@ == zeros(sketch.spec_capacity()),
    ensures
        sketch.is_decoding(Seq::<u64>::empty()),
        sketch.is_decoding(e) ==> e == Seq::<u64>::empty(),
{
    let bits = sketch.spec_bits();
    let none = Seq::<u64>::empty();
    lemma_locator_of_zeros(sketch.spec_capacity(), bits);
    assert forall|x: u64| #[trigger] none.contains(x) <==> is_root(locator(sketch@, bits), x, bits) by {
        lemma_constant_has_no_root(x, bits);
    }
    if sketch.is_decoding(e) {
        assert(e =~= none);
    }
}

/// A sketch that is written and read back is the sketch that was written.
pub proof fn lemma_serialize_deserialize(sketch: Minisketch)
    requires
        sketch.wf(),
    ensures
        deserialized(
            serialized(sketch@, sketch.spec_bits()),
            sketch.spec_bits(),
            sketch.spec_capacity(),
        ) == sketch@,
{
    lemma_round_trip(sketch@, sketch.spec_bits());
}

/// What a sketch decodes to: field elements other than zero, each once, no
/// more of them than the capacity, and with the sketch that was decoded.
pub proof fn lemma_decoding_is_sound(sketch: Minisketch, e: Seq<u64>)
    requires
        sketch.wf(),
        sketch.is_decoding(e),
    ensures
        sketch.is_sketch_of(e),
        e.len() <= sketch.spec_capacity(),
        e.no_duplicates(),
        forall|i: int| 0 <= i < e.len() ==> e[i] != 0 && in_field(#[trigger] e[i], sketch.spec_bits()),
        sketch_of(e, sketch.spec_bits(), sketch.spec_capacity()) == sketch@,
{
    assert forall|i: int| 0 <= i < e.len() implies e[i] != 0 && in_field(
        #[trigger] e[i],
        sketch.spec_bits(),
    ) by {
        assert(e.contains(e[i]));
    }
}

/// A sketch of more elements than its capacity does not decode, unless fewer
/// elements, no more than the capacity, have the same sketch: it never
/// decodes to some of its elements, or to elements with another sketch.
pub proof fn lemma_beyond_capacity(sketch: Minisketch, d: Seq<u64>, e: Seq<u64>)
    requires
        sketch.wf(),
        d.len() > sketch.spec_capacity(),
        sketch@ == sketch_of(d, sketch.spec_bits(), sketch.spec_capacity()),
        forall|f: Seq<u64>|
            f.len() <= sketch.spec_capacity() ==> #[trigger] sketch_of(
                f,
                sketch.spec_bits(),
                sketch.spec_capacity(),
            ) != sketch@,
    ensures
        !sketch.is_decoding(e),
{
}

/// In a field, a sketch of at most `capacity` elements decodes to these
/// elements.
pub proof fn lemma_sketch_decodes(sketch: Minisketch, d: Seq<u64>)
    requires
        sketch.wf(),
        is_field(sketch.spec_bits()),
        sketch.is_sketch_of(d),
    ensures
        sketch.is_decoding(d),
{
    lemma_field_has_no_zero_divisors(sketch.spec_bits());
    lemma_locator_of_sketch(d, sketch.spec_bits(), sketch.spec_capacity());
}

/// In a field, a sketch of at most `capacity` elements decodes to nothing
/// but these elements.
pub proof fn lemma_decoding_is_what_was_sketched(sketch: Minisketch, d: Seq<u64>, e: Seq<u64>)
    requires
        sketch.wf(),
        is_field(sketch.spec_bits()),
        sketch.is_sketch_of(d),
        sketch.is_decoding(e),
    ensures
        e.to_set() == d.to_set(),
{
    lemma_field_has_no_zero_divisors(sketch.spec_bits());
    lemma_decoding_is_sound(sketch, e);
    lemma_same_sketch_same_set(e, d, sketch.spec_bits(), sketch.spec_capacity());
}

/// In a field, the merge of the sketches of two sets decodes to their
/// symmetric difference, if that has at most `capacity` elements: `d` lists
/// the elements of the symmetric difference, and `e` is any decoding of the
/// merge.
pub proof fn lemma_decoding_of_merge(
    sketch: Minisketch,
    a: Seq<u64>,
    b: Seq<u64>,
    d: Seq<u64>,
    e: Seq<u64>,
)
    requires
        sketch.wf(),
        is_field(sketch.spec_bits()),
        sketch@ == xor_seq(
            sketch_of(a, sketch.spec_bits(), sketch.spec_capacity()),
            sketch_of(b, sketch.spec_bits(), sketch.spec_capacity()),
        ),
        distinct_elements(d, sketch.spec_bits()),
        d.len() <= sketch.spec_capacity(),
        held(d) == held(a).difference(held(b)).union(held(b).difference(held(a))),
    ensures
        sketch.is_decoding(d),
        sketch.is_decoding(e) ==> e.to_set() == d.to_set(),
{
    let c = sketch.spec_capacity();
    lemma_merge_is_symmetric_difference(a, b, d, sketch.spec_bits(), c, c);
    crate::sums::lemma_sketch_of_len(a, sketch.spec_bits(), c);
    crate::sums::lemma_sketch_of_len(b, sketch.spec_bits(), c);
    assert(sketch_of(a, sketch.spec_bits(), c).take(c as int) =~= sketch_of(
        a,
        sketch.spec_bits(),
        c,
    ));
    assert(sketch_of(b, sketch.spec_bits(), c).take(c as int) =~= sketch_of(
        b,
        sketch.spec_bits(),
        c,
    ));
    lemma_sketch_decodes(sketch, d);
    if sketch.is_decoding(e) {
        lemma_decoding_is_what_was_sketched(sketch, d, e);
    }
}

} // verus!
