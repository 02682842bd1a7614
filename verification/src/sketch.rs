//! The sketch: its state and the operations on it.

use crate::certify::is_field;
use crate::error::MinisketchError;
use crate::field::{gf_pow, in_field, lemma_mask, Field};
use crate::locator::{expand, is_root, locator, synthesize};
use crate::ring::{lemma_pow_add, lemma_pow_in_field, lemma_pow_small};
use crate::roots::{has_roots, roots_by_splitting};
use crate::sums::{
    all_in_field, element_sketch, held, lemma_element_sketch, lemma_holds_distinct,
    lemma_sketch_of_held, lemma_xor_seq_zeros, odd_power, sketch_of, xor_seq, zeros,
};
use crate::text::{append_decimal, decimal};
use crate::theorems::{lemma_decoding_is_what_was_sketched, lemma_sketch_decodes};
use crate::unique::{distinct_elements, no_zero_divisors};
use crate::wire::{
    deserialized, lemma_deserialized_in_field, lemma_stream_fits, pack_byte, serialized,
    serialized_len, unpack_element,
};
use std::collections::hash_map::RandomState;
use vstd::prelude::*;

verus! {

/// The largest capacity of a sketch. It keeps twice the size of a serialized
/// sketch, in bits, within `usize`.
pub const MAX_CAPACITY: usize = usize::MAX / 128;

/// `RandomState::new` of the standard library makes a hasher state with keys
/// drawn at random. Nothing is claimed of the state.
pub assume_specification[ RandomState::new ]() -> (state: RandomState)
;

/// `BuildHasher::hash_one` of the standard library, on the value zero: a hash
/// that depends on the random keys of the state. Nothing is claimed of it.
#[verifier::external_body]
fn hash_of_zero(state: &RandomState) -> (h: u64) {
    std::hash::BuildHasher::hash_one(state, 0u64)
}

/// A sketch of a set of `bits`-bit integers, none of them zero.
///
/// The state of a sketch is its view: the sequence of its `capacity` power
/// sums of odd order (see the module `sums`).
#[derive(Debug)]
pub struct Minisketch {
    field: Field,
    seed: u64,
    syndromes: Vec<u64>,
}

impl View for Minisketch {
    type V = Seq<u64>;

    /// The power sums that the sketch holds.
    closed spec fn view(&self) -> Seq<u64> {
        self.syndromes@
    }
}

impl Minisketch {
    /// The width of the elements, in bits.
    pub closed spec fn spec_bits(&self) -> u32 {
        self.field.spec_bits()
    }

    /// The number of the field implementation.
    pub closed spec fn spec_implementation(&self) -> u32 {
        self.field.spec_implementation()
    }

    /// The seed of the choices that decoding makes.
    pub closed spec fn spec_seed(&self) -> u64 {
        self.seed
    }

    /// The number of power sums held.
    pub open spec fn spec_capacity(&self) -> nat {
        self@.len()
    }

    /// The field of the sketch is well-formed.
    pub closed spec fn field_wf(&self) -> bool {
        self.field.wf()
    }

    /// Well-formedness: supported parameters, and `capacity` field elements.
    pub open spec fn wf(&self) -> bool {
        &&& Self::valid_parameters(
            self.spec_bits(),
            self.spec_implementation(),
            self.spec_capacity(),
        )
        &&& self.field_wf()
        &&& all_in_field(self@, self.spec_bits())
    }

    /// Whether a sketch can be made with these parameters.
    pub open spec fn valid_parameters(bits: u32, implementation: u32, capacity: nat) -> bool {
        Field::supported(bits, implementation) && 1 <= capacity <= MAX_CAPACITY
    }

    /// Whether two sketches have the same width, implementation and seed.
    pub open spec fn same_parameters(&self, other: &Self) -> bool {
        &&& self.spec_bits() == other.spec_bits()
        &&& self.spec_implementation() == other.spec_implementation()
        &&& self.spec_seed() == other.spec_seed()
    }

    /// Whether two sketches can be merged: same width, same implementation.
    pub open spec fn mergeable_with(&self, other: &Self) -> bool {
        &&& self.spec_bits() == other.spec_bits()
        &&& self.spec_implementation() == other.spec_implementation()
    }

    /// A new empty sketch with the given seed.
    ///
    /// Fails if the combination of `bits` and `implementation` is not
    /// supported, if `capacity` is zero or if it is above [`MAX_CAPACITY`].
    pub fn with_seed(bits: u32, implementation: u32, capacity: usize, seed: u64) -> (r: Result<
        Self,
        MinisketchError,
    >)
        ensures
            r is Ok <==> Self::valid_parameters(bits, implementation, capacity as nat),
            r matches Ok(s) ==> {
                &&& s.wf()
                &&& s.spec_bits() == bits
                &&& s.spec_implementation() == implementation
                &&& s.spec_seed() == seed
                &&& s@ == zeros(capacity as nat)
            },
            r matches Err(e) ==> e@ == "Unsupported minisketch parameters"@,
    {
        if capacity == 0 || capacity > MAX_CAPACITY {
            return Err(MinisketchError::new("Unsupported minisketch parameters"));
        }
        match Field::new(bits, implementation) {
            None => Err(MinisketchError::new("Unsupported minisketch parameters")),
            Some(field) => {
                let syndromes: Vec<u64> = zero_vector(capacity);
                proof {
                    lemma_mask(0, 0, bits);
                }
                Ok(Minisketch { field, seed, syndromes })
            },
        }
    }

    /// A new empty sketch, with a seed drawn at random.
    ///
    /// Fails if the combination of `bits` and `implementation` is not
    /// supported, if `capacity` is zero or if it is above [`MAX_CAPACITY`].
    pub fn try_new(bits: u32, implementation: u32, capacity: usize) -> (r: Result<
        Self,
        MinisketchError,
    >)
        ensures
            r is Ok <==> Self::valid_parameters(bits, implementation, capacity as nat),
            r matches Ok(s) ==> {
                &&& s.wf()
                &&& s.spec_bits() == bits
                &&& s.spec_implementation() == implementation
                &&& s@ == zeros(capacity as nat)
            },
            r matches Err(e) ==> e@ == "Unsupported minisketch parameters"@,
    {
        let state = RandomState::new();
        let seed: u64 = hash_of_zero(&state);
        Self::with_seed(bits, implementation, capacity, seed)
    }

    /// Whether elements of `bits` bits are supported.
    pub fn bits_supported(bits: u32) -> (r: bool)
        ensures
            r <==> 1 <= bits <= crate::field::MAX_BITS,
    {
        1 <= bits && bits <= crate::field::MAX_BITS
    }

    /// The highest implementation number. Every width has the implementations
    /// from 0 to this number.
    pub fn implementation_max() -> (r: u32)
        ensures
            r == crate::field::MAX_IMPLEMENTATION,
    {
        crate::field::MAX_IMPLEMENTATION
    }

    /// The width of the elements, in bits.
    #[verifier::when_used_as_spec(spec_bits)]
    pub fn bits(&self) -> (r: u32)
        ensures
            r == self.spec_bits(),
    {
        self.field.bits()
    }

    /// The capacity: the number of elements up to which the sketch can be
    /// decoded.
    pub fn capacity(&self) -> (r: usize)
        ensures
            r == self.spec_capacity(),
    {
        self.syndromes.len()
    }

    /// The number of the field implementation.
    #[verifier::when_used_as_spec(spec_implementation)]
    pub fn implementation(&self) -> (r: u32)
        ensures
            r == self.spec_implementation(),
    {
        self.field.implementation()
    }

    /// The seed of the choices that decoding makes.
    #[verifier::when_used_as_spec(spec_seed)]
    pub fn seed(&self) -> (r: u64)
        ensures
            r == self.spec_seed(),
    {
        self.seed
    }

    /// The size of the serialized sketch, in bytes.
    pub fn serialized_size(&self) -> (r: usize)
        requires
            self.wf(),
        ensures
            r == serialized_len(self.spec_bits(), self.spec_capacity()),
    {
        proof {
            lemma_stream_fits(self.spec_bits(), self.spec_capacity());
        }
        let total: usize = (self.field.bits() as usize) * self.syndromes.len();
        (total + 7) / 8
    }

    /// The text of [`Minisketch::summary`].
    pub open spec fn spec_summary(&self) -> Seq<char> {
        "Minisketch { bits = "@ + decimal(self.spec_bits() as nat) + ", implementation = "@
            + decimal(self.spec_implementation() as nat) + ", capacity = "@ + decimal(
            self.spec_capacity(),
        ) + " }"@
    }

    /// A short description of the sketch: the width of its elements, its
    /// implementation and its capacity.
    pub fn summary(&self) -> (text: String)
        ensures
            text@ == self.spec_summary(),
    {
        let mut text: String = "Minisketch { bits = ".to_owned();
        append_decimal(&mut text, self.field.bits() as u64);
        text.append(", implementation = ");
        append_decimal(&mut text, self.field.implementation() as u64);
        text.append(", capacity = ");
        append_decimal(&mut text, self.syndromes.len() as u64);
        text.append(" }");
        text
    }

    /// Tells whether the elements of the sketch form a field, as
    /// [`Field::certify`] does.
    pub fn certify_field(&self) -> (ok: bool)
        requires
            self.wf(),
        ensures
            ok <==> is_field(self.spec_bits()),
            ok ==> no_zero_divisors(self.spec_bits()),
    {
        self.field.certify()
    }

    /// Sets the seed. The seed decides in which order decoding finds, and so
    /// returns, the elements; it has no part in what the sketch holds.
    pub fn set_seed(&mut self, seed: u64)
        ensures
            final(self).spec_seed() == seed,
            final(self).spec_bits() == old(self).spec_bits(),
            final(self).spec_implementation() == old(self).spec_implementation(),
            final(self)@ == old(self)@,
            old(self).wf() ==> final(self).wf(),
    {
        self.seed = seed;
    }

    /// Adds an element to the sketch, or takes it out if it is there.
    ///
    /// Only the `bits` lowest bits of `element` count. If they are all zero
    /// the sketch does not change: zero cannot be an element.
    pub fn add(&mut self, element: u64)
        requires
            old(self).wf(),
        ensures
            final(self).wf(),
            final(self).same_parameters(old(self)),
            final(self)@ == xor_seq(
                old(self)@,
                element_sketch(element, old(self).spec_bits(), old(self).spec_capacity()),
            ),
    {
        let field: Field = self.field;
        toggle(&field, &mut self.syndromes, element);
    }

    /// Merges another sketch into this one. Afterwards this sketch holds the
    /// elements that were in exactly one of the two.
    ///
    /// The capacity of the result is the lower of the two capacities, and is
    /// returned. Fails, and leaves this sketch as it is, if the two sketches
    /// differ in the width of their elements or in their implementation.
    pub fn merge(&mut self, other: &Self) -> (r: Result<usize, MinisketchError>)
        requires
            old(self).wf(),
            other.wf(),
        ensures
            final(self).wf(),
            final(self).same_parameters(old(self)),
            r is Ok <==> old(self).mergeable_with(other),
            r matches Ok(c) ==> {
                &&& c == final(self).spec_capacity()
                &&& c == vstd::math::min(
                    old(self).spec_capacity() as int,
                    other.spec_capacity() as int,
                )
                &&& final(self)@ == xor_seq(old(self)@.take(c as int), other@.take(c as int))
            },
            r matches Err(e) ==> *final(self) == *old(self) && e@ == "Merge is failed"@,
    {
        if self.field.bits() != other.field.bits() || self.field.implementation()
            != other.field.implementation() {
            return Err(MinisketchError::new("Merge is failed"));
        }
        let ghost bits = self.field.spec_bits();
        let ghost before = self.syndromes@;
        let c: usize = if other.syndromes.len() < self.syndromes.len() {
            other.syndromes.len()
        } else {
            self.syndromes.len()
        };
        self.syndromes.truncate(c);
        let mut k: usize = 0;
        while k < c
            invariant
                self.field == old(self).field,
                self.seed == old(self).seed,
                bits == self.field.spec_bits(),
                1 <= bits <= 64,
                before == old(self).syndromes@,
                self.syndromes.len() == c,
                c <= before.len(),
                c <= other.syndromes.len(),
                k <= c,
                forall|i: int| 0 <= i < k ==> #[trigger] self.syndromes@[i] == before[i]
                    ^ other.syndromes@[i],
                forall|i: int| k <= i < c ==> #[trigger] self.syndromes@[i] == before[i],
                all_in_field(before, bits),
                all_in_field(other.syndromes@, bits),
                all_in_field(self.syndromes@, bits),
            decreases c - k,
        {
            let sum: u64 = self.syndromes[k] ^ other.syndromes[k];
            proof {
                assert(in_field(before[k as int], bits));
                assert(in_field(other.syndromes@[k as int], bits));
                lemma_mask(self.syndromes@[k as int], other.syndromes@[k as int], bits);
            }
            self.syndromes[k] = sum;
            k = k + 1;
        }
        proof {
            assert(self.syndromes@ =~= xor_seq(before.take(c as int), other@.take(c as int)));
        }
        Ok(c)
    }
}

impl Minisketch {
    /// Writes the sketch to the start of a buffer, in the wire format.
    ///
    /// Fails, and leaves the buffer as it is, if the buffer is shorter than
    /// the serialized sketch. A longer buffer keeps what it held after the
    /// sketch.
    pub fn serialize(&self, buf: &mut [u8]) -> (r: Result<(), MinisketchError>)
        requires
            self.wf(),
        ensures
            final(buf)@.len() == old(buf)@.len(),
            r is Ok <==> old(buf)@.len() >= serialized_len(self.spec_bits(), self.spec_capacity()),
            r is Ok ==> {
                let size = serialized_len(self.spec_bits(), self.spec_capacity()) as int;
                &&& final(buf)@.take(size) == serialized(self@, self.spec_bits())
                &&& final(buf)@.skip(size) == old(buf)@.skip(size)
            },
            r matches Err(e) ==> final(buf)@ == old(buf)@ && e@
                == "Invalid size of the output buffer"@,
    {
        let size: usize = self.serialized_size();
        if buf.len() < size {
            return Err(MinisketchError::new("Invalid size of the output buffer"));
        }
        let bits: u32 = self.field.bits();
        let mut j: usize = 0;
        while j < size
            invariant
                self.wf(),
                bits == self.spec_bits(),
                size == serialized_len(bits, self.spec_capacity()),
                j <= size,
                size <= buf@.len(),
                buf@.len() == old(buf)@.len(),
                forall|i: int| 0 <= i < j ==> #[trigger] buf@[i] == serialized(self@, bits)[i],
                forall|i: int| j <= i < buf@.len() ==> #[trigger] buf@[i] == old(buf)@[i],
            decreases size - j,
        {
            let byte: u8 = pack_byte(&self.syndromes, bits, j);
            buf[j] = byte;
            j = j + 1;
        }
        proof {
            assert(buf@.take(size as int) =~= serialized(self@, bits));
            assert(buf@.skip(size as int) =~= old(buf)@.skip(size as int));
        }
        Ok(())
    }

    /// Replaces what the sketch holds by what the start of a buffer holds in
    /// the wire format. Width, implementation, capacity and seed stay.
    ///
    /// Fails, and leaves the sketch as it is, if the buffer is shorter than
    /// the serialized sketch.
    pub fn deserialize(&mut self, buf: &[u8]) -> (r: Result<(), MinisketchError>)
        requires
            old(self).wf(),
        ensures
            final(self).wf(),
            final(self).same_parameters(old(self)),
            r is Ok <==> buf@.len() >= serialized_len(
                old(self).spec_bits(),
                old(self).spec_capacity(),
            ),
            r is Ok ==> final(self)@ == deserialized(
                buf@,
                old(self).spec_bits(),
                old(self).spec_capacity(),
            ),
            r matches Err(e) ==> *final(self) == *old(self) && e@
                == "Invalid size of the input buffer"@,
    {
        let size: usize = self.serialized_size();
        if buf.len() < size {
            return Err(MinisketchError::new("Invalid size of the input buffer"));
        }
        let bits: u32 = self.field.bits();
        let n: usize = self.syndromes.len();
        let mut i: usize = 0;
        while i < n
            invariant
                self.field == old(self).field,
                self.seed == old(self).seed,
                self.field.wf(),
                bits == self.field.spec_bits(),
                1 <= bits <= 64,
                self.syndromes.len() == n,
                n == old(self).syndromes@.len(),
                1 <= n <= MAX_CAPACITY,
                i <= n,
                buf@.len() >= serialized_len(bits, n as nat),
                forall|k: int| 0 <= k < i ==> #[trigger] self.syndromes@[k] == deserialized(
                    buf@,
                    bits,
                    n as nat,
                )[k],
            decreases n - i,
        {
            let v: u64 = unpack_element(buf, bits, i, n);
            self.syndromes[i] = v;
            i = i + 1;
        }
        proof {
            assert(self.syndromes@ =~= deserialized(buf@, bits, n as nat));
            lemma_deserialized_in_field(buf@, bits, n as nat);
        }
        Ok(())
    }
}

/// A run of `n` zeros.
fn zero_vector(n: usize) -> (v: Vec<u64>)
    ensures
        v@ == zeros(n as nat),
{
    let mut v: Vec<u64> = Vec::new();
    let mut k: usize = 0;
    while k < n
        invariant
            k <= n,
            v@ == zeros(k as nat),
        decreases n - k,
    {
        v.push(0);
        k = k + 1;
        assert(v@ =~= zeros(k as nat));
    }
    v
}

/// Adds the sketch of one element to the power sums of a sketch.
fn toggle(field: &Field, syndromes: &mut Vec<u64>, element: u64)
    requires
        field.wf(),
        all_in_field(old(syndromes)@, field.spec_bits()),
    ensures
        final(syndromes)@ == xor_seq(
            old(syndromes)@,
            element_sketch(element, field.spec_bits(), old(syndromes)@.len()),
        ),
        all_in_field(final(syndromes)@, field.spec_bits()),
{
    let ghost bits = field.spec_bits();
    let ghost before = syndromes@;
    let x: u64 = field.reduce(element);
    proof {
        lemma_element_sketch(element, bits, before.len());
        lemma_xor_seq_zeros(before);
    }
    if x == 0 {
        return ;
    }
    let square: u64 = field.sqr(x);
    let n: usize = syndromes.len();
    let mut power: u64 = x;
    let mut k: usize = 0;
    proof {
        lemma_pow_small(x, bits);
        lemma_mask(x, x, bits);
    }
    while k < n
        invariant
            field.wf(),
            bits == field.spec_bits(),
            1 <= bits <= 64,
            before == old(syndromes)@,
            syndromes.len() == n,
            before.len() == n,
            k <= n,
            square == gf_pow(x, 2, bits),
            power == odd_power(x, k as nat, bits),
            forall|i: int| 0 <= i < k ==> #[trigger] syndromes@[i] == before[i] ^ odd_power(
                x,
                i as nat,
                bits,
            ),
            forall|i: int| k <= i < n ==> #[trigger] syndromes@[i] == before[i],
            all_in_field(syndromes@, bits),
        decreases n - k,
    {
        let sum: u64 = syndromes[k] ^ power;
        proof {
            lemma_pow_in_field(x, 2 * (k as nat) + 1, bits);
            lemma_mask(syndromes@[k as int], power, bits);
            lemma_pow_add(x, 2 * (k as nat) + 1, 2, bits);
        }
        syndromes[k] = sum;
        power = field.mul(power, square);
        k = k + 1;
    }
    proof {
        assert(syndromes@ =~= xor_seq(before, element_sketch(x, bits, n as nat)));
    }
}

/// Whether two runs of power sums are the same.
fn same_sums(a: &Vec<u64>, b: &Vec<u64>) -> (r: bool)
    ensures
        r <==> a@ == b@,
{
    if a.len() != b.len() {
        return false;
    }
    let mut k: usize = 0;
    while k < a.len()
        invariant
            a.len() == b.len(),
            k <= a.len(),
            forall|i: int| 0 <= i < k ==> a@[i] == b@[i],
        decreases a.len() - k,
    {
        if a[k] != b[k] {
            return false;
        }
        k = k + 1;
    }
    assert(a@ =~= b@);
    true
}

/// The sketch of the given elements.
fn sketch_elements(field: &Field, elements: &Vec<u64>, capacity: usize) -> (s: Vec<u64>)
    requires
        field.wf(),
    ensures
        s@ == sketch_of(elements@, field.spec_bits(), capacity as nat),
{
    let ghost bits = field.spec_bits();
    let mut s: Vec<u64> = zero_vector(capacity);
    let mut k: usize = 0;
    proof {
        lemma_mask(0, 0, bits);
        assert(elements@.take(0) =~= Seq::<u64>::empty());
    }
    while k < elements.len()
        invariant
            field.wf(),
            bits == field.spec_bits(),
            k <= elements.len(),
            s@ == sketch_of(elements@.take(k as int), bits, capacity as nat),
            s@.len() == capacity,
            all_in_field(s@, bits),
        decreases elements.len() - k,
    {
        proof {
            assert(elements@.take(k + 1).drop_last() =~= elements@.take(k as int));
        }
        toggle(field, &mut s, elements[k]);
        k = k + 1;
    }
    assert(elements@.take(elements@.len() as int) =~= elements@);
    s
}

/// Two runs without repetition that hold the same values are equally long.
proof fn lemma_same_members(a: Seq<u64>, b: Seq<u64>)
    requires
        a.no_duplicates(),
        b.no_duplicates(),
        forall|x: u64| a.contains(x) <==> b.contains(x),
    ensures
        a.len() == b.len(),
        held(a) == held(b),
{
    a.unique_seq_to_set();
    b.unique_seq_to_set();
    assert(a.to_set() =~= b.to_set());
    assert forall|x: u64| held(a).contains(x) == held(b).contains(x) by {
        lemma_holds_distinct(a, x);
        lemma_holds_distinct(b, x);
    }
    assert(held(a) =~= held(b));
}

impl Minisketch {
    /// Whether `e` lists the elements of the sketch: it lists each root of the
    /// locator of the sketch once, there are as many of them as the locator's
    /// degree and no more than the capacity, and their sketch is this sketch.
    pub open spec fn is_decoding(&self, e: Seq<u64>) -> bool {
        let c = locator(self@, self.spec_bits());
        &&& e.len() + 1 == c.len()
        &&& e.len() <= self.spec_capacity()
        &&& e.no_duplicates()
        &&& forall|x: u64| #[trigger] e.contains(x) <==> is_root(c, x, self.spec_bits())
        &&& sketch_of(e, self.spec_bits(), self.spec_capacity()) == self@
    }

    /// Whether the sketch is the sketch of the elements `d`: elements of the
    /// field other than zero, each listed once, and no more of them than the
    /// capacity.
    pub open spec fn is_sketch_of(&self, d: Seq<u64>) -> bool {
        &&& distinct_elements(d, self.spec_bits())
        &&& d.len() <= self.spec_capacity()
        &&& self@ == sketch_of(d, self.spec_bits(), self.spec_capacity())
    }

    /// Decodes the sketch: writes its elements to the start of `elements`, in
    /// no particular order, and returns their number.
    ///
    /// Fails, and leaves `elements` as it is, if the sketch cannot be decoded
    /// or holds more elements than `elements` has room for. A sketch of more
    /// elements than its capacity cannot be decoded, unless it happens to be
    /// the sketch of fewer elements too. A sketch of no more elements than
    /// its capacity decodes to these elements, given room for them: this is
    /// proved for every field that [`Minisketch::certify_field`] confirms.
    ///
    /// The seed of the sketch decides where the search for the elements
    /// starts, and so the order in which they are found.
    pub fn decode(&self, elements: &mut [u64]) -> (r: Result<usize, MinisketchError>)
        requires
            self.wf(),
        ensures
            final(elements)@.len() == old(elements)@.len(),
            r matches Ok(n) ==> {
                &&& n <= old(elements)@.len()
                &&& self.is_decoding(final(elements)@.take(n as int))
                &&& final(elements)@.skip(n as int) == old(elements)@.skip(n as int)
            },
            r matches Err(e) ==> {
                &&& final(elements)@ == old(elements)@
                &&& e@ == "Sketch decoding failed"@
                &&& forall|d: Seq<u64>| self.is_decoding(d) ==> d.len() > old(elements)@.len()
            },
            forall|d: Seq<u64>|
                is_field(self.spec_bits()) && #[trigger] self.is_sketch_of(d) && d.len() <= old(
                    elements,
                )@.len() ==> (r matches Ok(n) && final(elements)@.take(n as int).to_set()
                    == d.to_set()),
    {
        let ghost room = elements@.len();
        let r = self.decode_roots(elements);
        proof {
            assert forall|d: Seq<u64>|
                is_field(self.spec_bits()) && #[trigger] self.is_sketch_of(d) && d.len()
                    <= room implies (r matches Ok(n) && elements@.take(n as int).to_set()
                == d.to_set()) by {
                lemma_sketch_decodes(*self, d);
                match r {
                    Ok(n) => {
                        lemma_decoding_is_what_was_sketched(*self, d, elements@.take(n as int));
                    },
                    Err(_) => {},
                }
            }
        }
        r
    }

    /// Decodes the sketch from the roots of its locator.
    fn decode_roots(&self, elements: &mut [u64]) -> (r: Result<usize, MinisketchError>)
        requires
            self.wf(),
        ensures
            final(elements)@.len() == old(elements)@.len(),
            r matches Ok(n) ==> {
                &&& n <= old(elements)@.len()
                &&& self.is_decoding(final(elements)@.take(n as int))
                &&& final(elements)@.skip(n as int) == old(elements)@.skip(n as int)
            },
            r matches Err(e) ==> {
                &&& final(elements)@ == old(elements)@
                &&& e@ == "Sketch decoding failed"@
                &&& forall|d: Seq<u64>| self.is_decoding(d) ==> d.len() > old(elements)@.len()
            },
    {
        let ghost bits = self.spec_bits();
        let field: Field = self.field;
        let sums: Vec<u64> = expand(&field, &self.syndromes);
        let c: Vec<u64> = synthesize(&field, &sums);
        let degree: usize = c.len() - 1;
        assert(c@ == locator(self@, bits));
        if degree > self.syndromes.len() || degree > elements.len() {
            return Err(MinisketchError::new("Sketch decoding failed"));
        }
        let found: Vec<u64> = match roots_by_splitting(&field, &c, self.seed) {
            Some(found) => found,
            None => {
                proof {
                    assert forall|d: Seq<u64>| self.is_decoding(d) implies false by {
                        assert forall|i: int| 0 <= i < d.len() implies is_root(
                            c@,
                            #[trigger] d[i],
                            bits,
                        ) by {
                            assert(d.contains(d[i]));
                        }
                        assert(has_roots(c@, d, bits));
                    }
                }
                return Err(MinisketchError::new("Sketch decoding failed"));
            },
        };
        if found.len() != degree {
            proof {
                assert forall|d: Seq<u64>| self.is_decoding(d) implies false by {
                    lemma_same_members(d, found@);
                }
            }
            return Err(MinisketchError::new("Sketch decoding failed"));
        }
        let check: Vec<u64> = sketch_elements(&field, &found, self.syndromes.len());
        if !same_sums(&check, &self.syndromes) {
            proof {
                assert forall|d: Seq<u64>| self.is_decoding(d) implies false by {
                    lemma_same_members(d, found@);
                    lemma_sketch_of_held(d, found@, bits, self.spec_capacity());
                }
            }
            return Err(MinisketchError::new("Sketch decoding failed"));
        }
        let mut k: usize = 0;
        while k < degree
            invariant
                k <= degree,
                degree == found.len(),
                degree <= elements@.len(),
                elements@.len() == old(elements)@.len(),
                forall|i: int| 0 <= i < k ==> #[trigger] elements@[i] == found@[i],
                forall|i: int| k <= i < elements@.len() ==> #[trigger] elements@[i] == old(
                    elements,
                )@[i],
            decreases degree - k,
        {
            elements[k] = found[k];
            k = k + 1;
        }
        proof {
            assert(elements@.take(degree as int) =~= found@);
            assert(elements@.skip(degree as int) =~= old(elements)@.skip(degree as int));
        }
        Ok(degree)
    }
}

impl std::ops::BitXorAssign for Minisketch {
    /// Merges `rhs` into this sketch, as [`Minisketch::merge`] does. Where the
    /// two sketches cannot be merged, this sketch stays as it is.
    fn bitxor_assign(&mut self, rhs: Minisketch)
        requires
            old(self).wf(),
            rhs.wf(),
        ensures
            final(self).wf(),
            final(self).same_parameters(old(self)),
            old(self).mergeable_with(&rhs) ==> final(self)@ == xor_seq(
                old(self)@.take(final(self).spec_capacity() as int),
                rhs@.take(final(self).spec_capacity() as int),
            ) && final(self).spec_capacity() == vstd::math::min(
                old(self).spec_capacity() as int,
                rhs.spec_capacity() as int,
            ),
            !old(self).mergeable_with(&rhs) ==> *final(self) == *old(self),
    {
        let _ = self.merge(&rhs);
    }
}

impl Clone for Minisketch {
    /// A copy of the sketch with a state of its own.
    fn clone(&self) -> (r: Self)
        ensures
            r@ == self@,
            r.same_parameters(self),
            self.wf() ==> r.wf(),
    {
        let syndromes: Vec<u64> = self.syndromes.clone();
        assert(syndromes@ =~= self.syndromes@);
        Minisketch { field: self.field, seed: self.seed, syndromes }
    }
}

} // verus!
