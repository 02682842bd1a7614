//! Set reconciliation with sketches.
//!
//! A sketch is a short, fixed-size summary of a set of integers. Two parties
//! that hold similar sets exchange sketches instead of sets: the merge of
//! both sketches is the sketch of the symmetric difference of the sets, and a
//! sketch of capacity `c` can be decoded back into its elements whenever it
//! holds at most `c` of them.
//!
//! Elements live in a binary field `GF(2^bits)`; a sketch stores the power
//! sums of odd order of its elements in that field.
//!
//! The library:
//!
//! * [`sketch`] is the sketch itself, [`Minisketch`], with its operations;
//! * [`error`] is the error that its operations return;
//! * [`field`] is the arithmetic of the fields;
//! * [`sums`] says what a sketch holds and [`wire`] how it is written to
//!   bytes;
//! * [`locator`] and [`roots`] find the elements of a sketch: the polynomial
//!   that has them as its roots, and its roots;
//! * [`text`] writes numbers as text.
//!
//! What is proved of it, beyond the contracts of the functions:
//!
//! * [`theorems`] holds the statements about sketches;
//! * [`ring`] proves the laws of the arithmetic;
//! * [`certify`] proves that a field that passes its check is a field;
//! * [`unique`], [`synthesis`] and [`complete`] prove that, in a field, a
//!   sketch of no more elements than its capacity decodes to these elements
//!   and to nothing else.

pub mod certify;
pub mod complete;
pub mod error;
pub mod field;
pub mod locator;
pub mod ring;
pub mod roots;
pub mod sketch;
pub mod sums;
pub mod synthesis;
pub mod text;
pub mod theorems;
pub mod unique;
pub mod wire;

pub use error::MinisketchError;
pub use sketch::Minisketch;
