//! A packed array of fixed-width unsigned integers.
//!
//! Each element takes exactly `register_size` bits (1 to 7), and the
//! elements are stored back to back, most significant bit first, in a byte
//! buffer with no padding between them.

pub mod bit_array;
pub mod layout;

pub use bit_array::{
    BitArray, BitArrayError, Iter, Iter2, lemma_set_then_get, lemma_set_keeps_others,
    lemma_set_keeps_len,
};
