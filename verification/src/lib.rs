//! Q8 pronounceable binary encoding and the syllable logic around it.
use vstd::prelude::*;

pub mod q8;
pub mod text;
pub mod flashcard;
pub mod pipeline;
pub mod segmenter;
pub mod transversal;
pub mod profile;
pub mod tome;
