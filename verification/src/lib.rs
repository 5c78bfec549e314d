//! A small local memory store: records of text are embedded as hashed
//! bag-of-words vectors, persisted in two line-oriented logs, and retrieved
//! by a blend of similarity, recency and weight.
//!
//! Everything that computes on plain values lives here and is verified; the
//! thin shell that touches the filesystem, the clock display and the
//! floating-point scoring sits outside the library.

pub mod chars;
pub mod clock;
pub mod embed;
pub mod floattext;
pub mod lines;
pub mod num;
pub mod record;
pub mod store;
pub mod text;
pub mod vector;

use vstd::prelude::*;

verus! {

/// Number of buckets in every embedding vector.
pub const VECTOR_DIM: usize = 256;

} // verus!
