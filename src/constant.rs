use vstd::prelude::*;

verus! {

/// Number of bits of a deadline that one layer resolves.
pub const LAYER_BITS: usize = 6;

/// Number of buckets in one layer.
pub const LAYER_SIZE: usize = 64;

/// Mask that selects one layer's digit.
pub const LAYER_MASK: usize = 63;

/// Number of layers needed to hold any `usize` deadline: `ceil(63 / 6)`.
pub const MAX_LAYERS: usize = 11;

/// Smallest delay in milliseconds; smaller delays are raised to it.
pub const MIN_DELAY: i64 = 1;

/// Largest delay in milliseconds; larger delays are lowered to it.
pub const MAX_DELAY: i64 = 0xFFFF_FFFF;

} // verus!
