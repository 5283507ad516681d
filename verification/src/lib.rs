//! Small utilities for matching filter patterns: bit masks on 32-bit hashes,
//! a fast string hash, pattern tokenizers, sorted-list search and UTF-8 aware
//! prefix tests.
use vstd::prelude::*;

pub mod bits;
pub mod chars;
pub mod hash;
pub mod search;
pub mod tokenizer;

pub use bits::{bit_count, clear_bit, get_bit, set_bit};
pub use chars::{fast_starts_with, fast_starts_with_from, has_unicode};
pub use hash::{fast_hash, fast_hash_between};
pub use search::{bin_lookup, bin_search};
pub use tokenizer::{create_fuzzy_signature, tokenize, tokenize_filter, tokenize_hostnames};

verus! {

/// The hash type used throughout the library.
pub type Hash = u32;

/// The most tokens that one pattern yields.
pub const TOKENS_BUFFER_SIZE: usize = 200;

} // verus!
