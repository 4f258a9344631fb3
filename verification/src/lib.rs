//! Bijective positional identifiers over an ordered alphabet.
//!
//! The crate maps every positive integer ("ordinal") to exactly one
//! non-empty string over a chosen alphabet and back, and finds the
//! smallest ordinal not yet taken by a set of existing identifiers.

mod allocator;
mod codec;
mod utils;

pub use allocator::allocate;
pub use codec::all_in_alphabet;
pub use codec::digit_of;
pub use codec::encode_seq;
pub use codec::seq_ord;
pub use codec::lemma_encode_len_monotonic;
pub use codec::lemma_round_trip;
pub use codec::ord_is_used;
pub use codec::unique_symbols;
pub use codec::AnyBase;
pub use codec::OrdResult;
pub use utils::lemma_permutation_preserves_no_duplicates;
pub use utils::shuffle_string;
pub use utils::AppError;
pub use utils::Args;
pub use utils::EMOJI_LIST;
