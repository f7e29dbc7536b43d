//! Builder for fixed-capacity, bit-addressable tree nodes ("cells").
//!
//! A cell holds up to 1023 data bits and up to four references to child
//! cells. `BuilderData` is the mutable form: bits are appended or prepended
//! with sub-byte shifting, the buffer is kept canonical (no stray bits after
//! the logical end), and `finalize` turns it into an immutable shared `Cell`.

mod bits;
mod byte_vec;
mod ref_vec;
mod tag;
mod types;
mod cell;
mod builder;
mod slice;

pub use bits::{bit_at, seq_bit, bits_of, byte_len, canonical};
pub use byte_vec::ByteVec;
pub use ref_vec::RefVec;
pub use tag::{append_tag, find_tag, is_tagged, tag_len, is_last_one, lemma_tagged_len};
pub use types::{ExceptionCode, Result, CellType, LevelMask, MAX_DATA_BITS, MAX_REFERENCES_COUNT, MAX_SAFE_DEPTH};
pub use slice::SliceData;
pub use cell::{Cell, depth_over, levels_over, tag_ok};
pub use builder::{
    BuilderData, concat_bit, clamped_len, is_common_prefix, common_prefix_len, bit_after, final_level,
    finalized, reopened, lemma_canonical_determinism, lemma_append_bytes, lemma_tag_round_trip, lemma_finalize_reopen,
};
