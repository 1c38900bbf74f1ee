//! The archive engine's shared vocabulary.

pub mod entry;
pub mod plan;

pub use entry::ArchiveEntry;
pub use plan::MemberPlan;

use vstd::prelude::*;

verus! {

/// Largest accepted RAR5 dictionary-size log (4 GiB).
pub const MAX_DICT_SIZE_LOG: u8 = 15;

/// Members up to this size are compressed whole in parallel waves.
pub const PARALLEL_COMPRESS_MAX_MEMBER: u64 = 0x400_0000;

/// Members at least this large take the streaming compressed path.
pub const STREAM_COMPRESS_THRESHOLD: u64 = 0x400_0000;

/// Total input bytes buffered per parallel compression wave.
pub const PARALLEL_COMPRESS_WAVE_BUDGET: u64 = 0x1000_0000;

} // verus!
