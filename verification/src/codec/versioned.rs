//! Encoding by archive version.

use crate::codec::dispatch::{compress, compress_chunked, compress_with_progress, method_progress, method_result};
use crate::codec::encode::{at_least_one, EncoderState, DEFAULT_CHUNK_SIZE};
use crate::codec::levels::{nothing_carried, Carried};
use crate::version::ArchiveVersion;
use vstd::prelude::*;

verus! {

/// Encode `data` using the specified RAR5 compression method.
pub fn encode(data: &[u8], method: u8, dict_size_log: u8) -> (r: Result<Vec<u8>, String>)
    requires
        dict_size_log <= 46,
    ensures
        exists|c1: Carried| #[trigger]
            method_result(
                method,
                nothing_carried(),
                data@,
                r,
                c1,
                dict_size_log,
                DEFAULT_CHUNK_SIZE as int,
                true,
                false,
            ),
{
    compress(data, method, dict_size_log)
}

/// Encode `data` using the specified RAR5 compression method, reporting
/// progress as `(bytes_processed, total_bytes)` through `progress`.
pub fn encode_with_progress(
    data: &[u8],
    method: u8,
    dict_size_log: u8,
    progress: Option<&mut Vec<(u64, u64)>>,
) -> (r: Result<Vec<u8>, String>)
    requires
        dict_size_log <= 46,
    ensures
        exists|c1: Carried| #[trigger]
            method_result(
                method,
                nothing_carried(),
                data@,
                r,
                c1,
                dict_size_log,
                DEFAULT_CHUNK_SIZE as int,
                true,
                false,
            ),
        match progress {
            Some(p) => method_progress(
                method,
                p@,
                final(p)@,
                data@.len() as int,
                DEFAULT_CHUNK_SIZE as int,
                r,
            ),
            None => true,
        },
{
    compress_with_progress(data, method, dict_size_log, progress)
}

/// Encode `data` in bounded chunks, optionally carrying encoder state
/// across files (solid archives). `variant` selects the distance code table:
/// `ArchiveVersion::Rar70` the RAR7 one, every other version the RAR5 one.
pub fn encode_chunked(
    data: &[u8],
    method: u8,
    dict_size_log: u8,
    chunk_size: usize,
    state: Option<&mut EncoderState>,
    is_final: bool,
    progress: Option<&mut Vec<(u64, u64)>>,
    variant: ArchiveVersion,
) -> (r: Result<Vec<u8>, String>)
    requires
        dict_size_log <= 46,
        match state {
            Some(s) => s.wf(),
            None => true,
        },
    ensures
        match state {
            Some(s) => final(s).wf() && method_result(
                method,
                s.carried(),
                data@,
                r,
                final(s).carried(),
                dict_size_log,
                at_least_one(chunk_size),
                is_final,
                variant.spec_extra_dist(),
            ),
            None => exists|c1: Carried| #[trigger]
                method_result(
                    method,
                    nothing_carried(),
                    data@,
                    r,
                    c1,
                    dict_size_log,
                    at_least_one(chunk_size),
                    is_final,
                    variant.spec_extra_dist(),
                ),
        },
        match progress {
            Some(p) => method_progress(
                method,
                p@,
                final(p)@,
                data@.len() as int,
                at_least_one(chunk_size),
                r,
            ),
            None => true,
        },
{
    compress_chunked(
        data,
        method,
        dict_size_log,
        chunk_size,
        state,
        is_final,
        progress,
        variant.extra_dist(),
    )
}

} // verus!
