//! The codec by compression method: stored, or one of the five levels.

use crate::codec::decode::{decode_member, output_fits, state_after, DecoderState};
use crate::codec::encode::{
    at_least_one, encode_chunked, level_encodes, reported, EncoderState, DEFAULT_CHUNK_SIZE,
};
use crate::codec::error::CodecError;
use crate::codec::levels::{nothing_carried, Carried};
use crate::codec::rar50::{decode, is_outcome, standalone_result, DecodeOptions};
use crate::codec::roundtrip::is_encoding;
use vstd::prelude::*;

verus! {

/// The data as it is.
pub const COMP_METHOD_STORE: u8 = 0;

/// The quickest level.
pub const COMP_METHOD_FASTEST: u8 = 1;

/// The level that packs smallest.
pub const COMP_METHOD_BEST: u8 = 5;

/// What compressing by `method` promises.
pub open spec fn method_result(
    method: u8,
    c0: Carried,
    data: Seq<u8>,
    r: Result<Vec<u8>, String>,
    c1: Carried,
    dict_size_log: u8,
    chunk_size: int,
    is_final: bool,
    extra_dist: bool,
) -> bool {
    if method == COMP_METHOD_STORE {
        r is Ok && r->Ok_0@ == data && c1 == c0
    } else if method <= COMP_METHOD_BEST {
        r is Ok && level_encodes(
            c0,
            data,
            r->Ok_0@,
            c1,
            method,
            dict_size_log,
            chunk_size,
            is_final,
            extra_dist,
        )
    } else {
        r is Err && r->Err_0@ == (CodecError::UnknownMethod { method }).spec_message() && c1 == c0
    }
}

/// The progress that compressing by `method` reports.
pub open spec fn method_progress(
    method: u8,
    before: Seq<(u64, u64)>,
    after: Seq<(u64, u64)>,
    len: int,
    chunk_size: int,
    r: Result<Vec<u8>, String>,
) -> bool {
    if method == COMP_METHOD_STORE {
        after == before.push((len as u64, len as u64))
    } else if method <= COMP_METHOD_BEST && len > 0 {
        reported(before, after, len, chunk_size, r is Ok && r->Ok_0@.len() <= len)
    } else {
        after == before
    }
}

/// Compress `data` using the specified RAR5 compression method.
pub fn compress(data: &[u8], method: u8, dict_size_log: u8) -> (r: Result<Vec<u8>, String>)
    requires
        dict_size_log <= 46,
    ensures
        exists|c1: Carried| #[trigger]
            method_result(
                method,
                nothing_carried(),
                data@,
                r,
                c1,
                dict_size_log,
                DEFAULT_CHUNK_SIZE as int,
                true,
                false,
            ),
        1 <= method <= COMP_METHOD_BEST ==> r is Ok && is_encoding(
            r->Ok_0@,
            data@,
            method,
            dict_size_log,
            false,
        ),
{
    let r = compress_with_progress(data, method, dict_size_log, None);
    proof {
        let c1 = choose|c1: Carried| #[trigger]
            method_result(
                method,
                nothing_carried(),
                data@,
                r,
                c1,
                dict_size_log,
                DEFAULT_CHUNK_SIZE as int,
                true,
                false,
            );
        if 1 <= method <= COMP_METHOD_BEST {
            assert(level_encodes(
                nothing_carried(),
                data@,
                r->Ok_0@,
                c1,
                method,
                dict_size_log,
                DEFAULT_CHUNK_SIZE as int,
                true,
                false,
            ));
        }
    }
    r
}

/// Compress `data` using the specified RAR5 compression method, reporting
/// progress as `(bytes_processed, total_bytes)` through `progress`.
pub fn compress_with_progress(
    data: &[u8],
    method: u8,
    dict_size_log: u8,
    progress: Option<&mut Vec<(u64, u64)>>,
) -> (r: Result<Vec<u8>, String>)
    requires
        dict_size_log <= 46,
    ensures
        exists|c1: Carried| #[trigger]
            method_result(
                method,
                nothing_carried(),
                data@,
                r,
                c1,
                dict_size_log,
                DEFAULT_CHUNK_SIZE as int,
                true,
                false,
            ),
        match progress {
            Some(p) => method_progress(
                method,
                p@,
                final(p)@,
                data@.len() as int,
                DEFAULT_CHUNK_SIZE as int,
                r,
            ),
            None => true,
        },
{
    compress_chunked(
        data,
        method,
        dict_size_log,
        DEFAULT_CHUNK_SIZE,
        None,
        true,
        progress,
        false,
    )
}

/// Compress `data` in bounded chunks, optionally carrying encoder state
/// across files (solid archives). The symbol table and match finder stay
/// proportional to `chunk_size` instead of the whole file.
///
/// `extra_dist` selects the RAR7 (v70) distance code table (80 entries
/// instead of 64); set it when the member header declares a dictionary
/// above 4 GiB.
pub fn compress_chunked(
    data: &[u8],
    method: u8,
    dict_size_log: u8,
    chunk_size: usize,
    state: Option<&mut EncoderState>,
    is_final: bool,
    progress: Option<&mut Vec<(u64, u64)>>,
    extra_dist: bool,
) -> (r: Result<Vec<u8>, String>)
    requires
        dict_size_log <= 46,
        match state {
            Some(s) => s.wf(),
            None => true,
        },
    ensures
        match state {
            Some(s) => final(s).wf() && method_result(
                method,
                s.carried(),
                data@,
                r,
                final(s).carried(),
                dict_size_log,
                at_least_one(chunk_size),
                is_final,
                extra_dist,
            ),
            None => exists|c1: Carried| #[trigger]
                method_result(
                    method,
                    nothing_carried(),
                    data@,
                    r,
                    c1,
                    dict_size_log,
                    at_least_one(chunk_size),
                    is_final,
                    extra_dist,
                ),
        },
        match progress {
            Some(p) => method_progress(
                method,
                p@,
                final(p)@,
                data@.len() as int,
                at_least_one(chunk_size),
                r,
            ),
            None => true,
        },
{
    if method == COMP_METHOD_STORE {
        if let Some(log) = progress {
            log.push((data.len() as u64, data.len() as u64));
        }
        let r: Result<Vec<u8>, String> = Ok(vstd::slice::slice_to_vec(data));
        assert(method_result(
            method,
            nothing_carried(),
            data@,
            r,
            nothing_carried(),
            dict_size_log,
            at_least_one(chunk_size),
            is_final,
            extra_dist,
        ));
        return r;
    }
    if method <= COMP_METHOD_BEST {
        let r = encode_chunked(
            data,
            method,
            dict_size_log,
            chunk_size,
            state,
            is_final,
            progress,
            extra_dist,
        );
        proof {
            if state is None {
                let c1 = choose|c1: Carried| #[trigger]
                    level_encodes(
                        nothing_carried(),
                        data@,
                        r->Ok_0@,
                        c1,
                        method,
                        dict_size_log,
                        at_least_one(chunk_size),
                        is_final,
                        extra_dist,
                    );
                assert(method_result(
                    method,
                    nothing_carried(),
                    data@,
                    r,
                    c1,
                    dict_size_log,
                    at_least_one(chunk_size),
                    is_final,
                    extra_dist,
                ));
            }
        }
        return r;
    }
    let r: Result<Vec<u8>, String> = Err(CodecError::UnknownMethod { method }.message());
    assert(method_result(
        method,
        nothing_carried(),
        data@,
        r,
        nothing_carried(),
        dict_size_log,
        at_least_one(chunk_size),
        is_final,
        extra_dist,
    ));
    r
}

/// The outcome, where it is not of the size announced an error.
pub open spec fn of_size(outcome: Result<Seq<u8>, CodecError>, size: u64) -> Result<
    Seq<u8>,
    CodecError,
> {
    match outcome {
        Ok(v) => if v.len() == size {
            Ok(v)
        } else {
            Err(CodecError::SizeMismatch { wanted: size, produced: v.len() as u64 })
        },
        Err(e) => Err(e),
    }
}

/// Decompress `data` using the specified RAR5 compression method.
pub fn decompress(
    data: &[u8],
    method: u8,
    unpacked_size: u64,
    dict_size_log: u8,
    state: Option<&mut DecoderState>,
) -> (r: Result<Vec<u8>, String>)
    requires
        data@.len() < 0x1000_0000_0000_0000,
        match state {
            Some(s) => s.wf() && s.lz().out.len() + unpacked_size + 0x1_0000_2000 <= u64::MAX
                && output_fits(
                data@,
                unpacked_size as int,
                s.tabs(),
                s.lz(),
                s.core.window.capacity(),
                false,
            ),
            None => true,
        },
    ensures
        method == COMP_METHOD_STORE ==> r is Ok && r->Ok_0@ == data@,
        method > COMP_METHOD_BEST ==> r is Err && r->Err_0@ == (CodecError::UnknownMethod {
            method,
        }).spec_message(),
        match state {
            Some(s) => {
                &&& final(s).wf()
                &&& 1 <= method <= COMP_METHOD_BEST ==> is_outcome(
                    r,
                    of_size(
                        decode_member(
                            data@,
                            unpacked_size as int,
                            s.tabs(),
                            s.lz(),
                            s.core.window.capacity(),
                            false,
                        ),
                        unpacked_size,
                    ),
                )
                &&& 1 <= method <= COMP_METHOD_BEST ==> state_after(
                    data@,
                    unpacked_size as int,
                    s.tabs(),
                    s.lz(),
                    s.core.window.capacity(),
                    false,
                    final(s).tabs(),
                    final(s).lz(),
                )
                &&& !(1 <= method <= COMP_METHOD_BEST) ==> *final(s) == *s
            },
            None => 1 <= method <= COMP_METHOD_BEST ==> is_outcome(
                r,
                of_size(
                    standalone_result(data@, unpacked_size, dict_size_log, None, false),
                    unpacked_size,
                ),
            ),
        },
{
    if method == COMP_METHOD_STORE {
        return Ok(vstd::slice::slice_to_vec(data));
    }
    if method <= COMP_METHOD_BEST {
        let result: Vec<u8> = match decode(
            data,
            unpacked_size,
            DecodeOptions { dict_size_log, dict_size_bytes: None, extra_dist: false, state },
        ) {
            Ok(v) => v,
            Err(e) => {
                return Err(e);
            },
        };
        if result.len() as u64 != unpacked_size {
            return Err(
                CodecError::SizeMismatch {
                    wanted: unpacked_size,
                    produced: result.len() as u64,
                }.message(),
            );
        }
        return Ok(result);
    }
    Err(CodecError::UnknownMethod { method }.message())
}

} // verus!
