use rar::codec::bitstream::BitWriter;
use rar::codec::block::build_block_header;
use rar::codec::decode::DecoderState;
use rar::codec::encode::{encode_chunked, encode_chunked_mt, EncoderState, DEFAULT_CHUNK_SIZE};
use rar::codec::filtered::{
    encode_with_auto_x86_filter, encode_with_filters, FilterSpec, MAX_FILTER_BLOCK_LENGTH,
};
use rar::codec::huffman::{
    build_code_lengths_from_freqs, encode_symbol, DecodeTable, EncodeTable,
};
use rar::codec::match_finder::{LongRange, LONG_RANGE_MAX};
use rar::codec::rar50::{checked_dict_size, decode, decode_standalone, DecodeOptions};
use rar::codec::roundtrip::encode;
use rar::codec::streaming::{decode_standalone_to_writer, decode_to_writer};
use rar::codec::symbols::{
    write_filter_data, FILTER_ARM, FILTER_DELTA, FILTER_E8, FILTER_E8E9, SYM_FILTER,
};
use rar::codec::tables::{
    ensure_nonzero, write_tables, HUFF_DC, HUFF_LDC, HUFF_NC, HUFF_RC, MAX_CODE_LENGTH,
};

fn one_symbol_table(count: usize) -> Vec<u8> {
    let mut v = vec![0u8; count];
    v[0] = 1;
    v
}

/// Build a compressed RAR5 stream containing a Delta filter followed by
/// delta-encoded literals, then verify the streaming decoder applies
/// the filter and produces the original bytes.
#[test]
fn streaming_decode_applies_delta_filter() {
    let original: Vec<u8> = (0..300u32).map(|i| (i * 7 % 251) as u8).collect();
    // delta_decode computes cumulative negative sums:
    // result[i] = result[i-1] - D[i], so D[i] = prev - original[i].
    let mut delta = vec![0u8; original.len()];
    let mut prev = 0u8;
    for (i, &b) in original.iter().enumerate() {
        delta[i] = prev.wrapping_sub(b);
        prev = b;
    }

    let mut nc_freq = vec![0u32; HUFF_NC];
    for &b in &delta {
        nc_freq[b as usize] += 1;
    }
    nc_freq[SYM_FILTER] += 1;
    ensure_nonzero(&mut nc_freq);

    let nc_lengths = build_code_lengths_from_freqs(&nc_freq, MAX_CODE_LENGTH);
    let dc_lengths = build_code_lengths_from_freqs(&vec![1u32; HUFF_DC], MAX_CODE_LENGTH);
    let ldc_lengths = build_code_lengths_from_freqs(&[1u32; HUFF_LDC], MAX_CODE_LENGTH);
    let rc_lengths = build_code_lengths_from_freqs(&[1u32; HUFF_RC], MAX_CODE_LENGTH);
    let enc_nc = EncodeTable::new(&nc_lengths);

    let mut writer = BitWriter::new();
    write_tables(
        &mut writer,
        &nc_lengths,
        &dc_lengths,
        &ldc_lengths,
        &rc_lengths,
    );

    // Filter symbol + data (offset 0, length = original, delta, 1 channel).
    encode_symbol(&enc_nc, &mut writer, SYM_FILTER);
    write_filter_data(&mut writer, 0);
    write_filter_data(&mut writer, original.len() as u32);
    writer.write_bits(FILTER_DELTA as u32, 3);
    writer.write_bits(0, 5); // channels - 1

    for &b in &delta {
        encode_symbol(&enc_nc, &mut writer, b as usize);
    }

    let total_bits = writer.bit_count();
    let block_data = writer.into_bytes();
    let stream = build_block_header(&block_data, total_bits, true, true);

    let mut out = Vec::new();
    let written = decode_to_writer(
        &stream,
        original.len() as u64,
        DecodeOptions {
            dict_size_log: 0,
            ..Default::default()
        },
        &mut out,
    )
    .expect("decode");
    assert_eq!(written as usize, original.len());
    assert_eq!(out, original);
}

#[test]
fn encoder_state_carries_matches_across_chunks() {
    // A long run of identical bytes must still compress when the input
    // is split across chunk boundaries with a shared encoder state.
    let data = vec![0xABu8; 3 * DEFAULT_CHUNK_SIZE + 12345];
    let mut state = EncoderState::default();
    let mut packed = Vec::new();
    let chunks: Vec<&[u8]> = data.chunks(DEFAULT_CHUNK_SIZE).collect();
    for (i, chunk) in chunks.iter().enumerate() {
        packed.extend(
            encode_chunked(
                chunk,
                5,
                3,
                DEFAULT_CHUNK_SIZE,
                Some(&mut state),
                i + 1 == chunks.len(),
                None,
                false,
            )
            .unwrap(),
        );
    }
    assert!(
        packed.len() * 4 < data.len(),
        "long repeats must compress well across chunks: {} vs {}",
        packed.len(),
        data.len()
    );
    let roundtrip =
        decode_standalone(&packed, data.len() as u64, 3, None, false).unwrap();
    assert_eq!(roundtrip, data);
}

#[test]
fn one_symbol_tables_are_valid() {
    let table = DecodeTable::new(&one_symbol_table(4));
    assert_eq!(table.num_symbols, 4);
}

#[test]
fn v70_extra_dist_self_roundtrip() {
    // Varied data (literal-heavy) at several sizes.
    for size in [1usize, 100, 1000, 100_000, 300_000] {
        let data: Vec<u8> = (0..size).map(|i| (i.wrapping_mul(31) >> 3) as u8).collect();
        let packed = encode(&data, 3, 0, true);
        let back = decode_standalone(&packed, size as u64, 0, Some(128 * 1024), true).unwrap();
        assert_eq!(back, data, "size {size}");
    }
    // Repeated data (match/cache-heavy).
    let data = vec![0xABu8; 300_000];
    let packed = encode(&data, 3, 0, true);
    let back =
        decode_standalone(&packed, data.len() as u64, 0, Some(128 * 1024), true).unwrap();
    assert_eq!(back, data);
}

/// Deterministic pseudo-random bytes (LCG) — incompressible.
fn pseudo_random(len: usize, seed: u64) -> Vec<u8> {
    let mut state = seed;
    (0..len)
        .map(|_| {
            state = state
                .wrapping_mul(6364136223846793005)
                .wrapping_add(1442695040888963407);
            (state >> 33) as u8
        })
        .collect()
}

/// Long-range matches (WinRAR `-mcl` semantics): a repeated block far
/// beyond the near window (tail + chunk) must still compress, and the
/// stream must round-trip byte-identically.
#[test]
fn long_range_matches_compress_distant_repeats() {
    // 2 MiB random + 2 MiB exact copy: distance 2 MiB, far beyond the
    // 128 KiB near window of a 64 KiB chunk encoder.
    let half = 2 * 1024 * 1024usize;
    let mut data = pseudo_random(half, 42);
    let copy = data[..half].to_vec();
    data.extend_from_slice(&copy);
    let packed = encode_chunked(&data, 3, 8, 64 * 1024, None, true, None, false).unwrap();
    // The copy half must compress to a small fraction; the random half
    // stores at ~1:1. Well below 1.5 MiB total proves the 2 MiB
    // repeat was matched.
    assert!(
        packed.len() < half + half / 4,
        "distant repeat must compress: {} vs {}",
        packed.len(),
        data.len()
    );
    // Byte-identical round-trip (dictionary 32 MiB covers the 2 MiB
    // distance; unpacked size over the RAR5 4 GiB cap is irrelevant).
    let back = decode_standalone(&packed, data.len() as u64, 8, None, false).unwrap();
    assert_eq!(back, data);
}

/// Long-range matches respect the dictionary window: repeats beyond
/// the declared dictionary must NOT be encoded as matches (the decoder
/// window could not reach them). With a 128 KiB dictionary the 2 MiB
/// copy is incompressible, so the encoder must store it.
#[test]
fn long_range_respects_dictionary_window() {
    // Same distant repeat as above, but with dict_size_log = 0
    // (128 KiB): the 2 MiB distance exceeds the window.
    let half = 2 * 1024 * 1024usize;
    let mut data = pseudo_random(half, 7);
    let copy = data[..half].to_vec();
    data.extend_from_slice(&copy);
    let packed = encode_chunked(&data, 3, 0, 64 * 1024, None, true, None, false).unwrap();
    // Random half ~1:1 + copy half ~1:1 → near 4 MiB. Bail-out may
    // truncate; either way it must not shrink below ~half.
    assert!(
        packed.len() > half,
        "beyond-window repeats must not match: {} vs {}",
        packed.len(),
        data.len()
    );
}

/// The long-range history slides: after more than LONG_RANGE_MAX
/// bytes, the oldest bytes drop out and the table is rebuilt; the
/// newest candidates keep matching.
#[test]
fn long_range_slides_window_and_finds() {
    let mut lr = LongRange::new(128 * 1024 * 1024);
    let chunk = pseudo_random(64 * 1024, 11);
    // Push enough identical 64 KiB chunks to slide the 64 MiB window
    // several times over.
    for _ in 0..(LONG_RANGE_MAX / chunk.len() + 8) {
        lr.push(&chunk);
    }
    assert!(lr.hist_len() <= LONG_RANGE_MAX);
    // The chunk still matches against the (rebuilt) history; max_len
    // caps the match at 4096 bytes. (All blocks are identical, so the
    // table keeps only the most recent candidate — near the window
    // end; min_dist 1 accepts it.)
    let (dist, len) = lr.find(&chunk, 0, 1, 4096).expect("must find");
    assert_eq!(len, 4096, "full match must be found after sliding");
    assert!(dist as usize > 0 && dist as usize <= LONG_RANGE_MAX);
}

/// Debug reproduction: a distant copy of a random block must be found
/// through the long-range table (the pair.bin scenario).
#[test]
fn long_range_debug_distant_copy() {
    let half = 2 * 1024 * 1024usize;
    let first = pseudo_random(half, 42);
    let mut lr = LongRange::new(32 * 1024 * 1024);
    for c in first.chunks(64 * 1024) {
        lr.push(c);
    }
    let r = lr.find(&first, 0, 128 * 1024, 4096);
    assert!(
        matches!(r, Some((_, l)) if l > 1000),
        "distant copy must be found, got {r:?}"
    );
}

/// Simulates the streaming write path: one `encode_chunked` call per
/// 4 MiB buffer with a shared encoder state. A 64 MiB distant copy
/// must compress (WinRAR `-mcl` semantics for large files).
#[test]
fn long_range_streaming_simulation() {
    let half = 4 * 1024 * 1024usize;
    let first = pseudo_random(half, 42);
    let mut data = first.clone();
    data.extend_from_slice(&first);
    let mut state = EncoderState::default();
    let mut packed = Vec::new();
    for chunk in data.chunks(DEFAULT_CHUNK_SIZE) {
        let is_final = chunk.len() < DEFAULT_CHUNK_SIZE;
        packed.extend(
            encode_chunked(
                chunk,
                3,
                8,
                DEFAULT_CHUNK_SIZE,
                Some(&mut state),
                is_final,
                None,
                false,
            )
            .unwrap(),
        );
    }
    assert!(
        packed.len() < half + half / 4,
        "streaming long-range must compress the distant copy: {}",
        packed.len()
    );
}

/// The RAR5 format ceiling is 4 GiB (log 15); RAR7 sizes come from
/// the byte count. Larger values are rejected.
#[test]
fn checked_dict_size_accepts_range_and_rejects_larger() {
    assert_eq!(checked_dict_size(0, None).unwrap(), 128 * 1024);
    assert_eq!(checked_dict_size(13, None).unwrap(), 1024 * 1024 * 1024);
    assert_eq!(checked_dict_size(15, None).unwrap(), 4 * 1024 * 1024 * 1024);
    let err = checked_dict_size(16, None).unwrap_err();
    assert!(err.contains("maximum 15"), "{err}");
    // RAR7: byte count, non-power-of-two rounds the window up.
    assert_eq!(
        checked_dict_size(0, Some(6 * 1024 * 1024 * 1024)).unwrap(),
        8 * 1024 * 1024 * 1024
    );
}

/// Fuzz regression: block flags with the reserved bit 5 set previously
/// produced a byte_count of 8, overflowing the u32 block-size shift in
/// debug builds. The block size field is 2 bits (1-4 bytes); reserved
/// bits are ignored.
#[test]
fn block_flags_with_reserved_bit_do_not_overflow() {
    let stream = [0xe4u8, 0x00, 0xe0, 0x00, 0xe0, 0x00, 0x00];
    assert!(decode_standalone(&stream, 78090, 0, None, false).is_err());
}

/// Fuzz regression: a valid archive with a 3-byte block size field
/// (byte_count 3) still decodes.
#[test]
fn three_byte_block_size_field_decodes() {
    let data = b"rar5 three-byte block size regression test data ".repeat(64);
    let packed = encode(&data, 3, 3, false);
    let back = decode_standalone(&packed, data.len() as u64, 3, None, false).unwrap();
    assert_eq!(back, data);
}

/// Regression: streaming decode (used by `extract_all`) applied split
/// filter records at the wrong staging offset once part of the staging
/// buffer had already been written out. Members whose filter region
/// exceeds MAX_FILTER_BLOCK_LENGTH are split into multiple records, so
/// the streaming path must produce byte-identical output to the
/// buffered path for every filter type.
#[test]
fn streaming_decode_matches_buffered_for_split_filter_records() {

    fn pattern(filter_type: u8, size: usize) -> Vec<u8> {
        match filter_type {
            FILTER_E8 | FILTER_E8E9 => {
                let mut data = vec![0x90u8; size];
                let mut pos = 0usize;
                while pos + 5 <= size {
                    data[pos] = if filter_type == FILTER_E8 || pos.is_multiple_of(170) {
                        0xE8
                    } else {
                        0xE9
                    };
                    let addr = ((pos as u32).wrapping_mul(7)) & 0x00FF_FFFF;
                    data[pos + 1..pos + 5].copy_from_slice(&addr.to_le_bytes());
                    pos += 85;
                }
                data
            }
            FILTER_ARM => {
                let mut data = vec![0x00u8; size];
                let mut pos = 0usize;
                while pos + 4 <= size {
                    data[pos + 3] = 0xEB;
                    let off = ((pos as u32).wrapping_mul(3)) & 0x00FF_FFFF;
                    data[pos..pos + 3].copy_from_slice(&off.to_le_bytes()[..3]);
                    pos += 64;
                }
                data
            }
            _ => (0..size).map(|i| (i % 251) as u8).collect(),
        }
    }

    let cases: [(u8, u8); 5] = [
        (FILTER_E8, 0),
        (FILTER_E8E9, 0),
        (FILTER_ARM, 0),
        (FILTER_DELTA, 1),
        (FILTER_DELTA, 4),
    ];
    for &(filter_type, channels) in &cases {
        for &size in &[MAX_FILTER_BLOCK_LENGTH as usize + 1, 300_000usize] {
            let data = pattern(filter_type, size);
            let spec = FilterSpec::new(filter_type, channels, 0, size as u32);
            let packed = encode_with_filters(&data, 3, 0, &[spec], false).unwrap();
            let buffered = decode_standalone(&packed, size as u64, 0, None, false).unwrap();
            let mut streamed = Vec::new();
            let written = decode_standalone_to_writer(
                &packed,
                size as u64,
                0,
                None,
                false,
                &mut streamed,
            )
            .unwrap();
            assert_eq!(written, size as u64);
            assert_eq!(
                streamed, buffered,
                "streaming != buffered for filter {filter_type:#x}, channels {channels}, size {size}"
            );
            assert_eq!(
                streamed, data,
                "streaming != original for filter {filter_type:#x}, channels {channels}, size {size}"
            );
        }
    }
}

/// Synthetic x86 code: E8/E9 opcodes with plausible relative targets,
/// dense enough that the automatic scan finds a region. The auto-filter
/// path must pick it up, pack it, and decode back to the original.
#[test]
fn auto_x86_filter_roundtrips_and_packs_smaller() {

    fn x86ish(size: usize) -> Vec<u8> {
        let mut data = vec![0x90u8; size]; // NOP padding
        let mut pos = 0usize;
        while pos + 5 <= size {
            data[pos] = if pos.is_multiple_of(170) { 0xE8 } else { 0xE9 };
            let addr = ((pos as u32).wrapping_mul(7)) & 0x00FF_FFFF;
            data[pos + 1..pos + 5].copy_from_slice(&addr.to_le_bytes());
            pos += 85;
        }
        data
    }

    let data = x86ish(400_000);
    let packed = encode_with_auto_x86_filter(&data, 3, 0, false)
        .unwrap()
        .expect("x86 scan must find regions");
    assert!(
        packed.len() < data.len(),
        "filtered encoding should compress: {} vs {}",
        packed.len(),
        data.len()
    );
    let back = decode_standalone(&packed, data.len() as u64, 0, None, false).unwrap();
    assert_eq!(back, data);

    // Non-code data with isolated opcodes must NOT be filtered.
    let mut sparse = vec![0x41u8; 20_000];
    sparse[100] = 0xE8;
    sparse[10_000] = 0xE8;
    assert!(
        encode_with_auto_x86_filter(&sparse, 3, 0, false)
            .unwrap()
            .is_none()
    );
}

/// Regression: filter positions and E8 transform offsets are
/// member-relative even when the member sits at a non-zero offset of a
/// solid chain (WinRAR's `WrittenFileSize` is per-file while the filter
/// record positions are stream-absolute). Decoding a filtered member
/// with shared decoder state must reproduce the original bytes.
#[test]
fn filtered_member_at_solid_offset_decodes_member_relative() {

    fn x86ish(size: usize) -> Vec<u8> {
        let mut data = vec![0x90u8; size];
        let mut pos = 0usize;
        while pos + 5 <= size {
            data[pos] = if pos.is_multiple_of(170) { 0xE8 } else { 0xE9 };
            let addr = ((pos as u32).wrapping_mul(7)) & 0x00FF_FFFF;
            data[pos + 1..pos + 5].copy_from_slice(&addr.to_le_bytes());
            pos += 85;
        }
        data
    }

    // A first plain member fills the shared window; the filtered member
    // then decodes at a non-zero stream offset.
    let first = b"solid chain prefix data padding padding padding".repeat(64);
    let member = x86ish(120_000);

    let packed_first = encode(&first, 3, 3, false);
    let packed_member = encode_with_auto_x86_filter(&member, 3, 0, false)
        .unwrap()
        .expect("x86 scan must find regions");

    let mut state = DecoderState::new(128 * 1024);
    let decoded_first = decode(
        &packed_first,
        first.len() as u64,
        DecodeOptions {
            dict_size_log: 3,
            dict_size_bytes: None,
            extra_dist: false,
            state: Some(&mut state),
        },
    )
    .unwrap();
    assert_eq!(decoded_first, first);

    let decoded_member = decode(
        &packed_member,
        member.len() as u64,
        DecodeOptions {
            dict_size_log: 0,
            dict_size_bytes: None,
            extra_dist: false,
            state: Some(&mut state),
        },
    )
    .unwrap();
    assert_eq!(
        decoded_member, member,
        "filtered member must decode member-relative at a solid offset"
    );
}

/// Deterministic pseudo-random block (xorshift64), so runs repeat.
fn prng_block(len: usize, seed: u64) -> Vec<u8> {
    let mut s = seed | 1;
    (0..len)
        .map(|_| {
            s ^= s << 13;
            s ^= s >> 7;
            s ^= s << 17;
            s as u8
        })
        .collect()
}

/// Data spanning several chunks with a far copy of the head plus
/// text-like filler: exercises tail context and the shared long-range
/// table across slice boundaries.
fn mixed_data() -> Vec<u8> {
    let mut data = prng_block(300_000, 7);
    let far_copy = data[..300_000].to_vec();
    data.extend(far_copy);
    data.extend(b"hello world ".repeat(40_000));
    data
}

#[test]
fn rar50_roundtrips_across_dictionary_sizes() {
    // Includes tiny dictionaries where the long-range band is empty
    // (near reach exceeds the window) and mid-size ones where it is
    // live — every variant must decode to the original bytes.
    for &log in &[0u8, 3, 6] {
        let data = mixed_data();
        let packed = encode_chunked_mt(
            &data,
            3,
            log,
            DEFAULT_CHUNK_SIZE,
            &mut EncoderState::default(),
            4,
            true,
            false,
        );
        let out = decode_standalone(&packed, data.len() as u64, log, None, false).unwrap();
        assert_eq!(out, data, "dict log {log}");
    }
}

#[test]
fn rar50_v70_extra_dist_roundtrip() {
    let data = mixed_data();
    let packed = encode_chunked_mt(
        &data,
        3,
        6,
        DEFAULT_CHUNK_SIZE,
        &mut EncoderState::default(),
        3,
        true,
        true,
    );
    let out =
        decode_standalone(&packed, data.len() as u64, 6, Some(48 * 1024 * 1024), true).unwrap();
    assert_eq!(out, data);
}

#[test]
fn rar50_windows_continue_the_chain_like_sequential() {
    // Two windows through one shared state must form a single valid
    // member: only the last window carries the end-of-stream flag, and
    // window 2 still matches into window 1 via tail + long range.
    let w1 = prng_block(2 * DEFAULT_CHUNK_SIZE + 777, 11);
    let mut w2 = prng_block(DEFAULT_CHUNK_SIZE + 123, 22);
    w2[1000..2000].copy_from_slice(&w1[1000..2000]);
    let mut st = EncoderState::default();
    let mut packed = encode_chunked_mt(&w1, 3, 6, DEFAULT_CHUNK_SIZE, &mut st, 3, false, false);
    packed.extend(encode_chunked_mt(
        &w2,
        3,
        6,
        DEFAULT_CHUNK_SIZE,
        &mut st,
        3,
        true,
        false,
    ));
    let mut full = w1;
    full.extend(&w2);
    let out = decode_standalone(&packed, full.len() as u64, 6, None, false).unwrap();
    assert_eq!(out, full);
}

#[test]
fn rar50_deterministic_across_runs() {
    let data = mixed_data();
    let a = encode_chunked_mt(
        &data,
        3,
        6,
        DEFAULT_CHUNK_SIZE,
        &mut EncoderState::default(),
        4,
        true,
        false,
    );
    let b = encode_chunked_mt(
        &data,
        3,
        6,
        DEFAULT_CHUNK_SIZE,
        &mut EncoderState::default(),
        4,
        true,
        false,
    );
    assert_eq!(a, b);
}
