use rar::codec::bitstream::BitWriter;
use rar::codec::block::build_block_header;
use rar::codec::decode::DecoderState;
use rar::codec::dispatch::{compress, decompress};
use rar::codec::encode::{encode_chunked, EncoderState};
use rar::codec::filtered::{encode_with_filters, merge_ranges, FilterSpec};
use rar::codec::filters::{apply_filter_decode, apply_filter_encode, Span};
use rar::codec::huffman::{build_code_lengths_from_freqs, encode_symbol, EncodeTable};
use rar::codec::rar50::{decode, decode_standalone, DecodeOptions};
use rar::codec::roundtrip::encode;
use rar::codec::slots::{apply_length_bonus, remove_length_bonus};
use rar::codec::streaming::{
    decode_standalone_to_writer, decode_to_writer, MAX_STREAMING_FILTER_BUFFER,
};
use rar::codec::symbols::{
    write_filter_data, FILTER_DELTA, FILTER_E8, SYM_FILTER, SYM_MATCH_BASE, SYM_REPEAT,
};
use rar::codec::tables::{write_tables, HUFF_DC, HUFF_LDC, HUFF_NC, HUFF_RC};
use rar::error::{ErrorCode, RarError};
use rar::rar4::is_stored;

fn span(start: usize, end: usize) -> Span {
    Span { start, end }
}

#[test]
fn overlapping_ranges_are_merged() {
    let merged = merge_ranges(&vec![span(10, 20), span(0, 5), span(5, 7), span(15, 30)]);
    let got: Vec<(usize, usize)> = merged.iter().map(|s| (s.start, s.end)).collect();
    assert_eq!(got, [(0, 7), (10, 30)]);
    assert!(merge_ranges(&vec![]).is_empty());
    // Merging again changes nothing.
    let again = merge_ranges(&merged);
    assert_eq!(again.iter().map(|s| (s.start, s.end)).collect::<Vec<_>>(), got);
}

#[test]
fn empty_ranges_are_merged_by_where_they_stand() {
    let merged = merge_ranges(&vec![span(9, 9), span(4, 8), span(2, 2), span(8, 8), span(4, 4)]);
    let got: Vec<(usize, usize)> = merged.iter().map(|s| (s.start, s.end)).collect();
    assert_eq!(got, [(2, 2), (4, 8), (9, 9)]);
    assert_eq!(merge_ranges(&vec![span(3, 3)]).len(), 1);
}

fn small_window(bytes: u64) -> DecodeOptions<'static> {
    DecodeOptions {
        dict_size_log: 0,
        dict_size_bytes: Some(bytes),
        extra_dist: false,
        state: None,
    }
}

#[test]
fn nothing_is_streamed_of_an_empty_member() {
    let mut out = b"before".to_vec();
    assert_eq!(decode_to_writer(b"anything", 0, small_window(16), &mut out), Ok(0));
    assert_eq!(out, b"before");
    let mut state = DecoderState::new(1 << 17);
    let options = DecodeOptions { state: Some(&mut state), ..small_window(16) };
    assert_eq!(decode_to_writer(b"", 0, options, &mut out), Ok(0));
    assert_eq!(out, b"before");
}

#[test]
fn small_members_stream_through_the_smallest_windows() {
    let data = b"0123456789abcdef".to_vec();
    let packed = compress(&data, 1, 0).unwrap();
    let mut out = Vec::new();
    assert_eq!(decode_to_writer(&packed, 16, small_window(16), &mut out), Ok(16));
    assert_eq!(out, data);
}

#[test]
fn an_empty_call_that_ends_nothing_writes_nothing() {
    let mut state = EncoderState::default();
    let a = encode_chunked(b"", 3, 0, 1 << 16, Some(&mut state), false, None, false).unwrap();
    assert!(a.is_empty());
    let one = encode_chunked(b"hello hello", 3, 0, 1 << 16, Some(&mut state), false, None, false)
        .unwrap();
    let two = encode_chunked(b" hello", 3, 0, 1 << 16, Some(&mut state), true, None, false).unwrap();
    let mut packed = a;
    packed.extend(one);
    packed.extend(two);
    assert_eq!(decompress(&packed, 3, 17, 0, None).unwrap(), b"hello hello hello");
    // After a reset a stream decodes alone, also behind other output.
    state.reset();
    let alone = encode_chunked(b"abcabcabc", 3, 0, 1 << 16, Some(&mut state), true, None, false)
        .unwrap();
    assert_eq!(decompress(&alone, 3, 9, 0, None).unwrap(), b"abcabcabc");
    let mut decoder = DecoderState::new(1 << 17);
    let options = DecodeOptions { state: Some(&mut decoder), ..small_window(16) };
    assert_eq!(decode(&packed, 17, options).unwrap(), b"hello hello hello");
    let options = DecodeOptions { state: Some(&mut decoder), ..small_window(16) };
    assert_eq!(decode(&alone, 9, options).unwrap(), b"abcabcabc");
}

#[test]
fn a_whole_block_roundtrips_at_every_level() {
    let data: Vec<u8> = (0..0x20000u32)
        .map(|i| (i.wrapping_mul(2654435761) >> 24) as u8)
        .collect();
    for method in 1..=5u8 {
        let packed = encode(&data, method, 0, false);
        assert_eq!(decode_standalone(&packed, 0x20000, 0, None, false).unwrap(), data);
        assert_eq!(compress(&data, method, 0).unwrap(), packed);
        assert_eq!(encode_with_filters(&data, method, 0, &[], false).unwrap(), packed);
        assert_eq!(encode(&data, method, 0, false), packed);
    }
}

#[test]
fn overlapping_filters_are_applied_one_after_the_other() {
    let data: Vec<u8> = (0..64u8).collect();
    let outer = FilterSpec::new(FILTER_DELTA, 1, 0, 64);
    let inner = FilterSpec::new(FILTER_DELTA, 1, 16, 16);
    let packed = encode_with_filters(&data, 3, 0, &[outer, inner], false).unwrap();
    // Undone in the order of the records, the inner one last.
    let mut expected = data.clone();
    let once = apply_filter_encode(FILTER_DELTA, &data, 1, 0);
    let mut twice = once.clone();
    twice[16..32].copy_from_slice(&apply_filter_encode(FILTER_DELTA, &once[16..32], 1, 16));
    expected.copy_from_slice(&apply_filter_decode(FILTER_DELTA, &twice, 1, 0).unwrap());
    let tail = apply_filter_decode(FILTER_DELTA, &expected[16..32], 1, 16).unwrap();
    expected[16..32].copy_from_slice(&tail);
    assert_eq!(decode_standalone(&packed, 64, 0, None, false).unwrap(), expected);
}

#[test]
fn a_filter_that_holds_back_too_much_is_refused() {
    // One region over the whole output, which is longer than may wait.
    const SIZE: u64 = MAX_STREAMING_FILTER_BUFFER + 0x4_0000;
    let mut nc = vec![0u8; HUFF_NC];
    nc[0] = 2;
    nc[SYM_FILTER] = 2;
    nc[SYM_REPEAT] = 2;
    nc[SYM_MATCH_BASE + 43] = 2;
    let mut dc = vec![0u8; HUFF_DC];
    dc[0] = 1;
    let mut ldc = vec![0u8; HUFF_LDC];
    ldc[0] = 1;
    let mut rc = vec![0u8; HUFF_RC];
    rc[0] = 1;
    let mut w = BitWriter::new();
    write_tables(&mut w, &nc, &dc, &ldc, &rc);
    let codes = EncodeTable::new(&nc);
    let dist = EncodeTable::new(&dc);
    encode_symbol(&codes, &mut w, SYM_FILTER);
    write_filter_data(&mut w, 0);
    write_filter_data(&mut w, SIZE as u32);
    w.write_bits(FILTER_E8 as u32, 3);
    encode_symbol(&codes, &mut w, 0);
    encode_symbol(&codes, &mut w, SYM_MATCH_BASE + 43);
    w.write_bits(511, 9);
    encode_symbol(&dist, &mut w, 0);
    for _ in 0..SIZE / 4096 + 2 {
        encode_symbol(&codes, &mut w, SYM_REPEAT);
    }
    let bits = w.bit_count();
    let packed = build_block_header(&w.into_bytes(), bits, true, true);
    let mut out = Vec::new();
    let e = decode_standalone_to_writer(&packed, SIZE, 0, None, false, &mut out).unwrap_err();
    assert!(e.contains("exceeds streaming buffer limit"), "{e}");
    assert!(out.is_empty());
}

#[test]
fn length_bonuses_are_taken_back() {
    for dist in [1u64, 0x100, 0x101, 0x2000, 0x2001, 0x40000, 0x40001, 1 << 40] {
        let longer = apply_length_bonus(5, dist);
        assert_eq!(remove_length_bonus(longer, dist), 5);
    }
    assert_eq!(apply_length_bonus(5, 0x100), 5);
    assert_eq!(apply_length_bonus(5, 0x101), 6);
    assert_eq!(apply_length_bonus(5, 0x40001), 8);
}

#[test]
fn methods_choose_between_storing_and_decoding() {
    let data = b"abcabcabcabcabcabcabcabcabcabc".to_vec();
    let packed = compress(&data, 3, 0).unwrap();
    assert_eq!(decompress(&packed, 3, data.len() as u64, 0, None).unwrap(), data);
    assert_eq!(decompress(&data, 0, 0, 0, None).unwrap(), data);
    assert!(decompress(&packed, 6, data.len() as u64, 0, None).is_err());
    assert!(decompress(&packed, 3, data.len() as u64 + 1, 0, None).is_err());
    assert!(is_stored(0) && !is_stored(1));
}

#[test]
fn io_errors_become_library_errors() {
    let e = RarError::from(std::io::Error::from(std::io::ErrorKind::NotFound));
    assert!(matches!(e, RarError::Io(_)));
    assert_eq!(e.code(), ErrorCode::Io);
}

#[test]
fn small_windows_stream() {
    let data: Vec<u8> = (0..6000u32).map(|i| (i * i / 7 % 61) as u8).collect();
    let packed = compress(&data, 3, 0).unwrap();
    let mut out = b"before".to_vec();
    let options = DecodeOptions {
        dict_size_log: 0,
        dict_size_bytes: Some(8192),
        extra_dist: false,
        state: None,
    };
    let n = decode_to_writer(&packed, data.len() as u64, options, &mut out).unwrap();
    assert_eq!(n, 6000);
    assert_eq!(&out[..6], b"before");
    assert_eq!(&out[6..], &data[..]);
}

#[test]
fn codes_are_shorter_for_what_occurs_more_often() {
    assert_eq!(build_code_lengths_from_freqs(&[1, 1, 2, 4], 15), [3, 3, 2, 1]);
    assert_eq!(build_code_lengths_from_freqs(&[0, 5, 0, 5], 15), [0, 1, 0, 1]);
    assert_eq!(build_code_lengths_from_freqs(&[0, 7, 0], 15), [0, 1, 0]);
    // Weights that would make a code of ten bits, in at most four.
    let weights = [1u32, 1, 2, 3, 5, 8, 13, 21, 34, 55, 89];
    let lengths = build_code_lengths_from_freqs(&weights, 4);
    assert!(lengths.iter().all(|&l| (1..=4).contains(&l)));
    assert!(lengths.windows(2).all(|w| w[0] >= w[1]));
    let words: u32 = lengths.iter().map(|&l| 1u32 << (15 - l)).sum();
    assert!(words <= 0x8000);
}
