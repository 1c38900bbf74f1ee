use rar::codec::decode::DecoderState;
use rar::codec::dispatch::{compress, compress_chunked, decompress};
use rar::codec::encode::{encode_chunked, encode_chunked_mt, EncoderState};
use rar::codec::filtered::{encode_with_filters, FilterSpec};
use rar::codec::rar50::{decode, decode_standalone, DecodeOptions};
use rar::codec::roundtrip::{encode, encode_with_progress};
use rar::codec::streaming::{decode_standalone_to_writer, decode_to_writer};
use rar::codec::symbols::{FILTER_ARM, FILTER_DELTA, FILTER_E8};

fn text(lines: usize) -> Vec<u8> {
    (0..lines).flat_map(|i| format!("line {} of {}\n", i * 7 % 31, i).into_bytes()).collect()
}

fn carried(state: &mut DecoderState) -> DecodeOptions<'_> {
    DecodeOptions { dict_size_log: 0, dict_size_bytes: None, extra_dist: false, state: Some(state) }
}

#[test]
fn pieces_through_one_state_decompress_as_one() {
    let data = text(6_000);
    for method in 0..=5u8 {
        let mut state = EncoderState::default();
        let mut packed = Vec::new();
        let pieces: Vec<&[u8]> = data.chunks(20_000).collect();
        for (i, piece) in pieces.iter().enumerate() {
            let last = i + 1 == pieces.len();
            let part = compress_chunked(
                piece,
                method,
                0,
                1 << 13,
                Some(&mut state),
                last,
                None,
                false,
            )
            .unwrap();
            assert!(part.len() <= piece.len());
            packed.extend(part);
        }
        let back = decompress(&packed, method, data.len() as u64, 0, None).unwrap();
        assert_eq!(back, data, "method {method}");
    }
}

#[test]
fn windows_decode_back_also_where_one_is_empty() {
    let data = text(4_000);
    for (first, second) in [(0, data.len()), (data.len(), data.len()), (30_000, data.len())] {
        let mut state = EncoderState::default();
        let (a, b) = (&data[..first], &data[first..second]);
        let mut packed = encode_chunked_mt(a, 3, 0, 1 << 14, &mut state, 2, false, false);
        packed.extend(encode_chunked_mt(b, 3, 0, 1 << 14, &mut state, 2, true, false));
        let back = decode_standalone(&packed, data.len() as u64, 0, None, false).unwrap();
        assert_eq!(back, data);
        let mut again = EncoderState::default();
        let mut repeated = encode_chunked_mt(a, 3, 0, 1 << 14, &mut again, 2, false, false);
        repeated.extend(encode_chunked_mt(b, 3, 0, 1 << 14, &mut again, 2, true, false));
        assert_eq!(repeated, packed);
    }
}

#[test]
fn a_seed_hands_on_what_went_before() {
    let data = text(4_000);
    let mut seed = EncoderState::default();
    encode_chunked_mt(&data, 3, 0, 1 << 14, &mut seed, 2, false, false);
    let with = encode_chunked_mt(&data, 3, 0, 1 << 14, &mut seed, 2, true, false);
    let mut fresh = EncoderState::default();
    let without = encode_chunked_mt(&data, 3, 0, 1 << 14, &mut fresh, 2, true, false);
    assert!(with.len() < without.len());
    // A window without data leaves the seed as it is, but for the memory.
    let mut kept = EncoderState::default();
    encode_chunked_mt(&data, 3, 0, 1 << 14, &mut kept, 2, false, false);
    assert!(encode_chunked_mt(b"", 3, 0, 1 << 14, &mut kept, 2, true, false).is_empty());
    let after = encode_chunked_mt(&data, 3, 0, 1 << 14, &mut kept, 2, true, false);
    assert_eq!(after, with);
}

#[test]
fn an_empty_last_call_ends_the_stream() {
    let mut state = EncoderState::default();
    let data = text(400);
    let mut packed =
        encode_chunked(&data, 3, 0, 1 << 14, Some(&mut state), false, None, false).unwrap();
    let end = encode_chunked(b"", 3, 0, 1 << 14, Some(&mut state), true, None, false).unwrap();
    assert!(!end.is_empty());
    packed.extend(end);
    let back = decode_standalone(&packed, data.len() as u64, 0, None, false).unwrap();
    assert_eq!(back, data);
    let nothing = encode(b"", 3, 0, false);
    assert_eq!(decode_standalone(&nothing, 0, 0, None, false).unwrap(), b"");
}

#[test]
fn streaming_carries_the_decoder_from_member_to_member() {
    let data = text(4_000);
    let (a, b) = data.split_at(50_000);
    let mut state = EncoderState::default();
    let one = encode_chunked(a, 3, 0, 1 << 14, Some(&mut state), true, None, false).unwrap();
    let two = encode_chunked(b, 3, 0, 1 << 14, Some(&mut state), true, None, false).unwrap();
    let mut streamed = DecoderState::new(1 << 17);
    let mut out = Vec::new();
    let first = decode_to_writer(&one, a.len() as u64, carried(&mut streamed), &mut out);
    assert_eq!(first, Ok(a.len() as u64));
    assert_eq!(out, a);
    // The second member decodes the same whichever way the first one went.
    let mut buffered = DecoderState::new(1 << 17);
    assert_eq!(decode(&one, a.len() as u64, carried(&mut buffered)).unwrap(), a);
    assert_eq!(decode(&two, b.len() as u64, carried(&mut buffered)).unwrap(), b);
    let second = decode_to_writer(&two, b.len() as u64, carried(&mut streamed), &mut out);
    assert_eq!(second, Ok(b.len() as u64));
    assert_eq!(out, data);
}

#[test]
fn filters_apart_decode_back_in_any_order() {
    let data: Vec<u8> = (0..90_000u32)
        .map(|i| if i % 11 == 0 { 0xE8 } else { (i / 5 % 251) as u8 })
        .collect();
    let filters = [
        FilterSpec::new(FILTER_E8, 0, 60_000, 20_000),
        FilterSpec::new(FILTER_DELTA, 3, 5_000, 10_000),
        FilterSpec::new(FILTER_ARM, 0, 30_000, 8_000),
    ];
    let orders = [[0usize, 1, 2], [1, 2, 0], [2, 1, 0]];
    for order in orders {
        let listed: Vec<FilterSpec> = order.iter().map(|&i| filters[i]).collect();
        let packed = encode_with_filters(&data, 3, 0, &listed, false).unwrap();
        assert!(packed.len() <= data.len());
        let size = data.len() as u64;
        assert_eq!(decode_standalone(&packed, size, 0, None, false).unwrap(), data);
        let mut out = Vec::new();
        let streamed = decode_standalone_to_writer(&packed, size, 0, None, false, &mut out);
        assert_eq!(streamed, Ok(size));
        assert_eq!(out, data);
    }
}

#[test]
fn no_filters_and_no_progress_change_nothing() {
    let data = text(3_000);
    for method in 1..=5u8 {
        let plain = encode(&data, method, 0, false);
        assert_eq!(encode_with_filters(&data, method, 0, &[], false).unwrap(), plain);
        assert_eq!(compress(&data, method, 0).unwrap(), plain);
        let mut reports = Vec::new();
        assert_eq!(encode_with_progress(&data, method, 0, Some(&mut reports), false), plain);
        assert!(!reports.is_empty());
    }
}

#[test]
fn a_member_decodes_in_a_used_window_that_holds_it() {
    let data = text(150);
    assert!(data.len() <= 4096);
    let packed = encode(&data, 3, 4, false);
    let mut state = DecoderState::new(4096);
    for _ in 0..3 {
        let back = decode(&packed, data.len() as u64, carried(&mut state)).unwrap();
        assert_eq!(back, data);
    }
}

#[test]
fn progress_goes_forward() {
    let mut data = Vec::new();
    while data.len() < 9_000_000 {
        data.extend_from_slice(b"all work and no play ");
    }
    let mut reports = Vec::new();
    encode_with_progress(&data, 1, 0, Some(&mut reports), false);
    assert!(reports.len() > 1);
    let mut before = 0;
    for &(done, total) in &reports {
        assert_eq!(total, data.len() as u64);
        assert!(before < done && done <= total);
        before = done;
    }
    assert_eq!(before, data.len() as u64);
    let mut none = Vec::new();
    encode_with_progress(b"", 1, 0, Some(&mut none), false);
    assert!(none.is_empty());
}
