use rar::codec::encode::{encode_chunked_mt, EncoderState, DEFAULT_CHUNK_SIZE};
use rar::codec::rar50::decode_standalone;

/// Deterministic pseudo-random block (xorshift64), so runs repeat.
fn prng_block(len: usize, seed: u64) -> Vec<u8> {
    let mut s = seed | 1;
    (0..len)
        .map(|_| {
            s ^= s << 13;
            s ^= s >> 7;
            s ^= s << 17;
            s as u8
        })
        .collect()
}

/// Data spanning several chunks with a far copy of the head plus
/// text-like filler: exercises tail context and the shared long-range
/// table across slice boundaries.
fn mixed_data() -> Vec<u8> {
    let mut data = prng_block(300_000, 7);
    let far_copy = data[..300_000].to_vec();
    data.extend(far_copy);
    data.extend(b"hello world ".repeat(40_000));
    data
}

#[test]
fn mod_roundtrips_across_dictionary_sizes() {
    for &log in &[0u8, 3, 6] {
        let data = mixed_data();
        let packed = encode_chunked_mt(
            &data,
            3,
            log,
            DEFAULT_CHUNK_SIZE,
            &mut EncoderState::default(),
            4,
            true,
            false,
        );
        let out = decode_standalone(&packed, data.len() as u64, log, None, false).unwrap();
        assert_eq!(out, data, "dict log {log}");
    }
}

#[test]
fn mod_v70_extra_dist_roundtrip() {
    let data = mixed_data();
    let packed = encode_chunked_mt(
        &data,
        3,
        6,
        DEFAULT_CHUNK_SIZE,
        &mut EncoderState::default(),
        3,
        true,
        true,
    );
    let out =
        decode_standalone(&packed, data.len() as u64, 6, Some(48 * 1024 * 1024), true).unwrap();
    assert_eq!(out, data);
}

#[test]
fn mod_windows_continue_the_chain_like_sequential() {
    let w1 = prng_block(2 * DEFAULT_CHUNK_SIZE + 777, 11);
    let mut w2 = prng_block(DEFAULT_CHUNK_SIZE + 123, 22);
    w2[1000..2000].copy_from_slice(&w1[1000..2000]);
    let mut st = EncoderState::default();
    let mut packed = encode_chunked_mt(&w1, 3, 6, DEFAULT_CHUNK_SIZE, &mut st, 3, false, false);
    packed.extend(encode_chunked_mt(
        &w2,
        3,
        6,
        DEFAULT_CHUNK_SIZE,
        &mut st,
        3,
        true,
        false,
    ));
    let mut full = w1;
    full.extend(&w2);
    let out = decode_standalone(&packed, full.len() as u64, 6, None, false).unwrap();
    assert_eq!(out, full);
}

#[test]
fn mod_deterministic_across_runs() {
    let data = mixed_data();
    let a = encode_chunked_mt(
        &data,
        3,
        6,
        DEFAULT_CHUNK_SIZE,
        &mut EncoderState::default(),
        4,
        true,
        false,
    );
    let b = encode_chunked_mt(
        &data,
        3,
        6,
        DEFAULT_CHUNK_SIZE,
        &mut EncoderState::default(),
        4,
        true,
        false,
    );
    assert_eq!(a, b);
}
