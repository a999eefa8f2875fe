use constriction::stream::model::{DefaultContiguousCategoricalEntropyModel, IterableEntropyModel};
use heretek::coder::sequence::SequenceEncoder;
use heretek::coder::stream::{symbols_to_bytes, uniform_probs as uniform_table, AnsCoder};
use heretek::error::CoderError;

/// The probability table of a distribution.
fn table_of(probs: &[f32; 256]) -> [u32; 256] {
    let model =
        DefaultContiguousCategoricalEntropyModel::from_floating_point_probabilities_fast(probs, None)
            .unwrap();
    let mut table = [0u32; 256];
    for (symbol, _, probability) in model.symbol_table() {
        table[symbol] = probability.get();
    }
    table
}

fn uniform_probs() -> [f32; 256] {
    [1.0f32 / 256.0; 256]
}

fn skewed_probs() -> [f32; 256] {
    let mut raw = [0.0f32; 256];
    for (i, p) in raw.iter_mut().enumerate() {
        *p = 1.0 / (i + 1) as f32;
    }
    let sum: f32 = raw.iter().sum();
    for p in &mut raw {
        *p /= sum;
    }
    raw
}

fn encode_all(probs: &[u32; 256], data: &[u8]) -> Vec<u32> {
    let mut encoder = AnsCoder::new();
    for &byte in data {
        encoder.encode(probs, byte).unwrap();
    }
    encoder.finish_encode().unwrap()
}

fn round_trip(probs: &[f32; 256], data: &[u8]) {
    let table = table_of(probs);
    let compressed = encode_all(&table, data);
    let mut decoder = AnsCoder::start_decode(&compressed).unwrap();
    let recovered = decoder.decode(&table, data.len()).unwrap();
    assert_eq!(recovered, data, "round-trip mismatch");
}

#[test]
fn round_trip_10k_random_uniform() {
    let mut state: u32 = 12345;
    let data: Vec<u8> = (0..10_000)
        .map(|_| {
            state = state.wrapping_mul(1103515245).wrapping_add(12345);
            (state >> 16) as u8
        })
        .collect();
    round_trip(&uniform_probs(), &data);
}

#[test]
fn round_trip_10k_random_skewed() {
    let mut state: u32 = 67890;
    let data: Vec<u8> = (0..10_000)
        .map(|_| {
            state = state.wrapping_mul(1103515245).wrapping_add(12345);
            (state >> 16) as u8
        })
        .collect();
    round_trip(&skewed_probs(), &data);
}

#[test]
fn round_trip_small_patterns() {
    let probs = uniform_probs();
    for data in &[
        &[][..],
        &[0u8][..],
        &[255u8][..],
        &[0u8, 0, 0, 0][..],
        &[0u8, 1, 2, 3, 4, 5, 6, 7, 8, 9][..],
        &[128u8; 100][..],
    ] {
        round_trip(&probs, data);
    }
}

#[test]
fn empty_input_produces_minimal_output() {
    let encoder = AnsCoder::new();
    let compressed = encoder.finish_encode().unwrap();
    assert!(compressed.is_empty(), "empty stream compresses to {} words", compressed.len());
    let encoder = AnsCoder::default();
    assert!(encoder.finish_encode().unwrap().is_empty());
}

#[test]
fn skewed_compresses_better_than_uniform() {
    let skewed = table_of(&skewed_probs());
    let uniform = table_of(&uniform_probs());
    let data: Vec<u8> = (0..1000).map(|i| (i % 16) as u8).collect();
    let uniform_size = encode_all(&uniform, &data).len();
    let skewed_size = encode_all(&skewed, &data).len();
    assert!(
        skewed_size < uniform_size,
        "skewed {skewed_size} words >= uniform {uniform_size} words"
    );
}

#[test]
fn encode_decode_all_256_symbols() {
    let table = table_of(&uniform_probs());
    let data: Vec<u8> = (0..=255).collect();
    let compressed = encode_all(&table, &data);
    let mut decoder = AnsCoder::start_decode(&compressed).unwrap();
    let recovered = decoder.decode(&table, data.len()).unwrap();
    assert_eq!(recovered, data);
}

#[test]
fn uniform_distribution_has_the_uniform_table() {
    assert_eq!(table_of(&uniform_probs()), [65536u32; 256]);
    assert_eq!(uniform_table(), [65536u32; 256]);
}

#[test]
fn words_of_short_streams() {
    // The first symbol of a stream leaves its cumulative probability.
    assert_eq!(encode_all(&uniform_table(), &[1]), vec![65536]);
    assert_eq!(encode_all(&uniform_table(), &[0, 0, 0]), Vec::<u32>::new());
    let words = encode_all(&uniform_table(), &[7, 8, 9, 10, 11]);
    let mut decoder = AnsCoder::start_decode(&words).unwrap();
    assert_eq!(decoder.decode(&uniform_table(), 5).unwrap(), vec![7, 8, 9, 10, 11]);
}

#[test]
fn decoding_symbol_by_symbol_gives_the_same_bytes() {
    let table = table_of(&skewed_probs());
    let data: Vec<u8> = (0..500u32).map(|i| (i * i % 251) as u8).collect();
    let words = encode_all(&table, &data);
    let mut decoder = AnsCoder::start_decode(&words).unwrap();
    for &byte in &data {
        assert_eq!(decoder.decode_symbol(&table).unwrap(), byte);
    }
}

#[test]
fn decoding_in_parts_gives_the_same_bytes() {
    let table = table_of(&skewed_probs());
    let data: Vec<u8> = (0..300u32).map(|i| (i * 7 % 256) as u8).collect();
    let words = encode_all(&table, &data);
    let mut decoder = AnsCoder::start_decode(&words).unwrap();
    let mut recovered = decoder.decode(&table, 100).unwrap();
    recovered.extend(decoder.decode(&table, 0).unwrap());
    recovered.extend(decoder.decode(&table, 200).unwrap());
    assert_eq!(recovered, data);
}

#[test]
fn a_second_table_is_refused() {
    let mut encoder = AnsCoder::new();
    encoder.encode(&uniform_table(), 1).unwrap();
    let error = encoder.encode(&table_of(&skewed_probs()), 2).unwrap_err();
    assert!(matches!(&error, CoderError::EncodeFailed { message }
        if message == "heterogeneous per-symbol models not yet supported"));
    // The refused symbol leaves no trace.
    encoder.encode(&uniform_table(), 3).unwrap();
    let words = encoder.finish_encode().unwrap();
    let mut decoder = AnsCoder::start_decode(&words).unwrap();
    assert_eq!(decoder.decode(&uniform_table(), 2).unwrap(), vec![1, 3]);
}

#[test]
fn an_invalid_table_is_refused() {
    let zeros = [0u32; 256];
    let mut low = uniform_table();
    low[3] -= 1;
    let mut with_zero = uniform_table();
    with_zero[0] += with_zero[9];
    with_zero[9] = 0;
    for table in [zeros, low, with_zero] {
        let mut encoder = AnsCoder::new();
        encoder.encode(&table, 1).unwrap();
        let error = encoder.finish_encode().unwrap_err();
        assert!(matches!(&error, CoderError::EncodeFailed { message }
            if message == "model build failed: ()"));

        let mut decoder = AnsCoder::start_decode(&[5 * 65536]).unwrap();
        let error = decoder.decode(&table, 1).unwrap_err();
        assert!(matches!(&error, CoderError::DecodeFailed { message }
            if message == "model build failed: ()"));
        let error = decoder.decode_symbol(&table).unwrap_err();
        assert!(matches!(&error, CoderError::DecodeFailed { message }
            if message == "model build failed: ()"));
        // No table is needed for no symbols.
        assert_eq!(decoder.decode(&table, 0).unwrap(), Vec::<u8>::new());
        // The refused calls have not moved the decoder.
        assert_eq!(decoder.decode_symbol(&uniform_table()).unwrap(), 5);
    }
}

#[test]
fn words_that_end_with_zero_are_refused() {
    match AnsCoder::start_decode(&[1, 2, 0]) {
        Err(CoderError::DecodeFailed { message }) => assert_eq!(message, "ANS init failed: [1, 2]"),
        _ => panic!("must be refused"),
    }
    match AnsCoder::start_decode(&[0]) {
        Err(CoderError::DecodeFailed { message }) => assert_eq!(message, "ANS init failed: []"),
        _ => panic!("must be refused"),
    }
}

#[test]
fn reading_past_the_end_gives_zeros() {
    let mut decoder = AnsCoder::start_decode(&[]).unwrap();
    assert_eq!(decoder.decode(&uniform_table(), 3).unwrap(), vec![0, 0, 0]);
}

#[test]
fn symbols_become_bytes() {
    assert_eq!(symbols_to_bytes(&vec![0, 255, 256, 300]), vec![0, 255, 0, 44]);
}

#[test]
fn sequence_with_a_table_each_round_trips() {
    let tables = [uniform_table(), table_of(&skewed_probs())];
    let data: Vec<u8> = (0..500u32).map(|i| (i * i % 256) as u8).collect();
    let mut encoder = SequenceEncoder::new();
    for (i, &byte) in data.iter().enumerate() {
        encoder.encode(&tables[i / 3 % 2], byte);
    }
    let words = encoder.finish().unwrap();
    let mut decoder = AnsCoder::start_decode(&words).unwrap();
    for (i, &byte) in data.iter().enumerate() {
        assert_eq!(decoder.decode_symbol(&tables[i / 3 % 2]).unwrap(), byte);
    }
}

#[test]
fn sequence_with_one_table_is_a_stream() {
    let table = table_of(&skewed_probs());
    for len in [0usize, 1, 2, 100] {
        let data: Vec<u8> = (0..len).map(|i| (i * 31) as u8).collect();
        let mut encoder = SequenceEncoder::new();
        for &byte in &data {
            encoder.encode(&table, byte);
        }
        assert_eq!(encoder.finish().unwrap(), encode_all(&table, &data));
    }
}

#[test]
fn sequence_with_an_invalid_table_is_refused() {
    for position in 0..3 {
        let mut encoder = SequenceEncoder::new();
        for i in 0..3 {
            encoder.encode(&if i == position { [0u32; 256] } else { uniform_table() }, 1);
        }
        let error = encoder.finish().unwrap_err();
        assert!(matches!(&error, CoderError::EncodeFailed { message }
            if message == "model build failed: ()"));
    }
}

#[test]
fn words_of_a_skewed_table() {
    let mut table = [1u32; 256];
    table[0] = (1 << 24) - 255;
    // The cumulative probability of the symbol 3.
    assert_eq!(encode_all(&table, &[3]), vec![16_776_963]);
    // Zeros on the empty stack take no words.
    assert_eq!(encode_all(&table, &[3, 0, 0]), vec![16_776_963]);
    // 16776963 = 1 * 16776961 + 2, so the state becomes 2^24 + 2.
    assert_eq!(encode_all(&table, &[0, 3]), vec![16_777_218]);
    // Dividing by one shifts the state by 24 bits.
    assert_eq!(encode_all(&table, &[1, 3]), vec![0x03FF_FF01, 0xFFFF]);
}

#[test]
fn favoured_symbols_take_fewer_words() {
    // The first 64 bytes are twice as likely as with the uniform table.
    let mut table = [21_845u32; 256];
    for p in table.iter_mut().take(64) {
        *p = 131_072;
    }
    let rest = (1u32 << 24) - table.iter().sum::<u32>();
    table[255] += rest;
    for (len, zeros) in [(64usize, 0usize), (64, 10), (65, 3), (500, 0), (1000, 100)] {
        let mut data: Vec<u8> = (0..len).map(|i| ((i * 5 + 1) % 64) as u8).collect();
        data[len - 1] = 9;
        data.extend(vec![0u8; zeros]);
        let favoured = encode_all(&table, &data).len();
        let uniform = encode_all(&uniform_table(), &data).len();
        assert!(favoured < uniform, "{favoured} words >= {uniform} words");
    }
}

#[test]
fn streams_are_compact() {
    for probs in [uniform_probs(), skewed_probs()] {
        let table = table_of(&probs);
        for len in [0usize, 1, 5, 100, 3000] {
            let data: Vec<u8> = (0..len).map(|i| (i * i % 251) as u8).collect();
            let words = encode_all(&table, &data).len() as f64;
            let needed: f64 =
                data.iter().map(|&b| 24.0 - (table[b as usize] as f64).log2()).sum();
            let rounding = len as f64 * (257.0f64 / 256.0).log2();
            assert!(32.0 * words <= 64.0 + needed + rounding + 1e-6);
        }
    }
}
