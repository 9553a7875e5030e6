use ternary_arithmetic::{ArithmeticDecoder, ArithmeticEncoder, FrequencyTable};

#[test]
fn test_encode_decode_roundtrip() {
    let data = vec![-1, 0, 1, -1, 0, 1, 1, -1];
    let table = FrequencyTable::from_data(&data);
    let encoded = ArithmeticEncoder::encode(&data, &table);
    let decoded = ArithmeticDecoder::decode(&encoded, &table, data.len());
    assert_eq!(data, decoded);
}

#[test]
fn test_encode_decode_uniform_data() {
    let data = vec![0, 0, 0, 0, 0, 0, 0, 0];
    let table = FrequencyTable::from_data(&data);
    let encoded = ArithmeticEncoder::encode(&data, &table);
    let decoded = ArithmeticDecoder::decode(&encoded, &table, data.len());
    assert_eq!(data, decoded);
}

#[test]
fn test_encode_decode_all_symbols() {
    let data = vec![-1, 0, 1, -1, 0, 1, -1, 0, 1];
    let table = FrequencyTable::from_data(&data);
    let encoded = ArithmeticEncoder::encode(&data, &table);
    let decoded = ArithmeticDecoder::decode(&encoded, &table, data.len());
    assert_eq!(data, decoded);
}

#[test]
fn test_encode_decode_long_sequence() {
    let data: Vec<i32> = (0..1000)
        .map(|i| match i % 3 {
            0 => -1,
            1 => 0,
            _ => 1,
        })
        .collect();
    let table = FrequencyTable::from_data(&data);
    let encoded = ArithmeticEncoder::encode(&data, &table);
    let decoded = ArithmeticDecoder::decode(&encoded, &table, data.len());
    assert_eq!(data, decoded);
}

#[test]
fn test_encode_decode_single_symbol() {
    for sym in &[-1i32, 0, 1] {
        let data = vec![*sym];
        let table = FrequencyTable::from_data(&data);
        let encoded = ArithmeticEncoder::encode(&data, &table);
        let decoded = ArithmeticDecoder::decode(&encoded, &table, 1);
        assert_eq!(data, decoded, "Failed for symbol {sym}");
    }
}

#[test]
fn test_adaptive_roundtrip() {
    let data = vec![-1, -1, 0, 0, 1, 1, -1, 0, 1, -1, 0, 1];
    let (encoded, _bits) = ArithmeticEncoder::encode_adaptive(&data);
    let decoded = ArithmeticDecoder::decode_adaptive(&encoded, data.len());
    assert_eq!(data, decoded);
}

#[test]
fn test_adaptive_long_roundtrip() {
    let data: Vec<i32> = (0..500)
        .map(|i| match i % 5 {
            0 => -1,
            1 => -1,
            2 => 0,
            3 => 1,
            _ => 1,
        })
        .collect();
    let (encoded, _) = ArithmeticEncoder::encode_adaptive(&data);
    let decoded = ArithmeticDecoder::decode_adaptive(&encoded, data.len());
    assert_eq!(data, decoded);
}

// ---- further cases ----

#[test]
fn encode_gives_exact_bytes() {
    let data = vec![-1, 0, 1, -1, 0, 1, 1, -1];
    let table = FrequencyTable::from_data(&data);
    assert_eq!(ArithmeticEncoder::encode(&data, &table), vec![53u8, 0]);

    let data = vec![0; 8];
    let table = FrequencyTable::from_data(&data);
    assert_eq!(ArithmeticEncoder::encode(&data, &table), vec![112u8]);

    let data = vec![-1, -1, 0, 1];
    let table = FrequencyTable::from_data(&data);
    assert_eq!(ArithmeticEncoder::encode(&data, &table), vec![45u8]);
}

#[test]
fn encode_single_symbols_exact_bytes() {
    let table = FrequencyTable::uniform();
    assert_eq!(ArithmeticEncoder::encode(&[-1], &table), vec![32u8]);
    assert_eq!(ArithmeticEncoder::encode(&[0], &table), vec![96u8]);
    assert_eq!(ArithmeticEncoder::encode(&[1], &table), vec![192u8]);
}

#[test]
fn encode_adaptive_exact_bytes_and_bit_count() {
    let data = vec![-1, -1, 0, 0, 1, 1, -1, 0, 1, -1, 0, 1];
    let (encoded, bits) = ArithmeticEncoder::encode_adaptive(&data);
    assert_eq!(encoded, vec![32u8, 161, 140]);
    assert_eq!(bits, 24);
}

#[test]
fn encode_of_nothing() {
    let table = FrequencyTable::uniform();
    let encoded = ArithmeticEncoder::encode(&[], &table);
    assert_eq!(encoded, vec![64u8]);
    assert_eq!(ArithmeticDecoder::decode(&encoded, &table, 0), Vec::<i32>::new());
    let (encoded, bits) = ArithmeticEncoder::encode_adaptive(&[]);
    assert_eq!(encoded, vec![64u8]);
    assert_eq!(bits, 8);
}

#[test]
fn skewed_data_compresses() {
    let data: Vec<i32> = (0..100).map(|i| if i < 90 { 0 } else { 1 }).collect();
    let table = FrequencyTable::from_data(&data);
    let encoded = ArithmeticEncoder::encode(&data, &table);
    assert_eq!(encoded.len(), 7);
    assert!(encoded.len() < data.len());
    assert_eq!(ArithmeticDecoder::decode(&encoded, &table, data.len()), data);
}

#[test]
fn roundtrip_with_another_table_than_the_data() {
    let data = vec![1, 1, -1, 0, 1, 1, 1, -1, 0, 0, 1];
    let table = FrequencyTable::from_data(&[-1, -1, -1, -1, -1, -1, 0, 1]);
    let encoded = ArithmeticEncoder::encode(&data, &table);
    assert_eq!(ArithmeticDecoder::decode(&encoded, &table, data.len()), data);
}

#[test]
fn adaptive_roundtrip_past_rescale() {
    // long enough that a table reaching the quarter bound would be rescaled
    let data: Vec<i32> = (0..20000).map(|i| if i % 7 == 0 { -1 } else if i % 3 == 0 { 1 } else { 0 }).collect();
    let (encoded, bits) = ArithmeticEncoder::encode_adaptive(&data);
    assert_eq!(bits, 8 * encoded.len());
    assert_eq!(ArithmeticDecoder::decode_adaptive(&encoded, data.len()), data);
}

#[test]
fn decode_prefix_of_encoding() {
    let data = vec![0, 1, -1, -1, 0, 1, 0, 0, 0, 1];
    let table = FrequencyTable::from_data(&data);
    let encoded = ArithmeticEncoder::encode(&data, &table);
    let decoded = ArithmeticDecoder::decode(&encoded, &table, 4);
    assert_eq!(decoded, data[..4].to_vec());
}

#[test]
fn decode_symbol_by_symbol() {
    let data = vec![1, 0, 0, -1, 1, 1];
    let table = FrequencyTable::from_data(&data);
    let encoded = ArithmeticEncoder::encode(&data, &table);
    let mut decoder = ArithmeticDecoder::new(&encoded);
    for &s in &data {
        assert_eq!(decoder.decode_symbol(&table), s);
    }
}

#[test]
fn decode_arbitrary_bytes_gives_ternary_symbols() {
    let table = FrequencyTable::from_data(&[1, 0, -1, -1]);
    let bytes = vec![0xffu8, 0x00, 0x5a, 0xa5, 0x13];
    let decoded = ArithmeticDecoder::decode(&bytes, &table, 50);
    assert_eq!(decoded.len(), 50);
    assert!(decoded.iter().all(|&s| s == -1 || s == 0 || s == 1));
    let decoded = ArithmeticDecoder::decode(&[], &table, 10);
    assert_eq!(decoded.len(), 10);
    let decoded = ArithmeticDecoder::decode_adaptive(&bytes, 30);
    assert_eq!(decoded.len(), 30);
}

#[test]
fn encoder_symbol_by_symbol_keeps_emitted_bytes() {
    let table = FrequencyTable::uniform();
    let mut encoder = ArithmeticEncoder::new();
    for _ in 0..40 {
        encoder.encode_symbol(-1, &table);
    }
    // every -1 lies in the lowest third: the stream starts with zero bits
    let bytes = encoder.into_bytes();
    assert!(!bytes.is_empty());
    assert_eq!(bytes[0], 0);
}

#[test]
fn fresh_encoder_has_no_bytes() {
    let encoder = ArithmeticEncoder::new();
    assert!(encoder.into_bytes().is_empty());
}

fn ideal_bits(data: &[i32], table: &FrequencyTable) -> f64 {
    data.iter()
        .map(|&s| (table.total() as f64 / table.count(s) as f64).log2())
        .sum()
}

#[test]
fn encoding_length_near_ideal_code_length() {
    let data: Vec<i32> = (0..1000).map(|i| [-1, 0, 1][i % 3]).collect();
    let table = FrequencyTable::from_data(&data);
    let encoded = ArithmeticEncoder::encode(&data, &table);
    let bound = (ideal_bits(&data, &table) + 9.0 + 0.01) / 8.0;
    assert_eq!(encoded.len(), 199);
    assert!((encoded.len() as f64) <= bound);

    let data: Vec<i32> = (0..100).map(|i| if i < 90 { 0 } else { 1 }).collect();
    let table = FrequencyTable::from_data(&data);
    let encoded = ArithmeticEncoder::encode(&data, &table);
    let bound = (ideal_bits(&data, &table) + 9.0 + 0.01) / 8.0;
    assert!((encoded.len() as f64) <= bound);
}
