use std::cell::RefCell;
use symbol_table::{
    generate_range_encoder_increasing, quat_frequencies, scale_frequencies, ANSTableUniform,
    DecodeError, ParameterError, StreamingANSUniform, SymbolFrequencies,
};

fn reversed(message: &[u8]) -> Vec<u8> {
    message.iter().rev().copied().collect()
}

fn two_symbols(first: u32, second: u32) -> SymbolFrequencies {
    let mut freqs = SymbolFrequencies::new();
    freqs.frequencies[0] = first;
    freqs.frequencies[1] = second;
    freqs
}

fn round_trip(codec: &StreamingANSUniform, message: &[u8], iv: u64) -> Result<Vec<u8>, DecodeError> {
    let encoded = codec.encode(&reversed(message), iv);
    codec.decode(&encoded, iv)
}

#[test]
fn test1() {
    let mut freqs = SymbolFrequencies::new();
    freqs.frequencies[0] = 1;
    freqs.frequencies[1] = 3;

    let ansu = StreamingANSUniform::new(freqs, 16, 2).unwrap();

    let iv = 1;
    {
        let orig = vec![0, 0];
        let encoded = ansu.encode(&reversed(&orig), iv);
        let decoded = ansu.decode(&encoded, iv).unwrap();
        assert_eq!(orig, decoded);
    }
    {
        let orig = vec![1, 1];
        let encoded = ansu.encode(&reversed(&orig), iv);
        let decoded = ansu.decode(&encoded, iv).unwrap();
        assert_eq!(orig, decoded);
    }
}

#[test]
fn encoded_bytes_of_short_messages() {
    let codec = StreamingANSUniform::new(two_symbols(1, 3), 16, 2).unwrap();
    assert_eq!(codec.encode(&reversed(&[0, 0]), 1), vec![21, 0]);
    assert_eq!(codec.encode(&reversed(&[1, 1]), 1), vec![3, 0]);
    let codec = StreamingANSUniform::new(two_symbols(3, 1), 16, 2).unwrap();
    assert_eq!(codec.encode(&reversed(&[0, 0, 0, 1]), 1), vec![15, 0]);
    assert_eq!(codec.encode(&reversed(&[1, 1, 1, 1]), 1), vec![170, 1]);
    assert_eq!(codec.encode(&reversed(&[1, 0, 1, 1]), 1), vec![142, 0]);
}

#[test]
fn empty_message_encodes_the_initial_value() {
    let codec = StreamingANSUniform::new(quat_frequencies(), 16, 2).unwrap();
    assert_eq!(codec.encode(&[], 1), vec![1, 0]);
    assert_eq!(codec.encode(&[], 300), vec![44, 1]);
    assert_eq!(codec.encode(&[], 65536 + 5), vec![5, 0, 1, 0]);
    assert_eq!(codec.decode(&[1, 0], 1), Ok(vec![]));
    assert_eq!(codec.decode(&[44, 1], 300), Ok(vec![]));
}

#[test]
fn two_symbol_words_that_end_in_the_rare_symbol_round_trip() {
    let codec = StreamingANSUniform::new(two_symbols(3, 1), 16, 2).unwrap();
    for word in 0..16u8 {
        let message: Vec<u8> = (0..4).map(|pos| (word >> pos) & 1).collect();
        if message[3] == 1 {
            assert_eq!(round_trip(&codec, &message, 1), Ok(message));
        }
    }
}

#[test]
fn trailing_symbols_that_leave_the_initial_state_in_place_are_lost() {
    // With frequencies 3 and 1 the common symbol owns slot 1 in phase 1, so
    // appending it to the state 1 gives 1 again.
    let codec = StreamingANSUniform::new(two_symbols(3, 1), 16, 2).unwrap();
    assert_eq!(codec.table.append_encode64(1, 0), 1);
    assert_eq!(codec.encode(&reversed(&[0, 0, 0, 0]), 1), vec![1, 0]);
    assert_eq!(round_trip(&codec, &[0, 0, 0, 0], 1), Ok(vec![]));
    assert_eq!(round_trip(&codec, &[0, 1, 0, 0], 1), Ok(vec![0, 1]));
    assert_eq!(round_trip(&codec, &[1, 1, 1, 0], 1), Ok(vec![1, 1, 1]));
    // Another initial value avoids the fixed point.
    assert_eq!(round_trip(&codec, &[0, 0, 0, 0], 2), Ok(vec![0, 0, 0, 0]));
}

#[test]
fn all_ten_digit_quaternary_messages_round_trip() {
    let codec = StreamingANSUniform::new(quat_frequencies(), 16, 2).unwrap();
    let mut spilled = 0;
    for packed in 0..(1u32 << 20) {
        let message: Vec<u8> = (0..10).map(|pos| ((packed >> (2 * pos)) & 3) as u8).collect();
        let encoded = codec.encode(&reversed(&message), 1);
        if encoded.len() > 4 {
            spilled += 1;
        }
        assert_eq!(codec.decode(&encoded, 1), Ok(message));
    }
    assert_eq!(spilled, 16588);
}

#[test]
fn a_message_that_spills_is_streamed_low_byte_first() {
    let codec = StreamingANSUniform::new(quat_frequencies(), 16, 2).unwrap();
    let message = vec![0u8; 10];
    let encoded = codec.encode(&reversed(&message), 1);
    assert_eq!(encoded, vec![65, 233, 51, 100, 201, 0]);
    assert_eq!(codec.decode(&encoded, 1), Ok(message));
    let message: Vec<u8> = (0..24).map(|i| (i % 4) as u8).collect();
    let encoded = codec.encode(&reversed(&message), 1);
    assert_eq!(encoded, vec![140, 173, 250, 70, 47, 206, 155, 4]);
    assert_eq!(codec.decode(&encoded, 1), Ok(message));
}

fn scaled_text_histogram(message: &[u8]) -> SymbolFrequencies {
    let mut raw = SymbolFrequencies::new();
    raw.scan_file(message);
    let filled = SymbolFrequencies::missing_symbols_become_one(&raw);
    scale_frequencies(16, &filled)
}

#[test]
fn text_round_trips_with_a_scaled_histogram() {
    let message = b"what is a man, but a miserable pile of secrets?";
    let freqs = scaled_text_histogram(message);
    assert_eq!(freqs.frequencies.iter().map(|&f| f as u64).sum::<u64>(), 1 << 16);
    assert_eq!(freqs.frequencies[b' ' as usize], 2088);
    assert_eq!(freqs.frequencies[b'a' as usize], 1160);
    assert_eq!(freqs.frequencies[0], 231);
    assert_eq!(freqs.frequencies[255], 232);
    let expected_heads: [(u8, [u8; 4]); 3] =
        [(16, [79, 207, 165, 237]), (24, [64, 70, 119, 36]), (32, [207, 176, 48, 153])];
    for (underflow_bits, head) in expected_heads {
        let codec = StreamingANSUniform::new(freqs, underflow_bits, 2).unwrap();
        let encoded = codec.encode(&reversed(message), 1);
        assert_eq!(encoded.len(), 40);
        assert_eq!(&encoded[..4], &head);
        assert_eq!(codec.decode(&encoded, 1), Ok(message.to_vec()));
    }
}

fn range_codec() -> StreamingANSUniform {
    let freqs = quat_frequencies();
    let mut encode = generate_range_encoder_increasing(&freqs);
    encode.resize(256, Vec::new());
    let mut decode = vec![(0u8, 0u32); 15];
    for (symbol, row) in encode.iter().enumerate() {
        for (phase, &slot) in row.iter().enumerate() {
            decode[slot as usize] = (symbol as u8, phase as u32);
        }
    }
    let table = ANSTableUniform {
        frequencies: freqs.frequencies,
        sum_frequencies: 15,
        encode,
        decode,
        verbose: false,
    };
    assert_eq!(StreamingANSUniform::check_balance(&table, 16, 2), Ok(()));
    StreamingANSUniform { table, underflow_bits: 16, bytes_to_stream: 2, verbose: false }
}

#[test]
fn uniform_and_range_tables_both_round_trip_with_different_streams() {
    let uniform = StreamingANSUniform::new(quat_frequencies(), 16, 2).unwrap();
    let range = range_codec();
    let message = [3u8, 2, 1, 0, 3, 3];
    assert_eq!(uniform.encode(&reversed(&message), 1), vec![233, 13]);
    assert_eq!(range.encode(&reversed(&message), 1), vec![14, 68]);
    for packed in 0..(1u32 << 12) {
        let message: Vec<u8> = (0..6).map(|pos| ((packed >> (2 * pos)) & 3) as u8).collect();
        let by_uniform = uniform.encode(&reversed(&message), 1);
        let by_range = range.encode(&reversed(&message), 1);
        assert_ne!(by_uniform, by_range);
        assert_eq!(uniform.decode(&by_uniform, 1), Ok(message.clone()));
        assert_eq!(range.decode(&by_range, 1), Ok(message));
    }
    let long = [0u8, 0, 0, 0, 0, 1, 2, 3, 3, 3, 3, 1];
    assert_eq!(range.encode(&reversed(&long), 1), vec![239, 186, 172, 108]);
    assert_eq!(round_trip(&range, &long, 1), Ok(long.to_vec()));
}

#[test]
fn range_table_is_a_partition_with_inverse() {
    let table = range_codec().table;
    let mut seen = [false; 15];
    for (symbol, row) in table.encode.iter().enumerate() {
        assert_eq!(row.len() as u32, table.frequencies[symbol]);
        for (phase, &slot) in row.iter().enumerate() {
            assert!(!seen[slot as usize]);
            seen[slot as usize] = true;
            assert_eq!(table.decode[slot as usize], (symbol as u8, phase as u32));
        }
    }
    assert!(seen.iter().all(|&s| s));
    for x in 1..500u64 {
        for symbol in 0..4u8 {
            assert_eq!(table.decode64(table.append_encode64(x, symbol)), (symbol, x));
        }
    }
}

#[test]
fn parameters_are_checked_before_construction() {
    assert_eq!(
        StreamingANSUniform::new(two_symbols(1, 3), 8, 2).err(),
        Some(ParameterError::UnderflowTooSmall)
    );
    assert_eq!(
        StreamingANSUniform::new(two_symbols(1, 3), 40, 2).err(),
        Some(ParameterError::WindowTooWide)
    );
    assert_eq!(
        StreamingANSUniform::new(two_symbols(1, 3), 64, 0).err(),
        Some(ParameterError::WindowTooWide)
    );
    assert_eq!(
        StreamingANSUniform::new(two_symbols(1, 1 << 17), 16, 2).err(),
        Some(ParameterError::SymbolOverflow { symbol: 0 })
    );
    assert_eq!(
        StreamingANSUniform::new(two_symbols(1 << 17, 1), 16, 2).err(),
        Some(ParameterError::SymbolOverflow { symbol: 1 })
    );
    assert!(StreamingANSUniform::new(two_symbols(1, (1 << 16) - 1), 16, 2).is_ok());
    assert!(StreamingANSUniform::new(two_symbols(1, 1 << 16), 16, 2).is_err());
    for underflow_bits in [16u8, 24, 32] {
        let codec = StreamingANSUniform::new(two_symbols(1, 3), underflow_bits, 2).unwrap();
        assert_eq!(codec.underflow_bits, underflow_bits);
        assert_eq!(codec.bytes_to_stream, 2);
        assert_eq!(codec.table.sum_frequencies, 4);
        assert!(!codec.verbose);
    }
}

#[test]
fn decoding_reports_a_missing_marker() {
    let codec = StreamingANSUniform::new(two_symbols(1, 3), 16, 2).unwrap();
    assert_eq!(codec.decode(&[], 1), Err(DecodeError::EosMissing));
    assert_eq!(codec.decode(&[0, 0], 1), Err(DecodeError::EosMissing));
    // The marker 7 is never met on the way down from 3.
    assert_eq!(codec.decode(&[3, 0], 7), Err(DecodeError::EosMissing));
}

#[test]
fn decoding_reports_a_state_that_cannot_move() {
    let codec = StreamingANSUniform::new(two_symbols(3, 1), 16, 2).unwrap();
    assert_eq!(codec.decode(&[1, 0], 2), Err(DecodeError::Stalled));
    let mut single = SymbolFrequencies::new();
    single.frequencies[7] = 4;
    let codec = StreamingANSUniform::new(single, 16, 2).unwrap();
    assert_eq!(codec.decode(&[0, 0, 1, 0], 1), Err(DecodeError::Stalled));
}

#[test]
fn a_partial_quantum_at_the_front_is_read_as_it_is() {
    let codec = StreamingANSUniform::new(two_symbols(1, 3), 16, 2).unwrap();
    // One byte only: the state is 3, which unwinds to the marker 1.
    assert_eq!(codec.decode(&[3], 1), Ok(vec![1, 1]));
}

#[test]
fn sink_receives_the_encoded_stream() {
    let codec = StreamingANSUniform::new(quat_frequencies(), 16, 2).unwrap();
    let message: Vec<u8> = (0..24).map(|i| (i % 4) as u8).collect();
    let collected = RefCell::new(Vec::new());
    let sink = |byte: u8| -> Result<(), String> {
        collected.borrow_mut().push(byte);
        Ok(())
    };
    assert_eq!(codec.encode_to_sink(&reversed(&message), &sink, 1), Ok(()));
    assert_eq!(collected.into_inner(), codec.encode(&reversed(&message), 1));
}

#[test]
fn sink_error_ends_the_run() {
    let codec = StreamingANSUniform::new(quat_frequencies(), 16, 2).unwrap();
    let message: Vec<u8> = (0..24).map(|i| (i % 4) as u8).collect();
    let collected = RefCell::new(Vec::new());
    let sink = |byte: u8| -> Result<(), usize> {
        let mut bytes = collected.borrow_mut();
        if bytes.len() == 3 {
            Err(bytes.len())
        } else {
            bytes.push(byte);
            Ok(())
        }
    };
    assert_eq!(codec.encode_to_sink(&reversed(&message), &sink, 1), Err(3));
    assert_eq!(collected.into_inner(), vec![140, 173, 250]);
}

fn top_heavy_codec() -> StreamingANSUniform {
    // Symbol 0 owns the slots 0 to 759, symbol 1 the three slots above.
    let mut frequencies = [0u32; 256];
    frequencies[0] = 760;
    frequencies[1] = 3;
    let encode: Vec<Vec<u32>> = vec![(0..760).collect(), vec![760, 761, 762]];
    let mut decode: Vec<(u8, u32)> = (0..760).map(|p| (0u8, p)).collect();
    decode.extend((0..3).map(|p| (1u8, p)));
    let table =
        ANSTableUniform { frequencies, sum_frequencies: 763, encode, decode, verbose: false };
    assert_eq!(StreamingANSUniform::check_balance(&table, 8, 1), Ok(()));
    StreamingANSUniform { table, underflow_bits: 8, bytes_to_stream: 1, verbose: false }
}

fn padded(codec: StreamingANSUniform) -> StreamingANSUniform {
    let mut codec = codec;
    codec.table.encode.resize(256, Vec::new());
    codec
}

#[test]
fn balanced_parameters_need_not_settle() {
    let codec = padded(top_heavy_codec());
    assert!(!codec.check_settles());
    // From the largest state that a spill can leave, the rare symbol steps
    // out of the 16-bit window.
    assert_eq!(codec.table.append_encode64(255, 1), 65615);
    assert_eq!(codec.try_encode(&[1], 65535), Some(vec![255, 79, 0, 1]));
    assert_ne!(codec.decode(&[255, 79, 0, 1], 65535), Ok(vec![1]));
    assert_eq!(round_trip(&codec, &[1, 1, 0, 1], 1), Ok(vec![1, 1, 0, 1]));
}

#[test]
fn uniform_codecs_settle() {
    assert!(StreamingANSUniform::new(quat_frequencies(), 16, 2).unwrap().check_settles());
    assert!(StreamingANSUniform::new(two_symbols(3, 1), 32, 2).unwrap().check_settles());
    let freqs = scaled_text_histogram(b"what is a man, but a miserable pile of secrets?");
    for underflow_bits in [16u8, 24, 32] {
        assert!(StreamingANSUniform::new(freqs, underflow_bits, 2).unwrap().check_settles());
    }
}

#[test]
fn long_messages_stay_within_64_bits() {
    let mut raw = SymbolFrequencies::new();
    for symbol in 0..256usize {
        raw.frequencies[symbol] = ((symbol * 37 + 11) % 251 + 1) as u32;
    }
    let freqs = scale_frequencies(16, &raw);
    assert_eq!(&freqs.frequencies[..3], &[24, 100, 175]);
    let message: Vec<u8> = (0..5000usize).map(|i| ((i * i * 31 + 7 * i) % 256) as u8).collect();
    let heads: [(u8, [u8; 4]); 2] = [(16, [157, 146, 88, 4]), (32, [148, 179, 100, 105])];
    for (underflow_bits, head) in heads {
        let codec = StreamingANSUniform::new(freqs, underflow_bits, 2).unwrap();
        let encoded = codec.try_encode(&reversed(&message), 1).unwrap();
        assert_eq!(encoded.len(), 5294);
        assert_eq!(&encoded[..4], &head);
        assert_eq!(codec.encode(&reversed(&message), 1), encoded);
        assert_eq!(codec.decode(&encoded, 1), Ok(message.clone()));
    }
}

#[test]
fn symbols_that_can_jump_a_quantum_are_found() {
    let table = ANSTableUniform::new(two_symbols(1, 1 << 17));
    assert!(StreamingANSUniform::jumps_quantum(&table, 2, 0));
    assert!(!StreamingANSUniform::jumps_quantum(&table, 2, 1));
    assert!(!StreamingANSUniform::jumps_quantum(&table, 3, 0));
    assert!(StreamingANSUniform::jumps_quantum(&table, 2, 9));
    assert!(!StreamingANSUniform::jumps_quantum(&table, 200, 0));
    let table = ANSTableUniform::new(two_symbols(1, (1 << 16) - 1));
    assert!(!StreamingANSUniform::jumps_quantum(&table, 2, 0));
    assert!(StreamingANSUniform::jumps_quantum(&table, 1, 0));
    assert!(StreamingANSUniform::jumps_quantum(&table, 0, 0));
}

#[test]
fn arbitrary_streams_decode_or_report_a_missing_marker() {
    let codec = StreamingANSUniform::new(quat_frequencies(), 16, 2).unwrap();
    let mut state: u64 = 12345;
    let mut errors = 0;
    let mut total = 0;
    let mut check: u64 = 0;
    for seed in 0..400u64 {
        let mut stream = Vec::new();
        for _ in 0..(seed % 12) {
            state = state.wrapping_mul(6364136223846793005).wrapping_add(1442695040888963407);
            stream.push((state >> 33) as u8);
        }
        match codec.decode(&stream, 1 + seed % 3) {
            Err(e) => {
                assert_eq!(e, DecodeError::EosMissing);
                errors += 1;
            }
            Ok(message) => {
                total += message.len();
                for (i, &symbol) in message.iter().enumerate() {
                    check = (check * 31 + symbol as u64 + 7 * i as u64 + seed) % 1000000007;
                }
            }
        }
    }
    assert_eq!(errors, 256);
    assert_eq!(total, 4091);
    assert_eq!(check, 358238128);
}
