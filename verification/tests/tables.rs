use symbol_table::{
    binary_expand, binary_message_list, build_flat_frequencies, count_bits,
    generate_range_encoder_increasing, generate_range_encoder_semidecreasing, phased_quat_encoder,
    polarity_a, polarity_b, polarity_c, quat_encoder_a, quat_encoder_b, quat_encoder_c,
    quat_encoder_d, quat_encoder_e, quat_encoder_f, quat_frequencies, quaternary_expand,
    quaternary_message_list, simple_decode, simple_encode, ANSTableUniform, SymbolFrequencies,
};

fn rows(table: &ANSTableUniform, count: usize) -> Vec<Vec<u32>> {
    table.encode.iter().take(count).cloned().collect()
}

#[test]
fn uniform_table_for_two_symbols() {
    let table = polarity_a();
    assert_eq!(table.sum_frequencies, 4);
    assert_eq!(table.encode.len(), 256);
    assert_eq!(rows(&table, 3), vec![vec![0, 1, 3], vec![2], vec![]]);
    assert_eq!(table.decode, vec![(0, 0), (0, 1), (1, 0), (0, 2)]);
    let mut freqs = SymbolFrequencies::new();
    freqs.frequencies[0] = 1;
    freqs.frequencies[1] = 3;
    let table = ANSTableUniform::new(freqs);
    assert_eq!(rows(&table, 2), vec![vec![1], vec![0, 2, 3]]);
    assert_eq!(table.decode, vec![(1, 0), (0, 0), (1, 1), (1, 2)]);
}

#[test]
fn uniform_table_for_four_symbols() {
    let table = quat_encoder_a();
    assert_eq!(table.sum_frequencies, 15);
    assert_eq!(
        rows(&table, 4),
        vec![vec![7], vec![3, 11], vec![1, 5, 9, 13], vec![0, 2, 4, 6, 8, 10, 12, 14]]
    );
    assert_eq!(table.decode[7], (0, 0));
    assert_eq!(table.decode[11], (1, 1));
    assert_eq!(table.decode[14], (3, 7));
}

#[test]
fn phase_shifts_the_interleaving() {
    let table = quat_encoder_e();
    assert_eq!(
        rows(&table, 4),
        vec![vec![11], vec![4, 12], vec![1, 5, 8, 13], vec![0, 2, 3, 6, 7, 9, 10, 14]]
    );
    let table = phased_quat_encoder(3);
    assert_eq!(
        rows(&table, 4),
        vec![vec![10], vec![3, 12], vec![1, 5, 8, 13], vec![0, 2, 4, 6, 7, 9, 11, 14]]
    );
    assert_eq!(rows(&phased_quat_encoder(7), 4), rows(&quat_encoder_a(), 4));
    assert_eq!(phased_quat_encoder(7).decode, quat_encoder_a().decode);
}

#[test]
fn every_phase_gives_a_partition_with_inverse() {
    let freqs = quat_frequencies();
    for phase in 0..15 {
        let (encode, decode) = ANSTableUniform::build_tables(&freqs.frequencies, 15, phase);
        assert_eq!(decode.len(), 15);
        let mut seen = [false; 15];
        for symbol in 0..256 {
            assert_eq!(encode[symbol].len() as u32, freqs.frequencies[symbol]);
            for (phase_of, &slot) in encode[symbol].iter().enumerate() {
                assert!(!seen[slot as usize]);
                seen[slot as usize] = true;
                assert_eq!(decode[slot as usize], (symbol as u8, phase_of as u32));
            }
            assert!(encode[symbol].windows(2).all(|pair| pair[0] < pair[1]));
        }
        assert!(seen.iter().all(|&s| s));
    }
}

#[test]
fn empty_histogram_gives_empty_tables() {
    let table = ANSTableUniform::new(SymbolFrequencies::new());
    assert_eq!(table.sum_frequencies, 0);
    assert_eq!(table.encode.len(), 256);
    assert!(table.encode.iter().all(|row| row.is_empty()));
    assert!(table.decode.is_empty());
}

#[test]
fn step_follows_the_recurrence() {
    let mut freqs = SymbolFrequencies::new();
    freqs.frequencies[0] = 1;
    freqs.frequencies[1] = 3;
    let table = ANSTableUniform::new(freqs);
    assert_eq!(table.append_encode64(5, 0), 21);
    assert_eq!(table.append_encode64(5, 1), 7);
    assert_eq!(table.append_encode32(5, 0), 21);
    assert_eq!(table.append_encode(5, 1), 7);
    assert_eq!(table.decode64(21), (0, 5));
    assert_eq!(table.decode64(7), (1, 5));
    assert_eq!(table.decode32(21), (0, 5));
    assert_eq!(table.decode32(7), (1, 5));
    assert_eq!(table.append_encode64(1 << 40, 0), (1 << 42) + 1);
}

#[test]
fn unstep_undoes_step() {
    let table = quat_encoder_a();
    for x in 1..2000u64 {
        for symbol in 0..4u8 {
            let next = table.append_encode64(x, symbol);
            assert!(next >= (x / table.frequencies[symbol as usize] as u64) * 15);
            assert!(next < (x / table.frequencies[symbol as usize] as u64 + 1) * 15);
            assert_eq!(table.decode64(next), (symbol, x));
        }
    }
    for x in 1..2000u32 {
        for symbol in 0..4u8 {
            assert_eq!(table.decode32(table.append_encode32(x, symbol)), (symbol, x));
        }
    }
}

#[test]
fn hand_made_two_symbol_tables() {
    let b = polarity_b();
    assert_eq!(b.sum_frequencies, 4);
    assert_eq!(b.frequencies[0], 3);
    assert_eq!(b.frequencies[1], 1);
    assert_eq!(b.encode, vec![vec![1, 2, 3], vec![0]]);
    assert!(b.decode.is_empty());
    let c = polarity_c();
    assert_eq!(c.encode, vec![vec![0, 1, 2], vec![3]]);
    assert!(c.decode.is_empty());
    assert_eq!(simple_encode(&b, &[0, 1, 0]), 11);
    assert_eq!(simple_encode(&c, &[0, 1, 0]), 9);
}

#[test]
fn range_tables() {
    let freqs = quat_frequencies();
    assert_eq!(
        generate_range_encoder_increasing(&freqs),
        vec![vec![0], vec![1, 2], vec![3, 4, 5, 6], vec![7, 8, 9, 10, 11, 12, 13, 14]]
    );
    assert_eq!(
        generate_range_encoder_semidecreasing(&freqs),
        vec![vec![14], vec![12, 13], vec![8, 9, 10, 11], vec![0, 1, 2, 3, 4, 5, 6, 7]]
    );
    assert_eq!(quat_encoder_b().encode, generate_range_encoder_increasing(&freqs));
    assert_eq!(quat_encoder_c().encode, generate_range_encoder_semidecreasing(&freqs));
    assert!(quat_encoder_b().decode.is_empty());
    let mut gap = SymbolFrequencies::new();
    gap.frequencies[0] = 2;
    gap.frequencies[2] = 5;
    assert_eq!(generate_range_encoder_increasing(&gap), vec![vec![0, 1]]);
    assert_eq!(generate_range_encoder_semidecreasing(&gap), vec![vec![5, 6]]);
    assert!(generate_range_encoder_increasing(&SymbolFrequencies::new()).is_empty());
}

#[test]
fn mirrored_and_hand_made_four_symbol_tables() {
    let d = quat_encoder_d();
    assert_eq!(
        rows(&d, 4),
        vec![vec![7], vec![3, 11], vec![1, 5, 9, 13], vec![0, 2, 4, 6, 8, 10, 12, 14]]
    );
    assert_eq!(d.decode, quat_encoder_a().decode);
    let f = quat_encoder_f();
    assert_eq!(
        f.encode,
        vec![vec![0], vec![5, 9], vec![2, 7, 11, 13], vec![1, 3, 4, 6, 8, 10, 12, 14]]
    );
    assert_eq!(f.sum_frequencies, 15);
}

#[test]
fn simple_encode_folds_the_message() {
    let table = quat_encoder_a();
    assert_eq!(simple_encode(&table, &[]), 1);
    assert_eq!(simple_encode(&table, &[0, 1, 2, 3, 3, 2, 1, 0, 0, 0]), 210763687);
    assert_eq!(simple_encode(&table, &[3; 10]), 687);
    assert_eq!(simple_encode(&table, &[0; 10]), 864975585937);
}

#[test]
fn simple_decode_unfolds_the_state() {
    let table = quat_encoder_a();
    assert_eq!(simple_decode(&table, 210763687), vec![0, 1, 2, 3, 3, 2, 1, 0, 0, 0]);
    assert_eq!(simple_decode(&table, 1), Vec::<u8>::new());
    assert_eq!(simple_decode(&table, 0), Vec::<u8>::new());
    let message = b"Robert";
    let mut freqs = SymbolFrequencies::new();
    freqs.scan_file(message);
    let table = ANSTableUniform::new(freqs);
    let x = simple_encode(&table, message);
    assert_eq!(simple_decode(&table, x), message.to_vec());
}

#[test]
fn simple_decode_stops_at_a_state_that_cannot_move() {
    // A single symbol owns every slot, so no state ever moves.
    let mut freqs = SymbolFrequencies::new();
    freqs.frequencies[7] = 4;
    let table = ANSTableUniform::new(freqs);
    assert_eq!(table.encode[7], vec![0, 1, 2, 3]);
    assert_eq!(table.decode64(5), (7, 5));
    assert_eq!(simple_decode(&table, 5), Vec::<u8>::new());
}

#[test]
fn count_bits_is_the_bit_length() {
    assert_eq!(count_bits(0), 0);
    assert_eq!(count_bits(1), 1);
    assert_eq!(count_bits(2), 2);
    assert_eq!(count_bits(255), 8);
    assert_eq!(count_bits(256), 9);
    assert_eq!(count_bits(210763687), 28);
    assert_eq!(count_bits(u64::MAX), 64);
}

#[test]
fn digits_are_expanded_lowest_first() {
    assert_eq!(binary_expand(0b1011, 4), vec![1, 1, 0, 1]);
    assert_eq!(binary_expand(0b1011, 6), vec![1, 1, 0, 1, 0, 0]);
    assert_eq!(binary_expand(5, 0), Vec::<u8>::new());
    assert_eq!(binary_expand(-1, 32), vec![1; 32]);
    assert_eq!(quaternary_expand(0b11_10_01_00, 4), vec![0, 1, 2, 3]);
    assert_eq!(quaternary_expand(0b11_10_01_00, 2), vec![0, 1]);
    assert_eq!(quaternary_expand(7, 3), vec![3, 1, 0]);
}

#[test]
fn message_lists_enumerate_all_messages() {
    let mut list = binary_message_list(3);
    let mut messages = Vec::new();
    while let Some(message) = list.next() {
        messages.push(message);
    }
    assert_eq!(messages.len(), 8);
    assert_eq!(messages[0], vec![0, 0, 0]);
    assert_eq!(messages[1], vec![1, 0, 0]);
    assert_eq!(messages[6], vec![0, 1, 1]);
    assert_eq!(messages[7], vec![1, 1, 1]);
    assert_eq!(list.next(), None);

    let mut list = quaternary_message_list(2);
    let mut count = 0;
    let mut last = Vec::new();
    while let Some(message) = list.next() {
        if count == 6 {
            assert_eq!(message, vec![2, 1]);
        }
        count += 1;
        last = message;
    }
    assert_eq!(count, 16);
    assert_eq!(last, vec![3, 3]);

    let mut list = binary_message_list(0);
    assert_eq!(list.next(), Some(vec![]));
    assert_eq!(list.next(), None);
    assert_eq!(binary_message_list(31).next(), None);
    assert_eq!(quaternary_message_list(10).limit, 1 << 20);
}

#[test]
fn flat_frequencies_mark_the_symbols_that_occur() {
    let flat = build_flat_frequencies(b"abca");
    assert_eq!(flat[b'a' as usize], 1);
    assert_eq!(flat[b'b' as usize], 1);
    assert_eq!(flat[b'c' as usize], 1);
    assert_eq!(flat.iter().sum::<u32>(), 3);
    assert_eq!(build_flat_frequencies(&[]), [0u32; 256]);
}

fn expected_bits(table: &ANSTableUniform, digits: u8) -> f64 {
    let mut list = quaternary_message_list(digits);
    let mut sum_bits = 0f64;
    let mut sum_prob = 0f64;
    while let Some(message) = list.next() {
        let encoded = simple_encode(table, &message);
        let mut probability = 1f64;
        for &symbol in &message {
            probability *= table.frequencies[symbol as usize] as f64 / table.sum_frequencies as f64;
        }
        sum_bits += probability * (encoded.max(1) as f64).log2();
        sum_prob += probability;
    }
    sum_bits / sum_prob
}

fn check_phases(phases: std::ops::Range<u32>) {
    for phase in phases {
        let bits = expected_bits(&phased_quat_encoder(phase), 10);
        assert!(bits.is_finite());
        assert!(bits > 0.0);
        // Ten symbols of this source carry about 16.4 bits.
        assert!(bits > 16.0 && bits < 20.0);
    }
}

#[test]
fn expected_length_is_finite_for_phases_0_to_4() {
    check_phases(0..5);
}

#[test]
fn expected_length_is_finite_for_phases_5_to_9() {
    check_phases(5..10);
}

#[test]
fn expected_length_is_finite_for_phases_10_to_14() {
    check_phases(10..15);
}
