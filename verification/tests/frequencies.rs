use symbol_table::{rank_symbols, scale_frequencies, SymbolFrequencies, TableReadError};

#[test]
fn new_histogram_is_zero() {
    assert_eq!(SymbolFrequencies::new().frequencies, [0u32; 256]);
    assert_eq!(SymbolFrequencies::default().frequencies, [0u32; 256]);
}

#[test]
fn scan_counts_and_accumulates() {
    let mut freqs = SymbolFrequencies::new();
    freqs.scan_file(b"abracadabra");
    assert_eq!(freqs.frequencies[b'a' as usize], 5);
    assert_eq!(freqs.frequencies[b'b' as usize], 2);
    assert_eq!(freqs.frequencies[b'r' as usize], 2);
    assert_eq!(freqs.frequencies[b'c' as usize], 1);
    assert_eq!(freqs.frequencies[b'd' as usize], 1);
    assert_eq!(freqs.frequencies.iter().sum::<u32>(), 11);
    freqs.scan_file(&[b'a', 0, 255]);
    assert_eq!(freqs.frequencies[b'a' as usize], 6);
    assert_eq!(freqs.frequencies[0], 1);
    assert_eq!(freqs.frequencies[255], 1);
    freqs.scan_file(&[]);
    assert_eq!(freqs.frequencies.iter().sum::<u32>(), 14);
}

#[test]
fn binary_table_is_big_endian() {
    let mut bytes = vec![0u8; 1024];
    bytes[0..4].copy_from_slice(&[0, 0, 1, 2]);
    bytes[4..8].copy_from_slice(&[0x12, 0x34, 0x56, 0x78]);
    bytes[1020..1024].copy_from_slice(&[0xff, 0xff, 0xff, 0xfe]);
    let freqs = SymbolFrequencies::parse_binary_symbol_table(&bytes).unwrap();
    assert_eq!(freqs.frequencies[0], 258);
    assert_eq!(freqs.frequencies[1], 0x12345678);
    assert_eq!(freqs.frequencies[2], 0);
    assert_eq!(freqs.frequencies[255], 0xfffffffe);
}

#[test]
fn binary_table_ignores_what_follows() {
    let mut bytes = vec![0u8; 1030];
    bytes[3] = 9;
    bytes[1024] = 77;
    let freqs = SymbolFrequencies::parse_binary_symbol_table(&bytes).unwrap();
    assert_eq!(freqs.frequencies[0], 9);
    assert_eq!(freqs.frequencies.iter().sum::<u32>(), 9);
}

#[test]
fn short_binary_table_is_rejected() {
    assert_eq!(
        SymbolFrequencies::parse_binary_symbol_table(&[0u8; 1023]).err(),
        Some(TableReadError::UnexpectedEof)
    );
    assert_eq!(
        SymbolFrequencies::parse_binary_symbol_table(&[]).err(),
        Some(TableReadError::UnexpectedEof)
    );
}

#[test]
fn missing_symbols_become_one() {
    let mut freqs = SymbolFrequencies::new();
    freqs.frequencies[3] = 7;
    freqs.frequencies[200] = 1;
    let filled = SymbolFrequencies::missing_symbols_become_one(&freqs);
    assert_eq!(filled.frequencies[3], 7);
    assert_eq!(filled.frequencies[200], 1);
    assert_eq!(filled.frequencies[0], 1);
    assert_eq!(filled.frequencies.iter().sum::<u32>(), 7 + 255);
}

fn sparse(entries: &[(usize, u32)]) -> SymbolFrequencies {
    let mut freqs = SymbolFrequencies::new();
    for &(symbol, frequency) in entries {
        freqs.frequencies[symbol] = frequency;
    }
    freqs
}

#[test]
fn scaling_serves_the_lightest_symbol_first() {
    let raw = sparse(&[(10, 5), (20, 1), (30, 100), (40, 1)]);
    let scaled = scale_frequencies(4, &raw);
    assert_eq!(scaled.frequencies, sparse(&[(10, 1), (20, 1), (30, 13), (40, 1)]).frequencies);
    let scaled = scale_frequencies(2, &raw);
    assert_eq!(scaled.frequencies, sparse(&[(10, 1), (20, 1), (30, 1), (40, 1)]).frequencies);
}

#[test]
fn scaling_keeps_exact_powers() {
    let raw = sparse(&[(0, 1), (1, 2), (2, 4), (3, 9)]);
    let scaled = scale_frequencies(4, &raw);
    assert_eq!(scaled.frequencies, sparse(&[(0, 1), (1, 2), (2, 4), (3, 9)]).frequencies);
    let scaled = scale_frequencies(8, &raw);
    assert_eq!(scaled.frequencies, sparse(&[(0, 16), (1, 32), (2, 64), (3, 144)]).frequencies);
}

#[test]
fn scaling_sums_to_the_power_and_keeps_every_symbol() {
    let mut raw = SymbolFrequencies::new();
    for symbol in 0..256usize {
        raw.frequencies[symbol] = ((symbol * symbol * 7919) % 1000) as u32;
    }
    let occurring = raw.frequencies.iter().filter(|&&f| f > 0).count();
    assert!(occurring <= 256);
    for bits in [8u8, 9, 12, 16, 24, 31] {
        let scaled = scale_frequencies(bits, &raw);
        assert_eq!(scaled.frequencies.iter().map(|&f| f as u64).sum::<u64>(), 1u64 << bits);
        for symbol in 0..256 {
            assert_eq!(raw.frequencies[symbol] > 0, scaled.frequencies[symbol] > 0);
        }
    }
}

#[test]
fn scaling_handles_large_frequencies() {
    let raw = sparse(&[(1, 1 << 31), (2, 1 << 30), (3, 1)]);
    let scaled = scale_frequencies(16, &raw);
    assert_eq!(scaled.frequencies[3], 1);
    assert_eq!(scaled.frequencies[2], 21845);
    assert_eq!(scaled.frequencies[1], 43690);
}

#[test]
fn symbols_are_ranked_by_frequency_then_value() {
    let raw = sparse(&[(10, 5), (20, 1), (30, 100), (40, 1)]);
    let order = rank_symbols(&raw.frequencies);
    assert_eq!(order.len(), 256);
    assert_eq!(&order[..3], &[0, 1, 2]);
    assert_eq!(&order[252..], &[20, 40, 10, 30]);
    let mut sorted = order.clone();
    sorted.sort();
    assert_eq!(sorted, (0..256).collect::<Vec<usize>>());
}

#[test]
fn binary_table_is_written_big_endian() {
    let raw = sparse(&[(0, 258), (1, 0x12345678), (255, 0xfffffffe)]);
    let bytes = raw.binary_symbol_table();
    assert_eq!(bytes.len(), 1024);
    assert_eq!(&bytes[0..8], &[0, 0, 1, 2, 0x12, 0x34, 0x56, 0x78]);
    assert_eq!(&bytes[8..12], &[0, 0, 0, 0]);
    assert_eq!(&bytes[1020..1024], &[0xff, 0xff, 0xff, 0xfe]);
    let back = SymbolFrequencies::parse_binary_symbol_table(&bytes).unwrap();
    assert_eq!(back.frequencies, raw.frequencies);
}
