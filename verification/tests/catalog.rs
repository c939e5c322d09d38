use symbol_table::catalog::{
    catalog_entry, catalog_messages, chunk_len, merge_catalogs, message_weight, partition_sizes,
    sort_catalog,
};
use symbol_table::{
    catalog_encoding_results, polarity_a, polarity_b, quat_encoder_a, quat_frequencies,
    quaternary_message_list, simple_encode, try_simple_encode, CatalogEntry, MessageList,
    StreamingANSUniform,
};

fn entry(weight: u64, encoded: u64) -> CatalogEntry {
    CatalogEntry { weight, encoded }
}

#[test]
fn weight_is_the_product_of_the_frequencies() {
    let table = quat_encoder_a();
    assert_eq!(message_weight(&table, &[]), Some(1));
    assert_eq!(message_weight(&table, &[0, 1, 2, 3]), Some(64));
    assert_eq!(message_weight(&table, &[3; 10]), Some(1 << 30));
    assert_eq!(message_weight(&table, &[3, 9]), Some(0));
    assert_eq!(message_weight(&table, &[3; 22]), None);
}

#[test]
fn checked_encoding_agrees_with_plain_encoding() {
    let table = quat_encoder_a();
    assert_eq!(try_simple_encode(&table, &[0, 1, 2, 3, 3, 2, 1, 0, 0, 0]), Some(210763687));
    assert_eq!(try_simple_encode(&table, &[]), Some(1));
    assert_eq!(try_simple_encode(&table, &[0, 1, 4]), None);
    assert_eq!(try_simple_encode(&table, &[0; 17]), None);
    assert_eq!(try_simple_encode(&table, &[0; 16]), Some(simple_encode(&table, &[0; 16])));
    assert_eq!(table.try_append_encode64(5, 0), Some(82));
    assert_eq!(table.try_append_encode64(5, 200), None);
    assert_eq!(table.try_append_encode64(u64::MAX, 3), None);
    assert_eq!(table.try_append_encode64(u64::MAX / 2, 3), Some(17293822569102704639));
    // A table without a row for a symbol that has a frequency.
    let mut broken = polarity_b();
    broken.encode.pop();
    assert_eq!(try_simple_encode(&broken, &[0, 0]), Some(3));
    assert_eq!(try_simple_encode(&broken, &[0, 1]), None);
}

#[test]
fn checked_streaming_encoder_agrees_with_the_plain_one() {
    let codec = StreamingANSUniform::new(quat_frequencies(), 16, 2).unwrap();
    let message: Vec<u8> = (0..24).map(|i| (3 - i % 4) as u8).collect();
    assert_eq!(codec.try_encode(&message, 1), Some(vec![140, 173, 250, 70, 47, 206, 155, 4]));
    assert_eq!(codec.try_encode(&message, 1), Some(codec.encode(&message, 1)));
    assert_eq!(codec.try_encode(&[0, 1, 7], 1), None);
    assert_eq!(codec.try_encode(&[0], u64::MAX), None);
    assert_eq!(codec.try_encode(&[], u64::MAX), Some(vec![255; 8]));
}

#[test]
fn catalogue_lists_every_message_in_order() {
    let table = polarity_a();
    let list = catalog_messages(symbol_table::binary_message_list(2), &table).unwrap();
    assert_eq!(list, vec![entry(9, 1), entry(3, 8), entry(3, 6), entry(1, 26)]);
    let part = MessageList { position: 1, limit: 3, digits: 2, quaternary: false };
    assert_eq!(catalog_messages(part, &table).unwrap(), vec![entry(3, 8), entry(3, 6)]);
    assert_eq!(catalog_entry(&table, &[1, 1]), Some(entry(1, 26)));
    assert_eq!(catalog_entry(&table, &[1, 2]), None);
    let empty = MessageList { position: 4, limit: 4, digits: 2, quaternary: false };
    assert_eq!(catalog_messages(empty, &table), Some(vec![]));
    let mut no_rows = polarity_b();
    no_rows.encode.clear();
    assert_eq!(catalog_messages(symbol_table::binary_message_list(2), &no_rows), None);
}

#[test]
fn catalogue_is_sorted_by_encoded_state() {
    let table = quat_encoder_a();
    let sorted = catalog_encoding_results(quaternary_message_list(3), &table).unwrap();
    let mut expected = catalog_messages(quaternary_message_list(3), &table).unwrap();
    assert_eq!(sorted.len(), 64);
    assert!(sorted.windows(2).all(|pair| pair[0].encoded <= pair[1].encoded));
    assert_ne!(sorted, expected);
    expected.sort_by_key(|e| (e.encoded, e.weight));
    let mut again = sorted.clone();
    again.sort_by_key(|e| (e.encoded, e.weight));
    assert_eq!(again, expected);
    assert_eq!(sorted[0], entry(512, 8));
    assert_eq!(sorted[63], entry(1, 5062));
    let total: u64 = sorted.iter().map(|e| e.weight).sum();
    assert_eq!(total, 15 * 15 * 15);
}

#[test]
fn sorting_and_merging_keep_every_line() {
    let list = vec![entry(1, 9), entry(2, 3), entry(3, 7), entry(4, 3), entry(5, 0)];
    let sorted = sort_catalog(list);
    assert_eq!(
        sorted.iter().map(|e| e.encoded).collect::<Vec<u64>>(),
        vec![0, 3, 3, 7, 9]
    );
    let mut weights: Vec<u64> = sorted.iter().map(|e| e.weight).collect();
    weights.sort();
    assert_eq!(weights, vec![1, 2, 3, 4, 5]);
    assert_eq!(sort_catalog(vec![]), vec![]);
    assert_eq!(sort_catalog(vec![entry(7, 7)]), vec![entry(7, 7)]);

    let first = vec![entry(1, 1), entry(2, 5), entry(3, 9)];
    let second = vec![entry(4, 2), entry(5, 5), entry(6, 6), entry(7, 20)];
    let merged = merge_catalogs(&first, &second);
    assert_eq!(
        merged,
        vec![
            entry(1, 1),
            entry(4, 2),
            entry(2, 5),
            entry(5, 5),
            entry(6, 6),
            entry(3, 9),
            entry(7, 20)
        ]
    );
    assert_eq!(merge_catalogs(&first, &vec![]), first);
    assert_eq!(merge_catalogs(&vec![], &second), second);
}

#[test]
fn work_is_shared_out_evenly() {
    assert_eq!(chunk_len(10, 8), 2);
    assert_eq!(chunk_len(16, 8), 2);
    assert_eq!(chunk_len(17, 8), 3);
    assert_eq!(chunk_len(0, 8), 0);
    assert_eq!(chunk_len(5, 1), 5);
    assert_eq!(partition_sizes(10, 8), vec![2, 2, 1, 1, 1, 1, 1, 1]);
    assert_eq!(partition_sizes(3, 8), vec![1, 1, 1]);
    assert_eq!(partition_sizes(0, 8), Vec::<usize>::new());
    assert_eq!(partition_sizes(1 << 20, 8), vec![131072; 8]);
    assert_eq!(partition_sizes(7, 1), vec![7]);
    assert_eq!(partition_sizes(20, 3), vec![7, 7, 6]);
}
