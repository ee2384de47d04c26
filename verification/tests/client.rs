use psi::{
    calculate_source_powers, chunks_to_value, construct_query, response_confirms, value_to_chunks,
    CiphertextSlots, HashTableEntry, HashTableQuery, HashTableSize, InnerBoxQuery, ItemLabel,
    PotentialResponseLabels, PsiParams, PsiPlaintext, U256,
};
use rand::{thread_rng, Rng};
use std::collections::HashMap;

#[test]
fn construct_query_works() {
    let mut rng = thread_rng();
    let psi_params = PsiParams::default();

    let query_set: Vec<U256> = (0..100).map(|_| U256::from_u128(rng.gen::<u128>())).collect();

    let state = construct_query(&query_set, &psi_params);
    // three hash tables, eight segments, six source powers, 8192 slots
    assert_eq!(state.query().len(), 3);
    for table in state.query().iter() {
        assert_eq!(table.len(), 8);
        for segment in table.iter() {
            assert_eq!(segment.len(), 6);
            for power in segment.iter() {
                assert_eq!(power.len(), 8192);
            }
        }
    }
    let placed: usize = state.hash_tables().iter().map(|t| t.len()).sum();
    assert_eq!(placed + state.hash_table_stack().len(), 100);
    // the first power of the query holds the chunks of the values
    for (b, table) in state.hash_tables().iter().enumerate() {
        for (row, entry) in table.iter() {
            let segment = (*row / 512) as usize;
            let lane = ((*row % 512) * 16) as usize;
            let chunks = value_to_chunks(&entry.0, 16, 2);
            assert_eq!(&state.query()[b][segment][0][lane..lane + 16], chunks.as_slice());
        }
    }
}

#[test]
fn source_powers_are_taken_in_ascending_order() {
    let out = calculate_source_powers(&[2, 3, 0, 65536], &[3, 1, 2], 65537);
    assert_eq!(
        out,
        vec![vec![2, 3, 0, 65536], vec![4, 9, 0, 1], vec![8, 27, 0, 65536]]
    );
    let out = calculate_source_powers(&[2, 3], &[4], 7);
    assert_eq!(out, vec![vec![2, 4]]);
    let out = calculate_source_powers(&[], &[1, 5], 7);
    assert_eq!(out, vec![Vec::<u32>::new(), Vec::<u32>::new()]);
}

#[test]
fn chunks_spell_the_value() {
    let mut bytes = [0u8; 32];
    for i in 0..32 {
        bytes[i] = i as u8 + 1;
    }
    let value = U256::from_le_bytes(bytes);
    let chunks = value_to_chunks(&value, 16, 2);
    assert_eq!(chunks.len(), 16);
    assert_eq!(chunks[0], 0x0201);
    assert_eq!(chunks[1], 0x0403);
    assert_eq!(chunks[15], 0x201f);
    let back = chunks_to_value(&chunks, 32, 2);
    assert_eq!(back.to_le_bytes(), bytes);
    let chunks = value_to_chunks(&value, 8, 4);
    assert_eq!(chunks[0], 0x04030201);
    assert_eq!(chunks_to_value(&chunks, 32, 4).to_le_bytes(), bytes);
    // fewer chunks than the value has: the upper bytes are zero
    let low = chunks_to_value(&[0xbeef, 0xdead], 4, 2);
    assert_eq!(low.to_le_bytes()[..5], [0xef, 0xbe, 0xad, 0xde, 0]);
}

#[test]
fn u256_of_a_small_number() {
    let v = U256::from_u128(0x0102);
    let bytes = v.to_le_bytes();
    assert_eq!(bytes[0], 2);
    assert_eq!(bytes[1], 1);
    assert!(bytes[2..].iter().all(|b| *b == 0));
    assert!(v.equals(&U256::from_le_bytes(bytes)));
    assert!(!v.equals(&U256::from_u128(0x0103)));
}

#[test]
fn query_vector_holds_the_chunks_at_the_slots_of_the_row() {
    let ct_slots = CiphertextSlots(64);
    let psi_pt = PsiPlaintext::new(256, 16, 65537);
    assert_eq!(InnerBoxQuery::max_rows(&ct_slots, &psi_pt), 4);
    let mut query = InnerBoxQuery::new(&ct_slots, &psi_pt);
    assert_eq!(query.data, vec![0; 64]);
    let mut bytes = [0u8; 32];
    for i in 0..32 {
        bytes[i] = 0x10 + i as u8;
    }
    let value = U256::from_le_bytes(bytes);
    let chunks = query.value_chunks(&value);
    query.insert_entry(2, &HashTableEntry(value, 0));
    assert_eq!(&query.data[32..48], chunks.as_slice());
    assert!(query.data[..32].iter().all(|v| *v == 0));
    assert!(query.data[48..].iter().all(|v| *v == 0));
}

#[test]
fn hash_table_query_asks_each_segment_for_its_rows() {
    let ht_size = HashTableSize(8);
    let ct_slots = CiphertextSlots(32);
    let psi_pt = PsiPlaintext::new(256, 16, 65537);
    assert_eq!(HashTableQuery::segments_count(&ht_size, &ct_slots, &psi_pt), 4);
    let mut query = HashTableQuery::new(&ht_size, &ct_slots, &psi_pt);
    assert_eq!(query.ib_queries.len(), 4);
    let mut table = HashMap::new();
    let a = U256::from_u128(0x0003_0002_0001);
    let b = U256::from_u128(0x0009_0008_0007);
    table.insert(5u32, HashTableEntry(a, 0));
    table.insert(6u32, HashTableEntry(b, 1));
    query.process_hash_table(&table);
    // row 5 is the second row of segment 2, row 6 the first row of segment 3
    assert_eq!(&query.ib_queries[2].data[16..20], &[1, 2, 3, 0]);
    assert!(query.ib_queries[2].data[..16].iter().all(|v| *v == 0));
    assert_eq!(&query.ib_queries[3].data[0..4], &[7, 8, 9, 0]);
    assert!(query.ib_queries[0].data.iter().all(|v| *v == 0));
    assert!(query.ib_queries[1].data.iter().all(|v| *v == 0));
    let powers = query.process_inner_box_queries_with_source_powers(&[1, 2], 65537);
    assert_eq!(powers.len(), 4);
    assert_eq!(powers[2].len(), 2);
    assert_eq!(&powers[2][0][16..20], &[1, 2, 3, 0]);
    assert_eq!(&powers[2][1][16..20], &[1, 4, 9, 0]);
    assert_eq!(&powers[3][1][0..4], &[49, 64, 81, 0]);
}

#[test]
fn labels_are_read_from_the_slots_of_the_row() {
    let psi_pt = PsiPlaintext::new(256, 16, 65537);
    let mut rng = thread_rng();
    let first: Vec<u32> = (0..32).map(|_| rng.gen::<u32>() % 65536).collect();
    let second: Vec<u32> = (0..32).map(|_| rng.gen::<u32>() % 65536).collect();
    let labels =
        InnerBoxQuery::process_segment_response_at_row(&psi_pt, 1, &vec![first.clone(), second.clone()]);
    assert_eq!(labels.len(), 2);
    assert_eq!(labels[0].to_le_bytes(), chunks_to_value(&first[16..32], 32, 2).to_le_bytes());
    assert_eq!(labels[1].to_le_bytes(), chunks_to_value(&second[16..32], 32, 2).to_le_bytes());
    let none = InnerBoxQuery::process_segment_response_at_row(&psi_pt, 1, &vec![]);
    assert!(none.is_empty());
}

#[test]
fn findings_confirm_the_pairs_that_were_asked_for() {
    let pair = |item: u128, label: u128| ItemLabel::new(U256::from_u128(item), U256::from_u128(label));
    let finding = |item: u128, labels: &[u128]| PotentialResponseLabels {
        item: U256::from_u128(item),
        labels: labels.iter().map(|l| U256::from_u128(*l)).collect(),
    };
    let pairs = vec![pair(1, 10), pair(2, 20), pair(3, 30)];
    let found = vec![finding(1, &[7, 10]), finding(2, &[20]), finding(3, &[8, 9])];
    // the label of item 3 is missing
    assert!(!response_confirms(&pairs, &[], &found));
    // unless item 3 went on the stack
    let stack = vec![HashTableEntry(U256::from_u128(3), 3)];
    assert!(response_confirms(&pairs, &stack, &found));
    assert!(response_confirms(&pairs[..2], &[], &found));
    // an item without a finding has nothing against it
    assert!(response_confirms(&[pair(4, 40)], &[], &found));
    assert!(response_confirms(&[], &[], &[]));
    // every finding for the item must hold the label
    let twice = vec![finding(1, &[10]), finding(1, &[11])];
    assert!(!response_confirms(&pairs[..1], &[], &twice));
}
