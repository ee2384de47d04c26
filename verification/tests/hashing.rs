use psi::{construct_hash_tables, indices_from_digest, Cuckoo, HashTableEntry, U256};
use rand::{thread_rng, Rng};

fn random_u256<R: Rng>(rng: &mut R) -> U256 {
    let mut bytes = [0u8; 32];
    rng.fill(&mut bytes);
    U256::from_le_bytes(bytes)
}

fn same(a: &U256, b: &U256) -> bool {
    a.to_le_bytes() == b.to_le_bytes()
}

#[test]
fn hash_data_works() {
    let mut rng = thread_rng();

    let no_of_hash_tables = 3;
    let table_size = 4096;

    let hasher = Cuckoo::new(no_of_hash_tables as u8, table_size);

    let mut queue = vec![];
    for _ in 0..3500 {
        let data = random_u256(&mut rng);
        queue.push(HashTableEntry(data, 0));
    }

    let (tables, stack) = construct_hash_tables(&queue, &hasher);
    assert_eq!(tables.len(), 3);
    let placed: usize = tables.iter().map(|t| t.len()).sum();
    assert_eq!(placed + stack.len(), 3500);
    // every entry sits at the row that its hash names for its table
    for (t, table) in tables.iter().enumerate() {
        for (row, entry) in table.iter() {
            let indices = hasher.table_indices(&entry.0);
            assert_eq!(indices[t], *row);
            assert!(*row < table_size);
        }
    }
}

#[test]
fn table_indices_come_from_the_digest() {
    let hasher = Cuckoo::new(3, 4096);
    assert_eq!(hasher.table_indices(&U256::from_le_bytes([0u8; 32])), vec![2150, 760, 3948]);
    assert_eq!(hasher.table_indices(&U256::from_u128(1)), vec![1, 3877, 811]);
    let small = Cuckoo::new(2, 8);
    assert_eq!(small.table_indices(&U256::from_u128(1)), vec![1, 5]);
}

#[test]
fn indices_are_the_words_of_the_digest() {
    let mut digest = vec![0u8; 32];
    digest[0] = 0x01;
    digest[1] = 0x02;
    digest[4] = 0xff;
    digest[5] = 0xff;
    digest[6] = 0xff;
    digest[7] = 0xff;
    digest[8] = 7;
    assert_eq!(indices_from_digest(&digest, 3, 4096), vec![0x201, 4095, 7]);
    assert_eq!(indices_from_digest(&digest, 2, 1000), vec![513, (u32::MAX % 1000)]);
}

#[test]
fn cuckoo_is_deterministic() {
    let mut rng = thread_rng();
    let hasher = Cuckoo::new(3, 64);
    let mut queue = vec![];
    for _ in 0..150 {
        queue.push(HashTableEntry(random_u256(&mut rng), 0));
    }
    let (tables_a, stack_a) = construct_hash_tables(&queue, &hasher);
    let (tables_b, stack_b) = construct_hash_tables(&queue, &hasher);
    assert_eq!(stack_a.len(), stack_b.len());
    for (a, b) in stack_a.iter().zip(stack_b.iter()) {
        assert!(same(&a.0, &b.0));
        assert_eq!(a.1, b.1);
    }
    for t in 0..3 {
        assert_eq!(tables_a[t].len(), tables_b[t].len());
        for (row, entry) in tables_a[t].iter() {
            let other = tables_b[t].get(row).unwrap();
            assert!(same(&entry.0, &other.0));
            assert_eq!(entry.1, other.1);
        }
    }
}

#[test]
fn every_value_is_placed_or_stacked() {
    let mut rng = thread_rng();
    let hasher = Cuckoo::new(2, 8);
    let mut queue = vec![];
    for _ in 0..40 {
        queue.push(HashTableEntry(random_u256(&mut rng), 0));
    }
    let (tables, stack) = construct_hash_tables(&queue, &hasher);
    // more values than rows: some are on the stack
    assert!(!stack.is_empty());
    for entry in queue.iter() {
        let in_tables = tables.iter().any(|t| t.values().any(|e| same(&e.0, &entry.0)));
        let on_stack = stack.iter().any(|e| same(&e.0, &entry.0));
        assert!(in_tables || on_stack);
    }
    for entry in stack.iter() {
        assert_eq!(entry.1, 2);
    }
}

#[test]
fn one_value_goes_to_its_first_table() {
    let hasher = Cuckoo::new(3, 4096);
    let queue = vec![HashTableEntry(U256::from_u128(1), 0)];
    let (tables, stack) = construct_hash_tables(&queue, &hasher);
    assert!(stack.is_empty());
    assert_eq!(tables[0].len(), 1);
    assert!(tables[0].contains_key(&1));
    assert!(tables[1].is_empty());
    assert!(tables[2].is_empty());
}
