use psi::{
    construct_query, process_query_response, CiphertextSlots, ConfigError, EvalPolyDegree,
    HashTableSize, ItemLabel, PSParams, PsiParams, PsiPlaintext, Server, U256,
};
use rand::{thread_rng, Rng};

fn params(h: u8, ht_size: u32, ct_slots: u32, low: usize, total: usize, sources: Vec<usize>) -> PsiParams {
    PsiParams {
        no_of_hash_tables: h,
        ht_size: HashTableSize(ht_size),
        ct_slots: CiphertextSlots(ct_slots),
        eval_degree: EvalPolyDegree(total as u32),
        bfv_moduli: vec![50, 50, 45],
        hybrid_ksk_moduli: [50, 50, 45],
        bfv_degree: ct_slots as usize,
        bfv_plaintext: 65537,
        psi_pt: PsiPlaintext::new(256, 16, 65537),
        ps_params: PSParams::new(low, total),
        source_powers: sources,
    }
}

fn random_u256<R: Rng>(rng: &mut R) -> U256 {
    let mut bytes = [0u8; 32];
    rng.fill(&mut bytes);
    U256::from_le_bytes(bytes)
}

fn same(a: &U256, b: &U256) -> bool {
    a.to_le_bytes() == b.to_le_bytes()
}

#[test]
fn one_pair_is_found() {
    let mut server = Server::new(params(3, 8, 32, 2, 5, vec![1, 2])).unwrap();
    let item = U256::from_u128(0x01);
    let label = U256::from_u128(0xaa);
    server.setup(&[ItemLabel::new(item, label)]).unwrap();

    let client_params = params(3, 8, 32, 2, 5, vec![1, 2]);
    let state = construct_query(&[item], &client_params);
    assert!(state.hash_table_stack().is_empty());
    let response = server.query(state.query());
    let found = process_query_response(&client_params, state.hash_tables(), &response);

    assert_eq!(found.len(), 1);
    assert!(same(&found[0].item(), &item));
    assert!(found[0].labels().iter().any(|l| same(l, &label)));
}

#[test]
fn items_of_the_server_are_found_with_their_labels() {
    let mut rng = thread_rng();
    let mut server = Server::new(params(3, 64, 64, 3, 14, vec![1, 2, 5])).unwrap();
    let pairs: Vec<ItemLabel> =
        (0..100).map(|_| ItemLabel::new(random_u256(&mut rng), random_u256(&mut rng))).collect();
    server.setup(&pairs).unwrap();
    assert_eq!(server.db.db_size(), 100);

    let mut query_set: Vec<U256> = pairs[..10].iter().map(|il| *il.item()).collect();
    let fresh: Vec<U256> = (0..10).map(|_| random_u256(&mut rng)).collect();
    query_set.extend(fresh.iter().copied());

    let client_params = params(3, 64, 64, 3, 14, vec![1, 2, 5]);
    let state = construct_query(&query_set, &client_params);
    let response = server.query(state.query());
    let found = process_query_response(&client_params, state.hash_tables(), &response);

    let on_stack =
        |item: &U256| state.hash_table_stack().iter().any(|e| same(&e.0, item));
    assert_eq!(found.len() + state.hash_table_stack().len(), 20);
    for il in pairs[..10].iter() {
        if on_stack(il.item()) {
            continue;
        }
        let entry = found.iter().find(|f| same(&f.item(), il.item())).unwrap();
        assert!(entry.labels().iter().any(|l| same(l, il.label())));
    }
    // an item that the server does not hold gets an entry too: one candidate
    // from each inner box of its segment
    for item in fresh.iter() {
        if on_stack(item) {
            continue;
        }
        let entry = found.iter().find(|f| same(&f.item(), item)).unwrap();
        assert!(!entry.labels().is_empty());
    }
}

#[test]
fn duplicate_pairs_are_skipped_at_setup() {
    let mut server = Server::new(params(2, 8, 32, 2, 5, vec![1, 2])).unwrap();
    let item = U256::from_u128(0x01);
    let first = ItemLabel::new(item, U256::from_u128(0xaa));
    let second = ItemLabel::new(item, U256::from_u128(0xbb));
    server.setup(&[first, second]).unwrap();
    assert_eq!(server.db.db_size(), 1);

    let client_params = params(2, 8, 32, 2, 5, vec![1, 2]);
    let state = construct_query(&[item], &client_params);
    let response = server.query(state.query());
    let found = process_query_response(&client_params, state.hash_tables(), &response);
    assert_eq!(found.len(), 1);
    assert!(found[0].labels().iter().any(|l| same(l, &U256::from_u128(0xaa))));
    assert!(!found[0].labels().iter().any(|l| same(l, &U256::from_u128(0xbb))));
}

#[test]
fn server_needs_powers_that_reach_the_targets() {
    // the powers 1, 2 and 3 cannot be had from the power 2 alone
    let res = Server::new(params(2, 8, 32, 2, 5, vec![2]));
    assert_eq!(res.err(), Some(ConfigError::UnreachablePower));
    let server = Server::new(params(2, 8, 32, 2, 5, vec![1, 2])).unwrap();
    assert_eq!(server.psi_params().no_of_hash_tables, 2);
    assert_eq!(server.powers_dag.len(), 3);
}

#[test]
fn server_needs_parameters_that_fit() {
    // 30 slots do not divide into values of 16 slots
    let res = Server::new(params(2, 8, 30, 2, 5, vec![1, 2]));
    assert_eq!(res.err(), Some(ConfigError::InvalidParameters));
    // nine hash tables
    let res = Server::new(params(9, 8, 32, 2, 5, vec![1, 2]));
    assert_eq!(res.err(), Some(ConfigError::InvalidParameters));
    // the degree of the polynomials is not that of the evaluation
    let mut p = params(2, 8, 32, 2, 5, vec![1, 2]);
    p.eval_degree = EvalPolyDegree(6);
    assert!(!p.is_valid());
    assert_eq!(Server::new(p).err(), Some(ConfigError::InvalidParameters));
    // powers that are not those of the degrees
    let mut p = params(2, 8, 32, 2, 5, vec![1, 2]);
    p.ps_params.powers.push(4);
    assert_eq!(Server::new(p).err(), Some(ConfigError::InvalidParameters));
    // a chunk of 16 bits does not fit a plaintext modulus of 257
    let mut p = params(2, 8, 32, 2, 5, vec![1, 2]);
    p.psi_pt.bfv_pt = 257;
    p.bfv_plaintext = 257;
    assert_eq!(Server::new(p).err(), Some(ConfigError::InvalidParameters));
    assert!(params(2, 8, 32, 2, 5, vec![1, 2]).is_valid());
    assert!(PsiParams::default().is_valid());
}
