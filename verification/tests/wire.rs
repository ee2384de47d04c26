use psi::{
    deserialize_query, deserialize_query_response, expected_query_bytes, serialize_query,
    serialize_query_response, CiphertextSlots, EvalPolyDegree, HashTableQueryCts,
    HashTableQueryResponse, HashTableSize, ItemLabel, PSParams, PsiParams, PsiPlaintext, Query,
    QueryResponse, SerializedQueryResponse, WireError, U256,
};
use rand::{thread_rng, Rng};

// two hash tables of eight rows, four segments, two source powers
fn small_params() -> PsiParams {
    PsiParams {
        no_of_hash_tables: 2,
        ht_size: HashTableSize(8),
        ct_slots: CiphertextSlots(32),
        eval_degree: EvalPolyDegree(5),
        bfv_moduli: vec![50, 50, 45],
        hybrid_ksk_moduli: [50, 50, 45],
        bfv_degree: 32,
        bfv_plaintext: 65537,
        psi_pt: PsiPlaintext::new(256, 16, 65537),
        ps_params: PSParams::new(2, 5),
        source_powers: vec![1, 2],
    }
}

fn random_blob(size: usize) -> Vec<u8> {
    let mut rng = thread_rng();
    (0..size).map(|_| rng.gen()).collect()
}

fn random_query(size: usize) -> Query {
    // per hash table: four segments by two source powers
    Query((0..2).map(|_| HashTableQueryCts((0..8).map(|_| random_blob(size)).collect())).collect())
}

fn random_response(size: usize) -> QueryResponse {
    let mut rng = thread_rng();
    QueryResponse(
        (0..2)
            .map(|_| {
                HashTableQueryResponse(
                    (0..4)
                        .map(|_| {
                            let boxes = rng.gen_range(0..4);
                            (0..boxes).map(|_| random_blob(size)).collect()
                        })
                        .collect(),
                )
            })
            .collect(),
    )
}

#[test]
fn query_round_trip() {
    let params = small_params();
    let query = random_query(7);
    let bytes = serialize_query(&query);
    assert_eq!(bytes.len(), 2 * 4 * 2 * 7);
    assert_eq!(expected_query_bytes(7, &params), Some(112));
    let back = deserialize_query(&bytes, 7, &params).unwrap();
    assert_eq!(back.0.len(), 2);
    for b in 0..2 {
        assert_eq!(back.0[b].0, query.0[b].0);
    }
}

#[test]
fn query_bytes_are_the_ciphertexts_in_order() {
    let query = Query(vec![
        HashTableQueryCts(vec![vec![1, 2], vec![3, 4]]),
        HashTableQueryCts(vec![vec![5, 6], vec![7, 8]]),
    ]);
    assert_eq!(serialize_query(&query), vec![1, 2, 3, 4, 5, 6, 7, 8]);
}

#[test]
fn truncated_query_is_short() {
    let params = small_params();
    let query = random_query(7);
    let mut bytes = serialize_query(&query);
    bytes.pop();
    assert_eq!(deserialize_query(&bytes, 7, &params).err(), Some(WireError::Short));
    assert_eq!(deserialize_query(&[], 7, &params).err(), Some(WireError::Short));
}

#[test]
fn overlong_query_is_malformed() {
    let params = small_params();
    let query = random_query(7);
    let mut bytes = serialize_query(&query);
    bytes.push(0);
    assert_eq!(deserialize_query(&bytes, 7, &params).err(), Some(WireError::Malformed));
}

#[test]
fn query_length_beyond_the_machine_is_short() {
    let params = small_params();
    assert_eq!(expected_query_bytes(usize::MAX, &params), None);
    assert_eq!(deserialize_query(&[1, 2, 3], usize::MAX, &params).err(), Some(WireError::Short));
}

#[test]
fn response_round_trip() {
    let params = small_params();
    let response = random_response(5);
    let serialized = serialize_query_response(&response);
    let boxes: usize = response.0.iter().map(|t| t.0.iter().map(|s| s.len()).sum::<usize>()).sum();
    assert_eq!(serialized.bytes.len(), boxes * 5);
    assert_eq!(serialized.inner_boxes_per_segment.len(), 8);
    let back = deserialize_query_response(&serialized, 5, &params).unwrap();
    assert_eq!(back.0.len(), 2);
    for b in 0..2 {
        assert_eq!(back.0[b].0, response.0[b].0);
    }
}

#[test]
fn response_record_lists_the_boxes_of_each_segment() {
    let response = QueryResponse(vec![
        HashTableQueryResponse(vec![vec![vec![1, 2]], vec![], vec![vec![3, 4], vec![5, 6]]]),
        HashTableQueryResponse(vec![vec![], vec![vec![7, 8]], vec![]]),
    ]);
    let serialized = serialize_query_response(&response);
    assert_eq!(serialized.bytes, vec![1, 2, 3, 4, 5, 6, 7, 8]);
    assert_eq!(serialized.inner_boxes_per_segment, vec![1, 0, 2, 0, 1, 0]);
}

#[test]
fn truncated_response_is_short() {
    let params = small_params();
    let serialized = SerializedQueryResponse {
        bytes: vec![0; 5 * 9 - 1],
        inner_boxes_per_segment: vec![1, 1, 1, 1, 1, 1, 1, 2],
    };
    assert_eq!(
        deserialize_query_response(&serialized, 5, &params).err(),
        Some(WireError::Short)
    );
    let serialized = SerializedQueryResponse {
        bytes: vec![0; 8],
        inner_boxes_per_segment: vec![usize::MAX, 1, 1, 1, 1, 1, 1, 2],
    };
    assert_eq!(
        deserialize_query_response(&serialized, 5, &params).err(),
        Some(WireError::Short)
    );
}

#[test]
fn inconsistent_response_is_malformed() {
    let params = small_params();
    // more bytes than the counts tell
    let serialized = SerializedQueryResponse {
        bytes: vec![0; 5 * 9 + 1],
        inner_boxes_per_segment: vec![1, 1, 1, 1, 1, 1, 1, 2],
    };
    assert_eq!(
        deserialize_query_response(&serialized, 5, &params).err(),
        Some(WireError::Malformed)
    );
    // counts for seven segments
    let serialized = SerializedQueryResponse {
        bytes: vec![0; 5 * 7],
        inner_boxes_per_segment: vec![1, 1, 1, 1, 1, 1, 1],
    };
    assert_eq!(
        deserialize_query_response(&serialized, 5, &params).err(),
        Some(WireError::Malformed)
    );
}

#[test]
fn serialise_and_deserialise_item_label() {
    let mut rng = thread_rng();
    let mut item = [0u8; 32];
    let mut label = [0u8; 32];
    rng.fill(&mut item);
    rng.fill(&mut label);

    let item_label = ItemLabel::new(U256::from_le_bytes(item), U256::from_le_bytes(label));

    let bytes = item_label.to_bytes();
    assert_eq!(bytes.len(), 64);
    assert_eq!(&bytes[..32], &item);
    assert_eq!(&bytes[32..], &label);
    let item_label_back = ItemLabel::from_bytes(&bytes).unwrap();

    assert_eq!(item_label.item().to_le_bytes(), item_label_back.item().to_le_bytes());
    assert_eq!(item_label.label().to_le_bytes(), item_label_back.label().to_le_bytes());
}

#[test]
fn item_label_of_another_length_is_refused() {
    assert!(ItemLabel::from_bytes(&[0u8; 63]).is_none());
    assert!(ItemLabel::from_bytes(&[0u8; 65]).is_none());
    assert!(ItemLabel::from_bytes(&[]).is_none());
}
