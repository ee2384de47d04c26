use psi::{
    evaluate_poly, BigBox, CiphertextSlots, Db, EvalPolyDegree, HashTableSize, InnerBox,
    ItemLabel, PSParams, PsiParams, PsiPlaintext, U256,
};
use rand::{thread_rng, Rng};

fn params(h: u8, ht_size: u32, ct_slots: u32, psi_bits: u32, low: usize, total: usize) -> PsiParams {
    PsiParams {
        no_of_hash_tables: h,
        ht_size: HashTableSize(ht_size),
        ct_slots: CiphertextSlots(ct_slots),
        eval_degree: EvalPolyDegree(total as u32),
        bfv_moduli: vec![50, 50, 45],
        hybrid_ksk_moduli: [50, 50, 45],
        bfv_degree: ct_slots as usize,
        bfv_plaintext: 65537,
        psi_pt: PsiPlaintext::new(psi_bits, 16, 65537),
        ps_params: PSParams::new(low, total),
        source_powers: vec![1, 2],
    }
}

fn random_u256<R: Rng>(rng: &mut R) -> U256 {
    let mut bytes = [0u8; 32];
    rng.fill(&mut bytes);
    U256::from_le_bytes(bytes)
}

fn random_pair<R: Rng>(rng: &mut R) -> ItemLabel {
    ItemLabel::new(random_u256(rng), random_u256(rng))
}

#[test]
fn plaintext_sizes() {
    let pt = PsiPlaintext::new(256, 16, 65537);
    assert_eq!(pt.slots_required(), 16);
    assert_eq!(pt.bytes_per_chunk(), 2);
    assert_eq!(pt.chunk_bits(), 16);
    assert!(pt.is_valid());
    let pt = PsiPlaintext::new(128, 8, 257);
    assert_eq!(pt.slots_required(), 16);
    assert_eq!(pt.bytes_per_chunk(), 1);
    assert_eq!(EvalPolyDegree(1304).inner_box_columns(), 1305);
}

#[test]
fn default_parameters() {
    let p = PsiParams::default();
    assert_eq!(p.no_of_hash_tables, 3);
    assert_eq!(p.ht_size.0, 4096);
    assert_eq!(p.ct_slots.0, 8192);
    assert_eq!(p.eval_degree.0, 1304);
    assert_eq!(p.psi_pt.bfv_pt, 65537);
    assert_eq!(p.psi_pt.slots_required(), 16);
    assert_eq!(p.ps_params.low_degree(), 44);
    assert_eq!(p.source_powers, vec![1, 3, 11, 18, 45, 225]);
    assert_eq!(p.bfv_moduli, vec![50, 50, 45]);
    let layout = p.layout();
    assert_eq!(layout.inner_box_rows(), 512);
    assert_eq!(layout.segments_count(), 8);
    assert_eq!(layout.slots_per_value(), 16);
}

#[test]
fn segments_round_up() {
    // rows of two values: nine rows of the table take five segments
    let layout = params(1, 9, 32, 256, 2, 5).layout();
    assert_eq!(layout.inner_box_rows(), 2);
    assert_eq!(layout.segments_count(), 5);
    let layout = params(1, 8, 32, 256, 2, 5).layout();
    assert_eq!(layout.segments_count(), 4);
    let layout = params(1, 1, 32, 256, 2, 5).layout();
    assert_eq!(layout.segments_count(), 1);
}

#[test]
fn chunks_of_a_pair() {
    let pt = PsiPlaintext::new(256, 16, 65537);
    let mut item = [0u8; 32];
    let mut label = [0u8; 32];
    item[0] = 0x34;
    item[1] = 0x12;
    item[30] = 0xcd;
    item[31] = 0xab;
    label[2] = 0xff;
    label[3] = 0xff;
    let il = ItemLabel::new(U256::from_le_bytes(item), U256::from_le_bytes(label));
    assert_eq!(il.get_chunk_at_index(0, &pt), (0x1234, 0));
    assert_eq!(il.get_chunk_at_index(1, &pt), (0, 0xffff));
    assert_eq!(il.get_chunk_at_index(15, &pt), (0xabcd, 0));
}

#[test]
fn inner_box_refuses_a_chunk_that_its_slot_holds() {
    let p = params(1, 8, 32, 256, 2, 5);
    let mut ib = InnerBox::new(&p);
    let a = ItemLabel::new(U256::from_u128(0x0001_0002), U256::from_u128(7));
    // the same lowest chunk, another second chunk
    let b = ItemLabel::new(U256::from_u128(0x0005_0002), U256::from_u128(8));
    // all chunks differ from those of `a`
    let mut bytes = [1u8; 32];
    bytes[0] = 9;
    let c = ItemLabel::new(U256::from_le_bytes(bytes), U256::from_u128(9));
    assert!(ib.can_insert(&a, 0));
    ib.insert_item_label(0, &a);
    assert_eq!(ib.pairs_in_row(0), 1);
    assert_eq!(ib.pairs_in_row(1), 0);
    assert!(!ib.can_insert(&a, 0));
    assert!(!ib.can_insert(&b, 0));
    assert!(ib.can_insert(&c, 0));
    // another row has other slots
    assert!(ib.can_insert(&a, 1));
    assert!(ib.can_insert(&b, 1));
}

#[test]
fn inner_box_row_fills_up() {
    // polynomials of degree two: three pairs to a row
    let p = params(1, 8, 32, 256, 1, 2);
    let mut ib = InnerBox::new(&p);
    let mut rng = thread_rng();
    let mut entered = 0;
    while entered < 3 {
        let il = random_pair(&mut rng);
        if ib.can_insert(&il, 1) {
            ib.insert_item_label(1, &il);
            entered += 1;
        }
    }
    assert_eq!(ib.pairs_in_row(1), 3);
    for _ in 0..20 {
        assert!(!ib.can_insert(&random_pair(&mut rng), 1));
    }
}

#[test]
fn coefficients_map_item_chunks_to_label_chunks() {
    let p = params(1, 8, 32, 256, 2, 5);
    let mut ib = InnerBox::new(&p);
    let mut rng = thread_rng();
    let mut pairs = vec![];
    while pairs.len() < 4 {
        let il = random_pair(&mut rng);
        if ib.can_insert(&il, 1) {
            ib.insert_item_label(1, &il);
            pairs.push(il);
        }
    }
    ib.generate_coefficients().unwrap();
    for k in 0..16u32 {
        let lane = (16 + k) as usize;
        let row = ib.coefficients(lane);
        assert_eq!(row.len(), 6);
        // four pairs: a polynomial of degree three
        assert_eq!(row[4], 0);
        assert_eq!(row[5], 0);
        for il in pairs.iter() {
            let (x, y) = il.get_chunk_at_index(k, &p.psi_pt);
            assert_eq!(evaluate_poly(x, &row, 65537), y);
        }
    }
    // the empty row has the zero polynomial
    for lane in 0..16 {
        assert_eq!(ib.coefficients(lane), vec![0; 6]);
    }
    // the columns hold the coefficients of one degree
    for degree in 0..6 {
        let column = ib.coefficient_column(degree);
        assert_eq!(column.len(), 32);
        for lane in 0..32 {
            assert_eq!(column[lane], ib.coefficients(lane)[degree]);
        }
    }
}

#[test]
fn preprocessing_twice_gives_the_same_coefficients() {
    let p = params(1, 8, 32, 256, 2, 5);
    let mut ib = InnerBox::new(&p);
    let mut rng = thread_rng();
    for row in 0..2 {
        let mut entered = 0;
        while entered < 5 {
            let il = random_pair(&mut rng);
            if ib.can_insert(&il, row) {
                ib.insert_item_label(row, &il);
                entered += 1;
            }
        }
    }
    ib.generate_coefficients().unwrap();
    let first: Vec<Vec<u32>> = (0..32).map(|lane| ib.coefficients(lane)).collect();
    ib.generate_coefficients().unwrap();
    let second: Vec<Vec<u32>> = (0..32).map(|lane| ib.coefficients(lane)).collect();
    assert_eq!(first, second);
}

#[test]
fn bench_parallel_inner_box_gen_ceofficients() {
    let psi_params = params(3, 64, 64, 256, 5, 40);
    let mut inner_box = InnerBox::new(&psi_params);
    let mut rng = thread_rng();
    let rows = InnerBox::max_rows(&psi_params.layout());
    assert_eq!(rows, 4);
    for i in 0..rows {
        while inner_box.pairs_in_row(i as usize) < 41 {
            let item_label = random_pair(&mut rng);
            if inner_box.can_insert(&item_label, i as usize) {
                inner_box.insert_item_label(i as usize, &item_label);
            }
        }
    }
    inner_box.generate_coefficients().unwrap();
}

#[test]
fn big_box_maps_rows_to_segments() {
    let p = params(1, 8, 32, 256, 2, 5);
    let bb = BigBox::new(&p, 0);
    assert_eq!(bb.segments_count(), 4);
    assert_eq!(bb.ht_index_to_segment_index(0), 0);
    assert_eq!(bb.ht_index_to_segment_index(1), 0);
    assert_eq!(bb.ht_index_to_segment_index(5), 2);
    assert_eq!(bb.ht_index_to_segment_index(7), 3);
    assert_eq!(bb.ht_index_to_inner_box_row(0), 0);
    assert_eq!(bb.ht_index_to_inner_box_row(5), 1);
    assert_eq!(bb.ht_index_to_inner_box_row(6), 0);
    for g in 0..4 {
        assert_eq!(bb.inner_boxes_in_segment(g), 1);
    }
}

#[test]
fn big_box_opens_a_box_when_none_has_room() {
    // three pairs to a row
    let p = params(1, 8, 32, 256, 1, 2);
    let mut bb = BigBox::new(&p, 0);
    let mut rng = thread_rng();
    for _ in 0..7 {
        bb.insert(&random_pair(&mut rng), 5);
    }
    // seven pairs at one row take at least three boxes of segment 2
    assert!(bb.inner_boxes_in_segment(2) >= 3);
    assert_eq!(bb.inner_boxes_in_segment(0), 1);
    assert_eq!(bb.inner_boxes_in_segment(1), 1);
    assert_eq!(bb.inner_boxes_in_segment(3), 1);
    let a = ItemLabel::new(U256::from_u128(1), U256::from_u128(2));
    assert_eq!(bb.find_box(0, &a, 0), 0);
    bb.insert(&a, 0);
    // the same item again collides with itself in the first box
    assert_eq!(bb.find_box(0, &a, 0), 1);
    bb.insert(&a, 0);
    assert_eq!(bb.inner_boxes_in_segment(0), 2);
    bb.preprocess().unwrap();
}

#[test]
fn duplicate_insert_is_rejected() {
    let p = params(3, 8, 32, 256, 2, 5);
    let mut db = Db::new(&p);
    assert_eq!(db.db_size(), 0);
    let item = U256::from_u128(0x01);
    assert!(db.insert(&ItemLabel::new(item, U256::from_u128(0xaa))));
    assert_eq!(db.db_size(), 1);
    assert!(!db.insert(&ItemLabel::new(item, U256::from_u128(0xbb))));
    assert_eq!(db.db_size(), 1);
    assert!(db.insert(&ItemLabel::new(U256::from_u128(0x02), U256::from_u128(0xaa))));
    assert_eq!(db.db_size(), 2);
}

#[test]
fn insert_many_keeps_no_record() {
    let p = params(2, 8, 32, 256, 2, 5);
    let mut db = Db::new(&p);
    let mut rng = thread_rng();
    let pairs: Vec<ItemLabel> = (0..10).map(|_| random_pair(&mut rng)).collect();
    db.insert_many(&pairs);
    assert_eq!(db.db_size(), 0);
    db.preprocess().unwrap();
}

#[test]
fn db_works() {
    let p = PsiParams {
        no_of_hash_tables: 1,
        ht_size: HashTableSize(4096),
        ct_slots: CiphertextSlots(4096),
        eval_degree: EvalPolyDegree(10),
        bfv_moduli: vec![50, 50, 45],
        hybrid_ksk_moduli: [50, 50, 45],
        bfv_degree: 4096,
        bfv_plaintext: 65537,
        psi_pt: PsiPlaintext::new(16, 16, 65537),
        ps_params: PSParams::new(2, 10),
        source_powers: vec![1, 2],
    };
    assert_eq!(p.psi_pt.slots_required(), 1);
    let mut db = Db::new(&p);

    let mut rng = thread_rng();
    while db.db_size() != 1000 {
        let item: u128 = rng.gen();
        let label: u128 = rng.gen();
        db.insert(&ItemLabel::new(U256::from_u128(item), U256::from_u128(label)));
    }

    db.preprocess().unwrap();
}
