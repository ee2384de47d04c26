//! The server's database: one big box per hash table, and the set of the items
//! entered, which keeps an item from entering twice.

use crate::big_box::{
    all_interpolable, big_box_response, big_box_with, big_box_with_all, empty_big_box, index_rows,
    query_shaped, BigBox,
};
use crate::dag::{dag_ordered, Node};
use crate::hash::{table_indices_of, Cuckoo};
use crate::inner_box::Entries;
use crate::item_set::ItemSet;
use crate::params::{Layout, PsiParams};
use crate::poly_interpolate::InterpError;
use crate::server::ItemLabel;
use crate::utils::{rows3, rows4};
use std::collections::HashMap;
use vstd::prelude::*;

verus! {

/// The database of the server.
pub struct Db {
    pub cuckoo: Cuckoo,
    pub big_boxes: Vec<BigBox>,
    pub item_set_cache: ItemSet,
    pub layout: Layout,
}

/// The pairs of the database, big box by big box.
pub open spec fn boxes_view(big_boxes: Seq<BigBox>) -> Seq<Seq<Seq<Entries>>> {
    Seq::new(big_boxes.len(), |b: int| big_boxes[b]@)
}

/// The rows, in every hash table, of the items of the pairs.
pub open spec fn rows_of_items(cuckoo: Cuckoo, item_labels: Seq<ItemLabel>) -> Seq<Seq<u32>> {
    Seq::new(item_labels.len(), |k: int| table_indices_of(cuckoo, item_labels[k].item@))
}

/// Big box `b` is well formed, of the given layout, and knows its number.
pub open spec fn boxes_wf(big_boxes: Seq<BigBox>, layout: Layout) -> bool {
    forall|b: int|
        0 <= b < big_boxes.len() ==> (#[trigger] big_boxes[b]).wf() && big_boxes[b].layout
            == layout && big_boxes[b].id == b
}

/// The row of a value in each hash table is a row of the table.
pub proof fn lemma_table_indices_in_range(cuckoo: Cuckoo, value: Seq<u8>, b: int)
    requires
        cuckoo.wf(),
        0 <= b < cuckoo.no_of_tables,
    ensures
        table_indices_of(cuckoo, value).len() == cuckoo.no_of_tables,
        table_indices_of(cuckoo, value)[b] < cuckoo.table_size,
{
    let word: int = crate::utils::le_value(crate::hash::sha256_digest(value), 4 * b, 4);
    crate::utils::lemma_le_value_bound(crate::hash::sha256_digest(value), 4 * b, 4);
    vstd::arithmetic::div_mod::lemma_mod_bound(word, cuckoo.table_size as int);
}

impl Db {
    /// The items entered so far by `insert`.
    pub open spec fn items(&self) -> Set<Seq<u8>> {
        self.item_set_cache@
    }

    /// The pairs stored, by big box, segment, inner box and logical row.
    pub open spec fn boxes(&self) -> Seq<Seq<Seq<Entries>>> {
        boxes_view(self.big_boxes@)
    }

    /// One well-formed big box per hash table, all of one layout; the hasher
    /// has the tables of the layout.
    pub open spec fn wf(&self) -> bool {
        &&& self.cuckoo.wf()
        &&& self.cuckoo.table_size == self.layout.ht_size
        &&& self.big_boxes@.len() == self.cuckoo.no_of_tables
        &&& boxes_wf(self.big_boxes@, self.layout)
        &&& self.item_set_cache.wf()
    }

    /// Every inner box holds the coefficients that its pairs determine.
    pub open spec fn interpolated(&self) -> bool {
        forall|b: int| 0 <= b < self.big_boxes@.len() ==> (#[trigger] self.big_boxes@[b]).interpolated()
    }

    /// An empty database for the given parameters.
    pub fn new(psi_params: &PsiParams) -> (db: Db)
        requires
            psi_params.wf(),
        ensures
            db.wf(),
            db.layout == psi_params.layout_spec(),
            db.cuckoo.no_of_tables == psi_params.no_of_hash_tables,
            db.items() == Set::<Seq<u8>>::empty(),
            db.boxes() == Seq::new(
                psi_params.no_of_hash_tables as nat,
                |b: int| empty_big_box(psi_params.layout_spec()),
            ),
    {
        let cuckoo: Cuckoo = Cuckoo::new(psi_params.no_of_hash_tables, psi_params.ht_size.0);
        let layout: Layout = psi_params.layout();
        let h: usize = psi_params.no_of_hash_tables as usize;
        let mut big_boxes: Vec<BigBox> = Vec::new();
        let mut i: usize = 0;
        while i < h
            invariant
                psi_params.wf(),
                layout == psi_params.layout_spec(),
                i <= h,
                big_boxes@.len() == i,
                boxes_wf(big_boxes@, layout),
                forall|b: int| 0 <= b < i ==> (#[trigger] big_boxes@[b])@ == empty_big_box(layout),
            decreases h - i,
        {
            big_boxes.push(BigBox::new(psi_params, i));
            i = i + 1;
        }
        assert(boxes_view(big_boxes@) =~= Seq::new(
            psi_params.no_of_hash_tables as nat,
            |b: int| empty_big_box(layout),
        ));
        Db { cuckoo, big_boxes, item_set_cache: ItemSet::new(), layout }
    }

    /// Enters the pair, unless its item has been entered before: the pair
    /// goes into every big box, at the row of the item in that hash table.
    ///
    /// Returns whether the pair was entered.
    pub fn insert(&mut self, item_label: &ItemLabel) -> (inserted: bool)
        requires
            old(self).wf(),
            old(self).items().len() < usize::MAX,
        ensures
            final(self).wf(),
            final(self).layout == old(self).layout,
            final(self).cuckoo == old(self).cuckoo,
            inserted == !old(self).items().contains(item_label.item@),
            !inserted ==> final(self).items() == old(self).items() && final(self).boxes() == old(
                self,
            ).boxes(),
            inserted ==> final(self).items() == old(self).items().insert(item_label.item@),
            inserted ==> final(self).boxes().len() == old(self).boxes().len() && forall|b: int|
                0 <= b < old(self).boxes().len() ==> #[trigger] final(self).boxes()[b]
                    == big_box_with(
                    old(self).boxes()[b],
                    old(self).layout,
                    *item_label,
                    table_indices_of(old(self).cuckoo, item_label.item@)[b] as int,
                ),
    {
        // an item is in the set once
        if self.item_set_cache.contains(item_label.item()) {
            return false;
        }
        let ghost pre: Db = *self;
        let ghost layout: Layout = self.layout;
        // the row of the item in each hash table
        let indices: Vec<u32> = self.cuckoo.table_indices(item_label.item());
        let h: usize = self.big_boxes.len();
        let mut b: usize = 0;
        while b < h
            invariant
                pre == *old(self),
                pre.wf(),
                layout == pre.layout,
                self.layout == layout,
                self.cuckoo == pre.cuckoo,
                self.item_set_cache == pre.item_set_cache,
                h == self.big_boxes@.len(),
                h == pre.big_boxes@.len(),
                b <= h,
                indices@ == table_indices_of(pre.cuckoo, item_label.item@),
                boxes_wf(self.big_boxes@, layout),
                forall|a: int|
                    0 <= a < b ==> (#[trigger] self.big_boxes@[a])@ == big_box_with(
                        pre.big_boxes@[a]@,
                        layout,
                        *item_label,
                        indices@[a] as int,
                    ),
                forall|a: int| b <= a < h ==> (#[trigger] self.big_boxes@[a])@ == pre.big_boxes@[a]@,
            decreases h - b,
        {
            proof {
                lemma_table_indices_in_range(pre.cuckoo, item_label.item@, b as int);
            }
            let ghost before = self.big_boxes@;
            let ht_index: usize = indices[b] as usize;
            self.big_boxes[b].insert(item_label, ht_index);
            proof {
                assert forall|a: int| 0 <= a < self.big_boxes@.len() implies (
                #[trigger] self.big_boxes@[a]).wf() && self.big_boxes@[a].layout == layout
                    && self.big_boxes@[a].id == a by {
                    if a != b {
                        assert(self.big_boxes@[a] == before[a]);
                    }
                    assert(before[a].wf());
                }
                assert forall|a: int| 0 <= a < b + 1 implies (#[trigger] self.big_boxes@[a])@
                    == big_box_with(pre.big_boxes@[a]@, layout, *item_label, indices@[a] as int) by {
                    if a != b {
                        assert(self.big_boxes@[a] == before[a]);
                    }
                }
                assert forall|a: int| b + 1 <= a < h implies (#[trigger] self.big_boxes@[a])@
                    == pre.big_boxes@[a]@ by {
                    assert(self.big_boxes@[a] == before[a]);
                }
            }
            b = b + 1;
        }
        self.item_set_cache.insert(*item_label.item());
        proof {
            assert(self.boxes().len() == pre.boxes().len());
            assert forall|a: int| 0 <= a < pre.boxes().len() implies #[trigger] self.boxes()[a]
                == big_box_with(
                pre.boxes()[a],
                layout,
                *item_label,
                table_indices_of(pre.cuckoo, item_label.item@)[a] as int,
            ) by {
                assert(self.big_boxes@[a]@ == big_box_with(
                    pre.big_boxes@[a]@,
                    layout,
                    *item_label,
                    indices@[a] as int,
                ));
            }
        }
        true
    }

    /// Enters all the pairs, without a look at the items entered before and
    /// without a record of theirs: each pair goes into every big box, at the
    /// row of its item in that hash table.
    pub fn insert_many(&mut self, item_labels: &[ItemLabel])
        requires
            old(self).wf(),
        ensures
            final(self).wf(),
            final(self).layout == old(self).layout,
            final(self).cuckoo == old(self).cuckoo,
            final(self).items() == old(self).items(),
            final(self).boxes().len() == old(self).boxes().len(),
            forall|b: int|
                0 <= b < old(self).boxes().len() ==> #[trigger] final(self).boxes()[b]
                    == big_box_with_all(
                    old(self).boxes()[b],
                    old(self).layout,
                    item_labels@,
                    rows_of_items(old(self).cuckoo, item_labels@),
                    b,
                    item_labels@.len() as int,
                ),
    {
        let ghost pre: Db = *self;
        let ghost layout: Layout = self.layout;
        let n: usize = item_labels.len();
        // the rows of every item
        let mut item_labels_table_indices: Vec<Vec<u32>> = Vec::new();
        let mut i: usize = 0;
        while i < n
            invariant
                pre == *self,
                pre.wf(),
                n == item_labels@.len(),
                i <= n,
                item_labels_table_indices@.len() == i,
                forall|k: int|
                    0 <= k < i ==> (#[trigger] item_labels_table_indices@[k])@ == table_indices_of(
                        pre.cuckoo,
                        item_labels@[k].item@,
                    ),
            decreases n - i,
        {
            item_labels_table_indices.push(self.cuckoo.table_indices(item_labels[i].item()));
            i = i + 1;
        }
        let ghost rows: Seq<Seq<u32>> = rows_of_items(pre.cuckoo, item_labels@);
        assert(index_rows(item_labels_table_indices@) =~= rows);
        let h: usize = self.big_boxes.len();
        let mut b: usize = 0;
        while b < h
            invariant
                pre == *old(self),
                pre.wf(),
                layout == pre.layout,
                self.layout == layout,
                self.cuckoo == pre.cuckoo,
                self.item_set_cache == pre.item_set_cache,
                h == self.big_boxes@.len(),
                h == pre.big_boxes@.len(),
                h == pre.cuckoo.no_of_tables,
                b <= h,
                rows == rows_of_items(pre.cuckoo, item_labels@),
                index_rows(item_labels_table_indices@) == rows,
                forall|a: int|
                    0 <= a < b ==> (#[trigger] self.big_boxes@[a])@ == big_box_with_all(
                        pre.big_boxes@[a]@,
                        layout,
                        item_labels@,
                        rows,
                        a,
                        n as int,
                    ),
                forall|a: int| b <= a < h ==> (#[trigger] self.big_boxes@[a])@ == pre.big_boxes@[a]@,
                n == item_labels@.len(),
                item_labels_table_indices@.len() == n,
                forall|k: int|
                    0 <= k < n ==> (#[trigger] item_labels_table_indices@[k])@ == table_indices_of(
                        pre.cuckoo,
                        item_labels@[k].item@,
                    ),
                boxes_wf(self.big_boxes@, layout),
            decreases h - b,
        {
            proof {
                assert forall|k: int| 0 <= k < n implies b < (
                #[trigger] item_labels_table_indices@[k])@.len()
                    && item_labels_table_indices@[k]@[b as int] < layout.ht_size by {
                    lemma_table_indices_in_range(pre.cuckoo, item_labels@[k].item@, b as int);
                }
            }
            let ghost before = self.big_boxes@;
            self.big_boxes[b].insert_many(item_labels, item_labels_table_indices.as_slice());
            proof {
                assert forall|a: int| 0 <= a < self.big_boxes@.len() implies (
                #[trigger] self.big_boxes@[a]).wf() && self.big_boxes@[a].layout == layout
                    && self.big_boxes@[a].id == a by {
                    if a != b {
                        assert(self.big_boxes@[a] == before[a]);
                    }
                    assert(before[a].wf());
                }
                assert forall|a: int| 0 <= a < b + 1 implies (#[trigger] self.big_boxes@[a])@
                    == big_box_with_all(pre.big_boxes@[a]@, layout, item_labels@, rows, a, n as int) by {
                    if a != b {
                        assert(self.big_boxes@[a] == before[a]);
                    } else {
                        assert(before[a]@ == pre.big_boxes@[a]@);
                    }
                }
                assert forall|a: int| b + 1 <= a < h implies (#[trigger] self.big_boxes@[a])@
                    == pre.big_boxes@[a]@ by {
                    assert(self.big_boxes@[a] == before[a]);
                }
            }
            b = b + 1;
        }
        proof {
            assert(self.boxes().len() == pre.boxes().len());
            assert forall|a: int| 0 <= a < pre.boxes().len() implies #[trigger] self.boxes()[a]
                == big_box_with_all(pre.boxes()[a], layout, item_labels@, rows, a, n as int) by {
                assert(self.big_boxes@[a]@ == big_box_with_all(
                    pre.big_boxes@[a]@,
                    layout,
                    item_labels@,
                    rows,
                    a,
                    n as int,
                ));
            }
        }
    }

    /// Preprocesses every big box.
    ///
    /// Fails where a box cannot be interpolated, which is never so with a
    /// prime plaintext modulus.
    pub fn preprocess(&mut self) -> (res: Result<(), InterpError>)
        requires
            old(self).wf(),
        ensures
            final(self).wf(),
            final(self).layout == old(self).layout,
            final(self).cuckoo == old(self).cuckoo,
            final(self).items() == old(self).items(),
            final(self).boxes() == old(self).boxes(),
            res is Ok <==> (forall|b: int|
                0 <= b < old(self).boxes().len() ==> all_interpolable(
                    #[trigger] old(self).boxes()[b],
                    old(self).layout,
                )),
            res is Ok ==> final(self).interpolated(),
    {
        let ghost pre: Db = *self;
        let ghost layout: Layout = self.layout;
        let h: usize = self.big_boxes.len();
        let mut b: usize = 0;
        while b < h
            invariant
                pre == *old(self),
                pre.wf(),
                layout == pre.layout,
                self.layout == layout,
                self.cuckoo == pre.cuckoo,
                self.item_set_cache == pre.item_set_cache,
                h == self.big_boxes@.len(),
                h == pre.big_boxes@.len(),
                b <= h,
                boxes_wf(self.big_boxes@, layout),
                forall|a: int| 0 <= a < h ==> (#[trigger] self.big_boxes@[a])@ == pre.big_boxes@[a]@,
                forall|a: int|
                    0 <= a < b ==> (#[trigger] self.big_boxes@[a]).interpolated()
                        && all_interpolable(pre.big_boxes@[a]@, layout),
            decreases h - b,
        {
            let ghost before = self.big_boxes@;
            let outcome: Result<(), InterpError> = self.big_boxes[b].preprocess();
            proof {
                assert forall|a: int| 0 <= a < self.big_boxes@.len() implies (
                #[trigger] self.big_boxes@[a]).wf() && self.big_boxes@[a].layout == layout
                    && self.big_boxes@[a].id == a && self.big_boxes@[a]@ == pre.big_boxes@[a]@ by {
                    if a != b {
                        assert(self.big_boxes@[a] == before[a]);
                    }
                    assert(before[a].wf());
                    assert(before[a]@ == pre.big_boxes@[a]@);
                }
                assert forall|a: int| 0 <= a < b implies (
                #[trigger] self.big_boxes@[a]).interpolated() && all_interpolable(
                    pre.big_boxes@[a]@,
                    layout,
                ) by {
                    assert(self.big_boxes@[a] == before[a]);
                }
                assert(self.boxes() =~= pre.boxes());
            }
            match outcome {
                Ok(_) => {
                    assert(before[b as int].layout == layout);
                    assert(before[b as int]@ == pre.big_boxes@[b as int]@);
                    assert(all_interpolable(pre.big_boxes@[b as int]@, layout));
                    assert(self.big_boxes@[b as int].interpolated());
                    assert forall|a: int| 0 <= a < b + 1 implies (
                    #[trigger] self.big_boxes@[a]).interpolated() && all_interpolable(
                        pre.big_boxes@[a]@,
                        layout,
                    ) by {
                        if a < b {
                            assert(self.big_boxes@[a] == before[a]);
                            assert(before[a].interpolated());
                        }
                    }
                },
                Err(e) => {
                    assert(!all_interpolable(pre.boxes()[b as int], layout));
                    return Err(e);
                },
            }
            b = b + 1;
        }
        proof {
            assert(self.boxes() =~= pre.boxes());
            assert forall|a: int| 0 <= a < pre.boxes().len() implies all_interpolable(
                #[trigger] pre.boxes()[a],
                layout,
            ) by {
                assert(self.big_boxes@[a].interpolated());
            }
        }
        Ok(())
    }

    /// Number of items entered by `insert`.
    pub fn db_size(&self) -> (n: usize)
        requires
            self.wf(),
        ensures
            n == self.items().len(),
    {
        self.item_set_cache.len()
    }
}

/// The response of the database: that of each big box to the query for its
/// hash table.
pub open spec fn db_response(
    big_boxes: Seq<BigBox>,
    query: Seq<Seq<Seq<Seq<u32>>>>,
    psi_params: PsiParams,
    dag: Map<usize, Node>,
) -> Seq<Seq<Seq<Seq<u32>>>> {
    Seq::new(
        big_boxes.len(),
        |b: int| big_box_response(big_boxes[b].inner_boxes@, query[b], psi_params, dag),
    )
}

/// The query has a part for each hash table, shaped as the big boxes ask.
pub open spec fn db_query_shaped(query: Seq<Vec<Vec<Vec<u32>>>>, psi_params: PsiParams) -> bool {
    &&& query.len() == psi_params.no_of_hash_tables
    &&& forall|b: int| 0 <= b < query.len() ==> query_shaped((#[trigger] query[b])@, psi_params)
}

impl Db {
    /// The response of the database to a query, on the plaintext slots: each
    /// big box answers the part of the query for its hash table.
    pub fn handle_query(
        &self,
        query: &Vec<Vec<Vec<Vec<u32>>>>,
        psi_params: &PsiParams,
        powers_dag: &HashMap<usize, Node>,
    ) -> (response: Vec<Vec<Vec<Vec<u32>>>>)
        requires
            self.wf(),
            self.interpolated(),
            psi_params.wf(),
            self.layout == psi_params.layout_spec(),
            self.cuckoo.no_of_tables == psi_params.no_of_hash_tables,
            db_query_shaped(query@, *psi_params),
            dag_ordered(
                powers_dag@,
                psi_params.source_powers@,
                psi_params.ps_params.powers@,
                psi_params.ps_params.powers@.len() as int,
            ),
        ensures
            rows4(response@) == db_response(
                self.big_boxes@,
                rows4(query@),
                *psi_params,
                powers_dag@,
            ),
    {
        let ghost expected = db_response(self.big_boxes@, rows4(query@), *psi_params, powers_dag@);
        let h: usize = self.big_boxes.len();
        let mut ht_responses: Vec<Vec<Vec<Vec<u32>>>> = Vec::new();
        let mut b: usize = 0;
        while b < h
            invariant
                self.wf(),
                self.interpolated(),
                psi_params.wf(),
                self.layout == psi_params.layout_spec(),
                db_query_shaped(query@, *psi_params),
                dag_ordered(
                    powers_dag@,
                    psi_params.source_powers@,
                    psi_params.ps_params.powers@,
                    psi_params.ps_params.powers@.len() as int,
                ),
                h == self.big_boxes@.len(),
                h == query@.len(),
                expected == db_response(self.big_boxes@, rows4(query@), *psi_params, powers_dag@),
                b <= h,
                ht_responses@.len() == b,
                forall|e: int| 0 <= e < b ==> rows3((#[trigger] ht_responses@[e])@) == expected[e],
            decreases h - b,
        {
            proof {
                assert(self.big_boxes@[b as int].wf());
                assert(self.big_boxes@[b as int].interpolated());
                assert(query_shaped(query@[b as int]@, *psi_params));
                assert(rows4(query@)[b as int] == rows3(query@[b as int]@));
            }
            let ht_response: Vec<Vec<Vec<u32>>> = self.big_boxes[b].process_query(
                &query[b],
                psi_params,
                powers_dag,
            );
            ht_responses.push(ht_response);
            b = b + 1;
        }
        proof {
            assert(rows4(ht_responses@) =~= expected);
        }
        ht_responses
    }
}

} // verus!
