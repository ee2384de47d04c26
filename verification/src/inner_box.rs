//! Inner boxes: the storage of one range of hash indices. The slots of a box
//! hold the chunks of its pairs column by column, so that each slot carries
//! the data points of one polynomial.

use crate::matrix::{has_shape, Matrix};
use crate::params::{lemma_layout_rows, Layout, PsiParams};
use crate::field::{is_prime, lemma_prime_unit_iff};
use crate::poly_interpolate::{
    lemma_eval_zero_padded, lemma_newton_coefficients_interpolate, newton_coefficients,
    newton_interpolate, pairwise_units, poly_eval, InterpError,
};
use crate::server::{lemma_slots_fit, EvalPolyDegree, ItemLabel};
use crate::utils::{ints_of, le_value, lemma_le_value_bound, lemma_pow256_values};
use crate::paterson_stockmeyer::{powers_present, ps_evaluate_poly, ps_values, PSParams};
use crate::powers::state_view;
use std::collections::{HashMap, HashSet};
use vstd::arithmetic::div_mod::{
    lemma_fundamental_div_mod, lemma_fundamental_div_mod_converse, lemma_mod_bound,
};
use vstd::prelude::*;

verus! {

/// A logical row of an inner box. It spans `span` slots, one for each chunk
/// of a value, and holds up to `max_cols` values, one per column.
#[derive(Clone, Copy, Debug)]
pub struct InnerBoxRow {
    pub span: u32,
    pub max_cols: u32,
    pub curr_cols: u32,
}

impl InnerBoxRow {
    pub fn new(span: u32, eval_degree: &EvalPolyDegree) -> (row: InnerBoxRow)
        requires
            eval_degree.0 < u32::MAX,
        ensures
            row.span == span,
            row.max_cols == eval_degree.0 + 1,
            row.curr_cols == 0,
    {
        InnerBoxRow { span, max_cols: eval_degree.inner_box_columns(), curr_cols: 0 }
    }

    /// A row has as many columns as an interpolated polynomial has
    /// coefficients.
    pub fn max_cols(&self) -> (n: u32)
        ensures
            n == self.max_cols,
    {
        self.max_cols
    }

    /// Whether a column of the row is still empty.
    pub fn is_free(&self) -> (b: bool)
        ensures
            b == (self.curr_cols < self.max_cols),
    {
        self.curr_cols < self.max_cols
    }

    /// The index of the first empty column: the number of columns taken.
    pub fn next_free_col_index(&self) -> (index: usize)
        ensures
            index == self.curr_cols,
    {
        self.curr_cols as usize
    }

    /// The first slot of logical row `row`.
    pub fn map_to_real_row(&self, row: usize) -> (slot: usize)
        requires
            self.span * row <= usize::MAX,
        ensures
            slot == self.span * row,
    {
        self.span as usize * row
    }
}

/// The pairs of a box: for each logical row, its pairs in the order of their
/// columns.
pub type Entries = Seq<Seq<ItemLabel>>;

/// Chunk `k` of a value: its bytes `k * b .. (k + 1) * b`, lowest first.
pub open spec fn chunk_of(value: Seq<u8>, k: int, layout: Layout) -> int {
    le_value(value, k * layout.psi_pt.bfv_pt_bytes, layout.psi_pt.bfv_pt_bytes as int)
}

/// The key under which the chunk `chunk` of slot `lane` is remembered.
pub open spec fn collision_key(lane: int, chunk: int) -> u64 {
    (lane * 0x1_0000_0000 + chunk) as u64
}

/// The item chunk at slot `lane`, column `c`: slot `lane` belongs to the
/// logical row `lane / s` and holds chunk `lane % s` of its values.
pub open spec fn item_cell(entries: Entries, layout: Layout, lane: int, c: int) -> int {
    let row = entries[lane / layout.slots()];
    if 0 <= c < row.len() {
        chunk_of(row[c].item@, lane % layout.slots(), layout)
    } else {
        0
    }
}

/// The label chunk at slot `lane`, column `c`.
pub open spec fn label_cell(entries: Entries, layout: Layout, lane: int, c: int) -> int {
    let row = entries[lane / layout.slots()];
    if 0 <= c < row.len() {
        chunk_of(row[c].label@, lane % layout.slots(), layout)
    } else {
        0
    }
}

/// Slot `lane` holds the item chunk `chunk` in one of its columns.
pub open spec fn occupied(entries: Entries, layout: Layout, lane: int, chunk: int) -> bool {
    0 <= lane < layout.ct_slots && exists|c: int|
        0 <= c < entries[lane / layout.slots()].len() && #[trigger] item_cell(
            entries,
            layout,
            lane,
            c,
        ) == chunk
}

/// No slot holds the same item chunk in two columns.
pub open spec fn lanes_distinct(entries: Entries, layout: Layout) -> bool {
    forall|lane: int, c1: int, c2: int|
        0 <= lane < layout.ct_slots && 0 <= c1 < c2 < entries[lane / layout.slots()].len()
            ==> #[trigger] item_cell(entries, layout, lane, c1) != #[trigger] item_cell(
            entries,
            layout,
            lane,
            c2,
        )
}

/// The logical rows count the pairs entered.
pub open spec fn rows_match(rows: Seq<InnerBoxRow>, entries: Entries, layout: Layout) -> bool {
    &&& rows.len() == layout.rows()
    &&& entries.len() == layout.rows()
    &&& forall|r: int|
        0 <= r < layout.rows() ==> {
            let row = #[trigger] rows[r];
            &&& row.span == layout.slots()
            &&& row.max_cols == layout.columns
            &&& row.curr_cols <= row.max_cols
            &&& entries[r].len() == row.curr_cols
        }
}

/// The array holds the item chunks of the pairs, and zero elsewhere.
pub open spec fn items_match(data: Seq<Seq<u32>>, entries: Entries, layout: Layout) -> bool {
    &&& has_shape(data, layout.ct_slots as int, layout.columns as int)
    &&& forall|lane: int, c: int|
        0 <= lane < layout.ct_slots && 0 <= c < layout.columns ==> (#[trigger] data[lane][c])
            as int == item_cell(entries, layout, lane, c)
}

/// The array holds the label chunks of the pairs, and zero elsewhere.
pub open spec fn labels_match(data: Seq<Seq<u32>>, entries: Entries, layout: Layout) -> bool {
    &&& has_shape(data, layout.ct_slots as int, layout.columns as int)
    &&& forall|lane: int, c: int|
        0 <= lane < layout.ct_slots && 0 <= c < layout.columns ==> (#[trigger] data[lane][c])
            as int == label_cell(entries, layout, lane, c)
}

/// The set remembers exactly the item chunks that the slots hold.
pub open spec fn set_matches(set: Set<u64>, entries: Entries, layout: Layout) -> bool {
    forall|key: u64| #[trigger]
        set.contains(key) <==> occupied(
            entries,
            layout,
            key as int / 0x1_0000_0000,
            key as int % 0x1_0000_0000,
        )
}

/// The item chunks that slot `lane` holds, in the order of their columns.
pub open spec fn items_of_lane(entries: Entries, layout: Layout, lane: int) -> Seq<int> {
    Seq::new(entries[lane / layout.slots()].len(), |c: int| item_cell(entries, layout, lane, c))
}

/// The label chunks that slot `lane` holds, in the order of their columns.
pub open spec fn labels_of_lane(entries: Entries, layout: Layout, lane: int) -> Seq<int> {
    Seq::new(entries[lane / layout.slots()].len(), |c: int| label_cell(entries, layout, lane, c))
}

/// In every slot the item chunks differ pairwise by units modulo the plaintext
/// modulus, so that a polynomial through them can be had.
pub open spec fn interpolable(entries: Entries, layout: Layout) -> bool {
    forall|lane: int|
        0 <= lane < layout.ct_slots ==> pairwise_units(
            #[trigger] items_of_lane(entries, layout, lane),
            layout.psi_pt.bfv_pt as int,
        )
}

/// The coefficient of degree `c` of the polynomial of slot `lane`: the one
/// that maps the item chunks of the slot to its label chunks.
pub open spec fn coefficient_cell(entries: Entries, layout: Layout, lane: int, c: int) -> int {
    if 0 <= c < entries[lane / layout.slots()].len() {
        newton_coefficients(
            items_of_lane(entries, layout, lane),
            labels_of_lane(entries, layout, lane),
            layout.psi_pt.bfv_pt as int,
        )[c]
    } else {
        0
    }
}

/// The array holds the coefficients of the polynomial of each slot, lowest
/// degree first, and zero elsewhere.
pub open spec fn coefficients_match(data: Seq<Seq<u32>>, entries: Entries, layout: Layout) -> bool {
    &&& has_shape(data, layout.ct_slots as int, layout.columns as int)
    &&& forall|lane: int, c: int|
        0 <= lane < layout.ct_slots && 0 <= c < layout.columns ==> (#[trigger] data[lane][c])
            as int == coefficient_cell(entries, layout, lane, c)
}

/// The storage of one range of hash indices.
pub struct InnerBox {
    pub coefficients_data: Matrix,
    pub item_data: Matrix,
    pub label_data: Matrix,
    pub ht_rows: Vec<InnerBoxRow>,
    /// Set once a pair has entered.
    pub initialised: bool,
    pub item_data_hash_set: HashSet<u64>,
    pub layout: Layout,
    /// The pairs of each logical row, in the order of their columns.
    pub entries: Ghost<Entries>,
}

impl InnerBox {
    /// The arrays have one row per slot and one column per pair of a logical
    /// row; they hold the chunks of the pairs entered, and zero elsewhere; the
    /// set remembers the item chunks of every slot; no slot holds an item
    /// chunk twice.
    pub open spec fn wf(&self) -> bool {
        &&& self.layout.wf()
        &&& rows_match(self.ht_rows@, self.entries@, self.layout)
        &&& items_match(self.item_data@, self.entries@, self.layout)
        &&& labels_match(self.label_data@, self.entries@, self.layout)
        &&& set_matches(self.item_data_hash_set@, self.entries@, self.layout)
        &&& lanes_distinct(self.entries@, self.layout)
    }

    /// The pair can enter logical row `row`: the row has an empty column, and
    /// none of the chunks of the item is held already by the slot that it
    /// would enter.
    pub open spec fn can_insert_spec(&self, item_label: ItemLabel, row: int) -> bool {
        &&& self.entries@[row].len() < self.layout.columns
        &&& forall|k: int|
            0 <= k < self.layout.slots() ==> !occupied(
                self.entries@,
                self.layout,
                row * self.layout.slots() + k,
                #[trigger] chunk_of(item_label.item@, k, self.layout),
            )
    }

    /// The coefficients are those that the pairs of the box determine.
    pub open spec fn interpolated(&self) -> bool {
        coefficients_match(self.coefficients_data@, self.entries@, self.layout)
    }
}

/// Slot `row * s + k` is chunk `k` of logical row `row`.
pub proof fn lemma_lane_of(row: int, k: int, s: int)
    requires
        0 <= k < s,
        0 <= row,
    ensures
        (row * s + k) / s == row,
        (row * s + k) % s == k,
{
    assert(row * s == s * row) by (nonlinear_arith);
    lemma_fundamental_div_mod_converse(row * s + k, s, row, k);
}

/// A slot lies in its logical row.
pub proof fn lemma_lane_split(lane: int, s: int, rows: int)
    requires
        s > 0,
        0 <= lane < rows * s,
    ensures
        0 <= lane / s < rows,
        0 <= lane % s < s,
        lane == (lane / s) * s + lane % s,
{
    lemma_fundamental_div_mod(lane, s);
    lemma_mod_bound(lane, s);
    assert(s * (lane / s) == (lane / s) * s) by (nonlinear_arith);
    assert(0 <= lane / s < rows) by (nonlinear_arith)
        requires
            lane == s * (lane / s) + lane % s,
            0 <= lane % s < s,
            0 <= lane < rows * s,
            s > 0,
    ;
}

/// A chunk is below the plaintext modulus, and below `2^32`.
pub proof fn lemma_chunk_bound(value: Seq<u8>, k: int, layout: Layout)
    requires
        layout.wf(),
    ensures
        0 <= chunk_of(value, k, layout) < layout.psi_pt.bfv_pt,
        chunk_of(value, k, layout) < 0x1_0000_0000,
{
    lemma_le_value_bound(
        value,
        k * layout.psi_pt.bfv_pt_bytes,
        layout.psi_pt.bfv_pt_bytes as int,
    );
}

/// The pairs of a box after `il` has entered logical row `row`.
pub open spec fn entered(entries: Entries, row: int, il: ItemLabel) -> Entries {
    entries.update(row, entries[row].push(il))
}

/// The cells of a box after a pair has entered logical row `row`.
pub proof fn lemma_cells_after_insert(
    entries: Entries,
    layout: Layout,
    row: int,
    il: ItemLabel,
    lane: int,
    c: int,
)
    requires
        layout.wf(),
        entries.len() == layout.rows(),
        0 <= row < layout.rows(),
        0 <= lane < layout.ct_slots,
    ensures
        item_cell(entered(entries, row, il), layout, lane, c) == (if lane / layout.slots() == row
            && c == entries[row].len() {
            chunk_of(il.item@, lane % layout.slots(), layout)
        } else {
            item_cell(entries, layout, lane, c)
        }),
        label_cell(entered(entries, row, il), layout, lane, c) == (if lane / layout.slots() == row
            && c == entries[row].len() {
            chunk_of(il.label@, lane % layout.slots(), layout)
        } else {
            label_cell(entries, layout, lane, c)
        }),
{
    lemma_layout_rows(layout);
    lemma_lane_split(lane, layout.slots(), layout.rows());
}

/// The occupancy of a box after a pair has entered logical row `row`: what
/// was held is held, and the slots of the row hold the chunks of the item.
pub proof fn lemma_occupied_after_insert(
    entries: Entries,
    layout: Layout,
    row: int,
    il: ItemLabel,
    lane: int,
    chunk: int,
)
    requires
        layout.wf(),
        entries.len() == layout.rows(),
        0 <= row < layout.rows(),
        0 <= lane < layout.ct_slots,
    ensures
        occupied(entered(entries, row, il), layout, lane, chunk) <==> occupied(
            entries,
            layout,
            lane,
            chunk,
        ) || (lane / layout.slots() == row && chunk == chunk_of(
            il.item@,
            lane % layout.slots(),
            layout,
        )),
{
    let s: int = layout.slots();
    let post = entered(entries, row, il);
    let old_len: int = entries[row].len() as int;
    lemma_layout_rows(layout);
    lemma_lane_split(lane, s, layout.rows());
    if occupied(post, layout, lane, chunk) {
        let c = choose|c: int|
            0 <= c < post[lane / s].len() && #[trigger] item_cell(post, layout, lane, c) == chunk;
        lemma_cells_after_insert(entries, layout, row, il, lane, c);
        if lane / s == row && c == old_len {
        } else {
            assert(item_cell(entries, layout, lane, c) == chunk);
        }
    }
    if occupied(entries, layout, lane, chunk) {
        let c = choose|c: int|
            0 <= c < entries[lane / s].len() && #[trigger] item_cell(entries, layout, lane, c)
                == chunk;
        lemma_cells_after_insert(entries, layout, row, il, lane, c);
        assert(item_cell(post, layout, lane, c) == chunk);
    }
    if lane / s == row && chunk == chunk_of(il.item@, lane % s, layout) {
        lemma_cells_after_insert(entries, layout, row, il, lane, old_len);
        assert(item_cell(post, layout, lane, old_len) == chunk);
    }
}

/// A pair that could enter leaves no slot with an item chunk held twice.
pub proof fn lemma_distinct_after_insert(pre: InnerBox, row: int, il: ItemLabel)
    requires
        pre.wf(),
        0 <= row < pre.layout.rows(),
        pre.can_insert_spec(il, row),
    ensures
        lanes_distinct(entered(pre.entries@, row, il), pre.layout),
{
    let entries = pre.entries@;
    let layout = pre.layout;
    let post = entered(entries, row, il);
    let s: int = layout.slots();
    let old_len: int = entries[row].len() as int;
    lemma_layout_rows(layout);
    assert forall|lane: int, c1: int, c2: int|
        0 <= lane < layout.ct_slots && 0 <= c1 < c2 < post[lane / s].len() implies #[trigger] item_cell(
        post,
        layout,
        lane,
        c1,
    ) != #[trigger] item_cell(post, layout, lane, c2) by {
        lemma_lane_split(lane, s, layout.rows());
        lemma_cells_after_insert(entries, layout, row, il, lane, c1);
        lemma_cells_after_insert(entries, layout, row, il, lane, c2);
        if lane / s == row && c2 == old_len {
            let k: int = lane % s;
            assert(row * s + k == lane);
            assert(!occupied(entries, layout, row * s + k, chunk_of(il.item@, k, layout)));
            assert(item_cell(entries, layout, lane, c1) != chunk_of(il.item@, k, layout));
        } else {
            assert(item_cell(entries, layout, lane, c1) != item_cell(entries, layout, lane, c2));
        }
    }
}

impl InnerBox {
    /// An empty box for the layout of `psi_params`. A value takes `s` slots,
    /// so the box has as many logical rows as its slots divided by `s`.
    pub fn new(psi_params: &PsiParams) -> (ib: InnerBox)
        requires
            psi_params.eval_degree.0 < u32::MAX,
            psi_params.layout_spec().wf(),
        ensures
            ib.wf(),
            ib.layout == psi_params.layout_spec(),
            ib.entries@ == Seq::new(
                psi_params.layout_spec().rows() as nat,
                |r: int| Seq::<ItemLabel>::empty(),
            ),
    {
        InnerBox::with_layout(psi_params.layout())
    }

    /// An empty box of the given layout.
    pub fn with_layout(layout: Layout) -> (ib: InnerBox)
        requires
            layout.wf(),
        ensures
            ib.wf(),
            ib.layout == layout,
            ib.entries@ == Seq::new(layout.rows() as nat, |r: int| Seq::<ItemLabel>::empty()),
    {
        let slots_per_entry: u32 = layout.slots_per_value();
        let row_count: u32 = layout.inner_box_rows();
        proof {
            lemma_layout_rows(layout);
        }
        let mut ht_rows: Vec<InnerBoxRow> = Vec::new();
        let mut r: u32 = 0;
        while r < row_count
            invariant
                r <= row_count,
                ht_rows@.len() == r,
                forall|j: int|
                    0 <= j < r ==> (#[trigger] ht_rows@[j]) == (InnerBoxRow {
                        span: slots_per_entry,
                        max_cols: layout.columns,
                        curr_cols: 0,
                    }),
            decreases row_count - r,
        {
            ht_rows.push(InnerBoxRow { span: slots_per_entry, max_cols: layout.columns, curr_cols: 0 });
            r = r + 1;
        }
        let lanes: usize = layout.ct_slots as usize;
        let columns: usize = layout.columns as usize;
        assert(lanes <= lanes * columns && columns <= lanes * columns) by (nonlinear_arith)
            requires
                lanes >= 1,
                columns >= 1,
        ;
        let label_data: Matrix = Matrix::zeros(lanes, columns);
        let item_data: Matrix = Matrix::zeros(lanes, columns);
        let ghost entries: Entries = Seq::new(row_count as nat, |r: int| Seq::<ItemLabel>::empty());
        let ib: InnerBox = InnerBox {
            coefficients_data: Matrix::zeros(0, 0),
            item_data,
            label_data,
            ht_rows,
            initialised: false,
            item_data_hash_set: HashSet::new(),
            layout,
            entries: Ghost(entries),
        };
        proof {
            assert forall|lane: int| 0 <= lane < layout.ct_slots implies #[trigger] entries[lane
                / layout.slots()].len() == 0 by {
                lemma_lane_split(lane, layout.slots(), layout.rows());
            }
            assert(lanes_distinct(entries, layout));
            assert(set_matches(ib.item_data_hash_set@, entries, layout)) by {
                assert forall|key: u64| #[trigger]
                    ib.item_data_hash_set@.contains(key) <==> occupied(
                        entries,
                        layout,
                        key as int / 0x1_0000_0000,
                        key as int % 0x1_0000_0000,
                    ) by {
                    let lane: int = key as int / 0x1_0000_0000;
                    if 0 <= lane < layout.ct_slots {
                        assert(entries[lane / layout.slots()].len() == 0);
                    }
                }
            }
            assert(items_match(ib.item_data@, entries, layout));
            assert(labels_match(ib.label_data@, entries, layout));
            assert(rows_match(ib.ht_rows@, entries, layout));
        }
        ib
    }

    /// Number of logical rows of a box.
    pub fn max_rows(layout: &Layout) -> (rows: u32)
        requires
            layout.wf(),
        ensures
            rows == layout.rows(),
    {
        layout.inner_box_rows()
    }

    /// Whether the pair can enter logical row `row`: the row must have an
    /// empty column, and no chunk of the item may be held already by the slot
    /// that it would enter.
    pub fn can_insert(&self, item_label: &ItemLabel, row: usize) -> (b: bool)
        requires
            self.wf(),
            row < self.layout.rows(),
        ensures
            b == self.can_insert_spec(*item_label, row as int),
    {
        broadcast use vstd::std_specs::hash::group_hash_axioms;

        if !self.ht_rows[row].is_free() {
            return false;
        }
        let slots: u32 = self.layout.slots_per_value();
        let ghost s: int = self.layout.slots();
        proof {
            lemma_layout_rows(self.layout);
            lemma_slots_fit(self.layout.psi_pt);
            assert(row * s + s <= self.layout.rows() * s) by (nonlinear_arith)
                requires
                    row < self.layout.rows(),
                    s >= 1,
            ;
        }
        let real_row: u64 = row as u64 * slots as u64;
        let mut k: u32 = 0;
        while k < slots
            invariant
                self.wf(),
                s == self.layout.slots(),
                slots == s,
                1 <= s <= 32,
                s * self.layout.psi_pt.bfv_pt_bytes <= 32,
                real_row == row * s,
                real_row + s <= self.layout.ct_slots,
                k <= slots,
                forall|j: int|
                    0 <= j < k ==> !occupied(
                        self.entries@,
                        self.layout,
                        row * s + j,
                        #[trigger] chunk_of(item_label.item@, j, self.layout),
                    ),
            decreases slots - k,
        {
            assert((k + 1) * self.layout.psi_pt.bfv_pt_bytes <= s
                * self.layout.psi_pt.bfv_pt_bytes) by (nonlinear_arith)
                requires
                    k < s,
            ;
            let chunks: (u32, u32) = item_label.get_chunk_at_index(k, &self.layout.psi_pt);
            let lane: u64 = real_row + k as u64;
            let key: u64 = lane * 0x1_0000_0000 + chunks.0 as u64;
            proof {
                lemma_fundamental_div_mod_converse(
                    key as int,
                    0x1_0000_0000,
                    lane as int,
                    chunks.0 as int,
                );
            }
            if self.item_data_hash_set.contains(&key) {
                assert(occupied(
                    self.entries@,
                    self.layout,
                    row * s + k,
                    chunk_of(item_label.item@, k as int, self.layout),
                ));
                return false;
            }
            k = k + 1;
        }
        true
    }
}

impl InnerBox {
    /// Enters the pair into the first empty column of logical row `row`:
    /// chunk `k` of the item and of the label go to slot `row * s + k`, and the
    /// set remembers the item chunk of each of these slots.
    pub fn insert_item_label(&mut self, row: usize, item_label: &ItemLabel)
        requires
            old(self).wf(),
            row < old(self).layout.rows(),
            old(self).can_insert_spec(*item_label, row as int),
        ensures
            final(self).wf(),
            final(self).layout == old(self).layout,
            final(self).entries@ == entered(old(self).entries@, row as int, *item_label),
            final(self).coefficients_data@ == old(self).coefficients_data@,
    {
        broadcast use vstd::std_specs::hash::group_hash_axioms;

        let ghost pre: InnerBox = *self;
        let ghost layout: Layout = self.layout;
        let ghost entries: Entries = self.entries@;
        let ghost s: int = self.layout.slots();
        let ghost item: Seq<u8> = item_label.item@;
        let ghost label: Seq<u8> = item_label.label@;
        // the next free column of the logical row
        let col: usize = self.ht_rows[row].next_free_col_index();
        let slots: u32 = self.layout.slots_per_value();
        proof {
            lemma_layout_rows(layout);
            lemma_slots_fit(layout.psi_pt);
            assert(row * s + s <= layout.rows() * s) by (nonlinear_arith)
                requires
                    row < layout.rows(),
                    s >= 1,
            ;
        }
        let real_row: usize = row * slots as usize;
        let mut k: u32 = 0;
        while k < slots
            invariant
                pre.wf(),
                layout == pre.layout,
                entries == pre.entries@,
                self.layout == layout,
                self.ht_rows@ == pre.ht_rows@,
                self.entries@ == entries,
                self.coefficients_data@ == pre.coefficients_data@,
                s == layout.slots(),
                slots == s,
                1 <= s <= 32,
                s * layout.psi_pt.bfv_pt_bytes <= 32,
                row < layout.rows(),
                real_row == row * s,
                real_row + s <= layout.ct_slots,
                col == entries[row as int].len(),
                col < layout.columns,
                item == item_label.item@,
                label == item_label.label@,
                k <= slots,
                has_shape(self.item_data@, layout.ct_slots as int, layout.columns as int),
                has_shape(self.label_data@, layout.ct_slots as int, layout.columns as int),
                forall|lane: int, c: int|
                    0 <= lane < layout.ct_slots && 0 <= c < layout.columns ==> (
                    #[trigger] self.item_data@[lane][c]) as int == (if real_row <= lane < real_row
                        + k && c == col {
                        chunk_of(item, lane - real_row, layout)
                    } else {
                        item_cell(entries, layout, lane, c)
                    }),
                forall|lane: int, c: int|
                    0 <= lane < layout.ct_slots && 0 <= c < layout.columns ==> (
                    #[trigger] self.label_data@[lane][c]) as int == (if real_row <= lane < real_row
                        + k && c == col {
                        chunk_of(label, lane - real_row, layout)
                    } else {
                        label_cell(entries, layout, lane, c)
                    }),
                forall|key: u64| #[trigger]
                    self.item_data_hash_set@.contains(key) <==> pre.item_data_hash_set@.contains(
                        key,
                    ) || exists|j: int|
                        0 <= j < k && key == #[trigger] collision_key(
                            real_row + j,
                            chunk_of(item, j, layout),
                        ),
            decreases slots - k,
        {
            assert((k + 1) * layout.psi_pt.bfv_pt_bytes <= s * layout.psi_pt.bfv_pt_bytes)
                by (nonlinear_arith)
                requires
                    k < s,
            ;
            let chunks: (u32, u32) = item_label.get_chunk_at_index(k, &self.layout.psi_pt);
            let lane: usize = real_row + k as usize;
            let ghost items_before = self.item_data@;
            let ghost labels_before = self.label_data@;
            let ghost set_before = self.item_data_hash_set@;
            // the chunks of the item and of the label
            self.item_data.set(lane, col, chunks.0);
            self.label_data.set(lane, col, chunks.1);
            // remember the item chunk of the slot, to find collisions later
            let key: u64 = lane as u64 * 0x1_0000_0000 + chunks.0 as u64;
            self.item_data_hash_set.insert(key);
            proof {
                assert(key == collision_key(real_row + k, chunk_of(item, k as int, layout)));
                assert forall|l2: int, c: int|
                    0 <= l2 < layout.ct_slots && 0 <= c < layout.columns implies (
                #[trigger] self.item_data@[l2][c]) as int == (if real_row <= l2 < real_row + k + 1
                    && c == col {
                    chunk_of(item, l2 - real_row, layout)
                } else {
                    item_cell(entries, layout, l2, c)
                }) by {
                    assert(items_before[l2][c] as int == (if real_row <= l2 < real_row + k && c
                        == col {
                        chunk_of(item, l2 - real_row, layout)
                    } else {
                        item_cell(entries, layout, l2, c)
                    }));
                }
                assert forall|l2: int, c: int|
                    0 <= l2 < layout.ct_slots && 0 <= c < layout.columns implies (
                #[trigger] self.label_data@[l2][c]) as int == (if real_row <= l2 < real_row + k + 1
                    && c == col {
                    chunk_of(label, l2 - real_row, layout)
                } else {
                    label_cell(entries, layout, l2, c)
                }) by {
                    assert(labels_before[l2][c] as int == (if real_row <= l2 < real_row + k && c
                        == col {
                        chunk_of(label, l2 - real_row, layout)
                    } else {
                        label_cell(entries, layout, l2, c)
                    }));
                }
                assert forall|key2: u64| #[trigger]
                    self.item_data_hash_set@.contains(key2) <==> pre.item_data_hash_set@.contains(
                        key2,
                    ) || exists|j: int|
                        0 <= j < k + 1 && key2 == #[trigger] collision_key(
                            real_row + j,
                            chunk_of(item, j, layout),
                        ) by {
                    assert(set_before.contains(key2) <==> pre.item_data_hash_set@.contains(key2)
                        || exists|j: int|
                        0 <= j < k && key2 == #[trigger] collision_key(
                            real_row + j,
                            chunk_of(item, j, layout),
                        ));
                    if key2 == key {
                        assert(key2 == collision_key(real_row + k, chunk_of(item, k as int, layout)));
                    }
                    if exists|j: int|
                        0 <= j < k + 1 && key2 == #[trigger] collision_key(
                            real_row + j,
                            chunk_of(item, j, layout),
                        ) {
                        let j = choose|j: int|
                            0 <= j < k + 1 && key2 == #[trigger] collision_key(
                                real_row + j,
                                chunk_of(item, j, layout),
                            );
                        if j < k {
                            assert(set_before.contains(key2));
                        }
                    }
                }
            }
            k = k + 1;
        }
        // one more column of the row is taken
        let line: InnerBoxRow = self.ht_rows[row];
        self.ht_rows.set(
            row,
            InnerBoxRow { span: line.span, max_cols: line.max_cols, curr_cols: line.curr_cols + 1 },
        );
        self.initialised = true;
        let ghost post: Entries = entered(entries, row as int, *item_label);
        self.entries = Ghost(post);
        proof {
            let n: int = layout.ct_slots as int;
            lemma_layout_rows(layout);
            assert(rows_match(self.ht_rows@, post, layout)) by {
                assert forall|r: int| 0 <= r < layout.rows() implies {
                    let row2 = #[trigger] self.ht_rows@[r];
                    &&& row2.span == layout.slots()
                    &&& row2.max_cols == layout.columns
                    &&& row2.curr_cols <= row2.max_cols
                    &&& post[r].len() == row2.curr_cols
                } by {
                    assert(pre.ht_rows@[r].span == layout.slots());
                }
            }
            assert(items_match(self.item_data@, post, layout)) by {
                assert forall|lane: int, c: int| 0 <= lane < n && 0 <= c < layout.columns implies (
                #[trigger] self.item_data@[lane][c]) as int == item_cell(post, layout, lane, c) by {
                    lemma_cells_after_insert(entries, layout, row as int, *item_label, lane, c);
                    lemma_lane_split(lane, s, layout.rows());
                    if real_row <= lane < real_row + s {
                        lemma_lane_of(row as int, lane - real_row, s);
                    }
                }
            }
            assert(labels_match(self.label_data@, post, layout)) by {
                assert forall|lane: int, c: int| 0 <= lane < n && 0 <= c < layout.columns implies (
                #[trigger] self.label_data@[lane][c]) as int == label_cell(post, layout, lane, c) by {
                    lemma_cells_after_insert(entries, layout, row as int, *item_label, lane, c);
                    lemma_lane_split(lane, s, layout.rows());
                    if real_row <= lane < real_row + s {
                        lemma_lane_of(row as int, lane - real_row, s);
                    }
                }
            }
            assert(set_matches(self.item_data_hash_set@, post, layout)) by {
                assert forall|key: u64| #[trigger]
                    self.item_data_hash_set@.contains(key) <==> occupied(
                        post,
                        layout,
                        key as int / 0x1_0000_0000,
                        key as int % 0x1_0000_0000,
                    ) by {
                    let lane: int = key as int / 0x1_0000_0000;
                    let chunk: int = key as int % 0x1_0000_0000;
                    lemma_fundamental_div_mod(key as int, 0x1_0000_0000);
                    assert(pre.item_data_hash_set@.contains(key) <==> occupied(
                        entries,
                        layout,
                        lane,
                        chunk,
                    ));
                    if 0 <= lane < n {
                        lemma_occupied_after_insert(
                            entries,
                            layout,
                            row as int,
                            *item_label,
                            lane,
                            chunk,
                        );
                        lemma_lane_split(lane, s, layout.rows());
                    }
                    if exists|j: int|
                        0 <= j < s && key == #[trigger] collision_key(
                            real_row + j,
                            chunk_of(item, j, layout),
                        ) {
                        let j = choose|j: int|
                            0 <= j < s && key == #[trigger] collision_key(
                                real_row + j,
                                chunk_of(item, j, layout),
                            );
                        lemma_chunk_bound(item, j, layout);
                        lemma_fundamental_div_mod_converse(
                            key as int,
                            0x1_0000_0000,
                            real_row + j,
                            chunk_of(item, j, layout),
                        );
                        lemma_lane_of(row as int, j, s);
                    }
                    if 0 <= lane < n && lane / s == row && chunk == chunk_of(
                        item,
                        lane % s,
                        layout,
                    ) {
                        let j: int = lane % s;
                        assert(lane == real_row + j);
                        assert(key == collision_key(real_row + j, chunk_of(item, j, layout)));
                    }
                }
            }
            lemma_distinct_after_insert(pre, row as int, *item_label);
        }
    }
}

impl InnerBox {
    /// Interpolates, for every slot, the polynomial that maps the item chunks
    /// of the slot to its label chunks, and stores its coefficients, lowest
    /// degree first.
    ///
    /// Fails where a slot holds item chunks that do not differ by units: of a
    /// well-formed box with a prime plaintext modulus this is never so.
    pub fn generate_coefficients(&mut self) -> (res: Result<(), InterpError>)
        requires
            old(self).wf(),
        ensures
            final(self).wf(),
            final(self).layout == old(self).layout,
            final(self).entries@ == old(self).entries@,
            res is Ok <==> interpolable(old(self).entries@, old(self).layout),
            res is Ok ==> final(self).interpolated(),
    {
        let ghost pre: InnerBox = *self;
        let ghost layout: Layout = self.layout;
        let ghost entries: Entries = self.entries@;
        let lanes: usize = self.layout.ct_slots as usize;
        let columns: usize = self.layout.columns as usize;
        let slots: usize = self.layout.slots_per_value() as usize;
        let q: u32 = self.layout.psi_pt.bfv_pt;
        let ghost s: int = layout.slots();
        let ghost qi: int = q as int;
        proof {
            lemma_layout_rows(layout);
            lemma_pow256_values();
            assert(lanes <= lanes * columns && columns <= lanes * columns) by (nonlinear_arith)
                requires
                    lanes >= 1,
                    columns >= 1,
            ;
        }
        self.coefficients_data = Matrix::zeros(lanes, columns);
        let mut i: usize = 0;
        while i < lanes
            invariant
                pre.wf(),
                layout == pre.layout,
                entries == pre.entries@,
                layout == old(self).layout,
                entries == old(self).entries@,
                self.layout == layout,
                self.entries@ == entries,
                self.ht_rows@ == pre.ht_rows@,
                self.item_data@ == pre.item_data@,
                self.label_data@ == pre.label_data@,
                self.item_data_hash_set@ == pre.item_data_hash_set@,
                lanes == layout.ct_slots,
                columns == layout.columns,
                slots == s,
                s == layout.slots(),
                s >= 1,
                layout.rows() * s == lanes,
                q == layout.psi_pt.bfv_pt,
                qi == q as int,
                q > 0,
                i <= lanes,
                has_shape(self.coefficients_data@, lanes as int, columns as int),
                forall|lane: int, c: int|
                    0 <= lane < i && 0 <= c < columns ==> (
                    #[trigger] self.coefficients_data@[lane][c]) as int == coefficient_cell(
                        entries,
                        layout,
                        lane,
                        c,
                    ),
                forall|lane: int, c: int|
                    i <= lane < lanes && 0 <= c < columns
                        ==> #[trigger] self.coefficients_data@[lane][c] == 0,
                forall|lane: int|
                    0 <= lane < i ==> pairwise_units(
                        #[trigger] items_of_lane(entries, layout, lane),
                        qi,
                    ),
            decreases lanes - i,
        {
            // the logical row of the slot, and the columns that it has taken
            let ibr_index: usize = i / slots;
            proof {
                lemma_lane_split(i as int, s, layout.rows());
            }
            let cols_occupied: usize = self.ht_rows[ibr_index].curr_cols as usize;
            let items: Vec<u32> = self.item_data.row(i);
            let labels: Vec<u32> = self.label_data.row(i);
            let x: &[u32] = vstd::slice::slice_subrange(items.as_slice(), 0, cols_occupied);
            let y: &[u32] = vstd::slice::slice_subrange(labels.as_slice(), 0, cols_occupied);
            proof {
                assert(ints_of(x@) =~= items_of_lane(entries, layout, i as int)) by {
                    assert forall|c: int| 0 <= c < cols_occupied implies ints_of(x@)[c]
                        == items_of_lane(entries, layout, i as int)[c] by {
                        assert(pre.item_data@[i as int][c] as int == item_cell(
                            entries,
                            layout,
                            i as int,
                            c,
                        ));
                    }
                }
                assert(ints_of(y@) =~= labels_of_lane(entries, layout, i as int)) by {
                    assert forall|c: int| 0 <= c < cols_occupied implies ints_of(y@)[c]
                        == labels_of_lane(entries, layout, i as int)[c] by {
                        assert(pre.label_data@[i as int][c] as int == label_cell(
                            entries,
                            layout,
                            i as int,
                            c,
                        ));
                    }
                }
            }
            let coefficients: Vec<u32> = match newton_interpolate(x, y, q) {
                Ok(c) => c,
                Err(e) => {
                    assert(!interpolable(entries, layout));
                    return Err(e);
                },
            };
            let mut k: usize = 0;
            while k < cols_occupied
                invariant
                    self.layout == layout,
                    self.entries@ == entries,
                    self.ht_rows@ == pre.ht_rows@,
                    self.item_data@ == pre.item_data@,
                    self.label_data@ == pre.label_data@,
                    self.item_data_hash_set@ == pre.item_data_hash_set@,
                    lanes == layout.ct_slots,
                    columns == layout.columns,
                    i < lanes,
                    k <= cols_occupied,
                    cols_occupied <= columns,
                    coefficients@.len() == cols_occupied,
                    has_shape(self.coefficients_data@, lanes as int, columns as int),
                    forall|lane: int, c: int|
                        0 <= lane < i && 0 <= c < columns ==> (
                        #[trigger] self.coefficients_data@[lane][c]) as int == coefficient_cell(
                            entries,
                            layout,
                            lane,
                            c,
                        ),
                    forall|lane: int, c: int|
                        i < lane < lanes && 0 <= c < columns
                            ==> #[trigger] self.coefficients_data@[lane][c] == 0,
                    forall|c: int|
                        0 <= c < k ==> #[trigger] self.coefficients_data@[i as int][c]
                            == coefficients@[c],
                    forall|c: int|
                        k <= c < columns ==> #[trigger] self.coefficients_data@[i as int][c] == 0,
                decreases cols_occupied - k,
            {
                let ghost before = self.coefficients_data@;
                self.coefficients_data.set(i, k, coefficients[k]);
                proof {
                    assert forall|lane: int, c: int|
                        0 <= lane < i && 0 <= c < columns implies (
                    #[trigger] self.coefficients_data@[lane][c]) as int == coefficient_cell(
                        entries,
                        layout,
                        lane,
                        c,
                    ) by {
                        assert(before[lane][c] as int == coefficient_cell(entries, layout, lane, c));
                    }
                    assert forall|lane: int, c: int|
                        i < lane < lanes && 0 <= c < columns implies #[trigger] self.coefficients_data@[lane][c]
                        == 0 by {
                        assert(before[lane][c] == 0);
                    }
                    assert forall|c: int| 0 <= c < k + 1 implies #[trigger] self.coefficients_data@[i as int][c]
                        == coefficients@[c] by {
                        if c < k {
                            assert(before[i as int][c] == coefficients@[c]);
                        }
                    }
                    assert forall|c: int| k + 1 <= c < columns implies #[trigger] self.coefficients_data@[i as int][c]
                        == 0 by {
                        assert(before[i as int][c] == 0);
                    }
                }
                k = k + 1;
            }
            proof {
                assert forall|c: int| 0 <= c < columns implies (
                #[trigger] self.coefficients_data@[i as int][c]) as int == coefficient_cell(
                    entries,
                    layout,
                    i as int,
                    c,
                ) by {
                    if c < cols_occupied {
                        assert(ints_of(coefficients@)[c] == coefficients@[c] as int);
                    }
                }
            }
            i = i + 1;
        }
        Ok(())
    }
}

/// With a prime plaintext modulus, the item chunks of every slot of a
/// well-formed box can be interpolated: they are distinct and below the
/// modulus, so they differ by units.
pub proof fn lemma_prime_interpolable(ib: InnerBox)
    requires
        ib.wf(),
        is_prime(ib.layout.psi_pt.bfv_pt as int),
    ensures
        interpolable(ib.entries@, ib.layout),
{
    let entries = ib.entries@;
    let layout = ib.layout;
    let q: int = layout.psi_pt.bfv_pt as int;
    let s: int = layout.slots();
    lemma_layout_rows(layout);
    assert forall|lane: int| 0 <= lane < layout.ct_slots implies pairwise_units(
        #[trigger] items_of_lane(entries, layout, lane),
        q,
    ) by {
        let xs = items_of_lane(entries, layout, lane);
        lemma_lane_split(lane, s, layout.rows());
        assert forall|i: int, j: int| 0 <= i < j < xs.len() implies crate::field::has_inverse(
            #[trigger] xs[j] - #[trigger] xs[i],
            q,
        ) by {
            let row = entries[lane / s];
            lemma_chunk_bound(row[i].item@, lane % s, layout);
            lemma_chunk_bound(row[j].item@, lane % s, layout);
            assert(item_cell(entries, layout, lane, i) != item_cell(entries, layout, lane, j));
            let d: int = xs[j] - xs[i];
            assert(d % q != 0) by {
                if d > 0 {
                    vstd::arithmetic::div_mod::lemma_small_mod(d as nat, q as nat);
                } else {
                    vstd::arithmetic::div_mod::lemma_mod_add_multiples_vanish(d, q);
                    vstd::arithmetic::div_mod::lemma_small_mod((q + d) as nat, q as nat);
                }
            }
            lemma_prime_unit_iff(d, q);
        }
    }
}

/// In a preprocessed box, the polynomial of every slot maps each item chunk
/// of the slot to the label chunk of the same pair.
pub proof fn lemma_box_polynomials(ib: InnerBox, lane: int, c: int)
    requires
        ib.wf(),
        ib.interpolated(),
        interpolable(ib.entries@, ib.layout),
        0 <= lane < ib.layout.ct_slots,
        0 <= c < ib.entries@[lane / ib.layout.slots()].len(),
    ensures
        poly_eval(
            ints_of(ib.coefficients_data@[lane]),
            item_cell(ib.entries@, ib.layout, lane, c),
            ib.layout.psi_pt.bfv_pt as int,
        ) == label_cell(ib.entries@, ib.layout, lane, c),
{
    let entries = ib.entries@;
    let layout = ib.layout;
    let q: int = layout.psi_pt.bfv_pt as int;
    let s: int = layout.slots();
    let xs = items_of_lane(entries, layout, lane);
    let ys = labels_of_lane(entries, layout, lane);
    let len: int = entries[lane / s].len() as int;
    let row = ints_of(ib.coefficients_data@[lane]);
    lemma_layout_rows(layout);
    lemma_lane_split(lane, s, layout.rows());
    assert(len <= layout.columns) by {
        assert(ib.ht_rows@[lane / s].curr_cols == len);
    }
    lemma_pow256_values();
    lemma_newton_coefficients_interpolate(xs, ys, q, c);
    let coefficients = newton_coefficients(xs, ys, q);
    assert(row.take(len) =~= coefficients) by {
        assert forall|k: int| 0 <= k < len implies row.take(len)[k] == coefficients[k] by {
            assert(ib.coefficients_data@[lane][k] as int == coefficient_cell(
                entries,
                layout,
                lane,
                k,
            ));
        }
    }
    assert forall|k: int| len <= k < row.len() implies row[k] == 0 by {
        assert(ib.coefficients_data@[lane][k] as int == coefficient_cell(entries, layout, lane, k));
    }
    lemma_eval_zero_padded(row, len, xs[c]);
    // the label chunk is below the modulus
    lemma_chunk_bound(entries[lane / s][c].label@, lane % s, layout);
    vstd::arithmetic::div_mod::lemma_small_mod(ys[c] as nat, q as nat);
}

/// Preprocessing is idempotent: two preprocessed boxes with the same pairs
/// hold the same coefficients.
pub proof fn lemma_preprocess_idempotent(a: InnerBox, b: InnerBox)
    requires
        a.interpolated(),
        b.interpolated(),
        a.entries@ == b.entries@,
        a.layout == b.layout,
    ensures
        a.coefficients_data@ == b.coefficients_data@,
{
    let x = a.coefficients_data@;
    let y = b.coefficients_data@;
    assert forall|lane: int| 0 <= lane < x.len() implies x[lane] == y[lane] by {
        assert forall|c: int| 0 <= c < x[lane].len() implies x[lane][c] == y[lane][c] by {
            assert(x[lane][c] as int == coefficient_cell(a.entries@, a.layout, lane, c));
            assert(y[lane][c] as int == coefficient_cell(a.entries@, a.layout, lane, c));
        }
        assert(x[lane] =~= y[lane]);
    }
    assert(x =~= y);
}

impl InnerBox {
    /// The values of the polynomials of the box in the slots of a query, on
    /// the plaintext slots: `ps_powers` holds the powers of the query that
    /// the evaluation consumes.
    pub fn evaluate_ps_on_query_ct(
        &self,
        ps_powers: &HashMap<usize, Vec<u32>>,
        ps_params: &PSParams,
    ) -> (out: Vec<u32>)
        requires
            self.wf(),
            self.interpolated(),
            ps_params.wf(),
            ps_params.total_degree + 1 == self.layout.columns,
            powers_present(ps_powers@, ps_params.powers@, self.layout.ct_slots as int),
        ensures
            out@ == ps_values(
                self.coefficients_data@,
                state_view(ps_powers@),
                ps_params.low_degree as int,
                ps_params.total_degree as int,
                self.layout.psi_pt.bfv_pt as int,
            ),
    {
        proof {
            lemma_pow256_values();
        }
        ps_evaluate_poly(ps_powers, ps_params, &self.coefficients_data, self.layout.psi_pt.bfv_pt)
    }
}

impl InnerBox {
    /// The coefficients of the polynomial of slot `lane`, lowest degree
    /// first.
    pub fn coefficients(&self, lane: usize) -> (row: Vec<u32>)
        requires
            self.interpolated(),
            lane < self.layout.ct_slots,
        ensures
            row@ == self.coefficients_data@[lane as int],
    {
        self.coefficients_data.row(lane)
    }

    /// Number of pairs in logical row `row`.
    pub fn pairs_in_row(&self, row: usize) -> (n: u32)
        requires
            self.wf(),
            row < self.layout.rows(),
        ensures
            n == self.entries@[row as int].len(),
    {
        self.ht_rows[row].curr_cols
    }
}

impl InnerBox {
    /// The coefficients of degree `degree` of the polynomials of all slots.
    pub fn coefficient_column(&self, degree: usize) -> (column: Vec<u32>)
        requires
            self.wf(),
            self.interpolated(),
            degree < self.layout.columns,
        ensures
            column@.len() == self.layout.ct_slots,
            forall|lane: int|
                0 <= lane < self.layout.ct_slots ==> #[trigger] column@[lane]
                    == self.coefficients_data@[lane][degree as int],
    {
        self.coefficients_data.column(degree)
    }
}

} // verus!
