//! Big boxes: the storage of one hash table. The rows of the table divide into
//! segments of as many rows as an inner box has; each segment owns a list of
//! inner boxes, which grows when a pair finds no room in those that are there.

use crate::inner_box::{
    chunk_of, entered, interpolable, occupied, Entries, InnerBox,
};
use crate::params::{lemma_layout_rows, lemma_layout_segments, Layout, PsiParams};
use crate::poly_interpolate::InterpError;
use crate::dag::{available, dag_ordered, Node};
use crate::paterson_stockmeyer::{powers_present, ps_values};
use crate::powers::{
    calculate_ps_powers_with_dag, lemma_power_plan, power_plan, run_steps, slots_of, sources_shaped,
    state_view,
};
use crate::server::ItemLabel;
use crate::utils::{lemma_pow256_values, rows2, rows3};
use std::collections::HashMap;
use vstd::prelude::*;

verus! {

/// The storage of one hash table.
pub struct BigBox {
    /// The inner boxes of each segment; the lists differ in length.
    pub inner_boxes: Vec<Vec<InnerBox>>,
    pub layout: Layout,
    pub inner_box_rows: u32,
    pub id: usize,
}

/// The pairs of an empty inner box.
pub open spec fn no_entries(layout: Layout) -> Entries {
    Seq::new(layout.rows() as nat, |r: int| Seq::<ItemLabel>::empty())
}

/// The pairs of an empty big box: one empty inner box in each segment.
pub open spec fn empty_big_box(layout: Layout) -> Seq<Seq<Entries>> {
    Seq::new(layout.segments() as nat, |g: int| seq![no_entries(layout)])
}

/// The pair can enter logical row `row` of a box with the pairs `entries`.
pub open spec fn fits(entries: Entries, layout: Layout, il: ItemLabel, row: int) -> bool {
    &&& entries[row].len() < layout.columns
    &&& forall|k: int|
        0 <= k < layout.slots() ==> !occupied(
            entries,
            layout,
            row * layout.slots() + k,
            #[trigger] chunk_of(il.item@, k, layout),
        )
}

/// The index, from `from` on, of the first box of the segment that the pair
/// can enter at logical row `row`; the length of the segment if there is none.
pub open spec fn first_fit(
    segment: Seq<Entries>,
    layout: Layout,
    il: ItemLabel,
    row: int,
    from: int,
) -> int
    decreases segment.len() - from,
{
    if from >= segment.len() {
        segment.len() as int
    } else if fits(segment[from], layout, il, row) {
        from
    } else {
        first_fit(segment, layout, il, row, from + 1)
    }
}

/// The segment after the pair has entered logical row `row` of the first box
/// that takes it, or of a new box at the end.
pub open spec fn segment_with(segment: Seq<Entries>, layout: Layout, il: ItemLabel, row: int) -> Seq<
    Entries,
> {
    let j = first_fit(segment, layout, il, row, 0);
    if j < segment.len() {
        segment.update(j, entered(segment[j], row, il))
    } else {
        segment.push(entered(no_entries(layout), row, il))
    }
}

/// The pairs of a big box after the pair has entered at row `ht_index` of the
/// hash table: it is in the segment `ht_index / rows`, at the logical row
/// `ht_index % rows`, where `rows` is the number of logical rows of a box.
pub open spec fn big_box_with(
    view: Seq<Seq<Entries>>,
    layout: Layout,
    il: ItemLabel,
    ht_index: int,
) -> Seq<Seq<Entries>> {
    view.update(
        ht_index / layout.rows(),
        segment_with(view[ht_index / layout.rows()], layout, il, ht_index % layout.rows()),
    )
}

/// The pairs of a big box after the first `n` of `item_labels` have entered,
/// each at the row that `indices` names for it in table `id`.
pub open spec fn big_box_with_all(
    view: Seq<Seq<Entries>>,
    layout: Layout,
    item_labels: Seq<ItemLabel>,
    indices: Seq<Seq<u32>>,
    id: int,
    n: int,
) -> Seq<Seq<Entries>>
    decreases n,
{
    if n <= 0 {
        view
    } else {
        big_box_with(
            big_box_with_all(view, layout, item_labels, indices, id, n - 1),
            layout,
            item_labels[n - 1],
            indices[n - 1][id] as int,
        )
    }
}

/// The rows of indices as sequences.
pub open spec fn index_rows(indices: Seq<Vec<u32>>) -> Seq<Seq<u32>> {
    Seq::new(indices.len(), |i: int| indices[i]@)
}

/// The pairs of a segment, box by box.
pub open spec fn segment_view(segment: Seq<InnerBox>) -> Seq<Entries> {
    Seq::new(segment.len(), |j: int| segment[j].entries@)
}

/// Every box of the segment is well formed and of the given layout.
pub open spec fn segment_wf(segment: Seq<InnerBox>, layout: Layout) -> bool {
    &&& segment.len() >= 1
    &&& forall|j: int|
        0 <= j < segment.len() ==> (#[trigger] segment[j]).wf() && segment[j].layout == layout
}

impl View for BigBox {
    type V = Seq<Seq<Entries>>;

    /// The pairs of the big box: by segment, by inner box, by logical row.
    open spec fn view(&self) -> Seq<Seq<Entries>> {
        Seq::new(self.inner_boxes@.len(), |g: int| segment_view(self.inner_boxes@[g]@))
    }
}

impl BigBox {
    /// One list of well-formed boxes per segment, none of them empty.
    pub open spec fn wf(&self) -> bool {
        &&& self.layout.wf()
        &&& self.inner_box_rows == self.layout.rows()
        &&& self.inner_boxes@.len() == self.layout.segments()
        &&& forall|g: int|
            0 <= g < self.inner_boxes@.len() ==> segment_wf(
                (#[trigger] self.inner_boxes@[g])@,
                self.layout,
            )
    }

    /// The big box of hash table `id`: one empty inner box in each segment.
    pub fn new(psi_params: &PsiParams, id: usize) -> (bb: BigBox)
        requires
            psi_params.eval_degree.0 < u32::MAX,
            psi_params.layout_spec().wf(),
        ensures
            bb.wf(),
            bb.id == id,
            bb.layout == psi_params.layout_spec(),
            bb@ == empty_big_box(psi_params.layout_spec()),
    {
        let layout: Layout = psi_params.layout();
        let inner_box_rows: u32 = layout.inner_box_rows();
        let segments: u32 = layout.segments_count();
        let mut inner_boxes: Vec<Vec<InnerBox>> = Vec::new();
        let mut g: u32 = 0;
        while g < segments
            invariant
                layout.wf(),
                g <= segments,
                inner_boxes@.len() == g,
                forall|i: int|
                    0 <= i < g ==> segment_wf((#[trigger] inner_boxes@[i])@, layout)
                        && segment_view(inner_boxes@[i]@) == seq![no_entries(layout)],
            decreases segments - g,
        {
            let mut segment: Vec<InnerBox> = Vec::new();
            segment.push(InnerBox::with_layout(layout));
            assert(segment_view(segment@) =~= seq![no_entries(layout)]);
            inner_boxes.push(segment);
            g = g + 1;
        }
        let bb: BigBox = BigBox { inner_boxes, layout, inner_box_rows, id };
        assert(bb@ =~= Seq::new(layout.segments() as nat, |g: int| seq![no_entries(layout)]));
        bb
    }

    /// The segment into which row `ht_index` of the hash table falls.
    pub fn ht_index_to_segment_index(&self, ht_index: usize) -> (segment: usize)
        requires
            self.wf(),
        ensures
            segment == ht_index as int / self.layout.rows(),
    {
        proof {
            lemma_layout_rows(self.layout);
        }
        ht_index / self.inner_box_rows as usize
    }

    /// The logical row, in the boxes of its segment, of row `ht_index` of the
    /// hash table.
    pub fn ht_index_to_inner_box_row(&self, ht_index: usize) -> (row: usize)
        requires
            self.wf(),
        ensures
            row == ht_index as int % self.layout.rows(),
    {
        proof {
            lemma_layout_rows(self.layout);
        }
        ht_index % self.inner_box_rows as usize
    }

    /// Number of segments.
    pub fn segments_count(&self) -> (n: usize)
        ensures
            n == self.inner_boxes@.len(),
    {
        self.inner_boxes.len()
    }

    /// Number of inner boxes of segment `segment`.
    pub fn inner_boxes_in_segment(&self, segment: usize) -> (n: usize)
        requires
            segment < self.inner_boxes@.len(),
        ensures
            n == self.inner_boxes@[segment as int]@.len(),
    {
        self.inner_boxes[segment].len()
    }
}

/// An empty box takes any pair at any of its rows.
pub proof fn lemma_empty_box_fits(layout: Layout, il: ItemLabel, row: int)
    requires
        layout.wf(),
        0 <= row < layout.rows(),
    ensures
        fits(no_entries(layout), layout, il, row),
{
    let entries = no_entries(layout);
    lemma_layout_rows(layout);
    assert forall|k: int| 0 <= k < layout.slots() implies !occupied(
        entries,
        layout,
        row * layout.slots() + k,
        #[trigger] chunk_of(il.item@, k, layout),
    ) by {
        let lane: int = row * layout.slots() + k;
        crate::inner_box::lemma_lane_of(row, k, layout.slots());
        assert(entries[lane / layout.slots()].len() == 0);
    }
}

/// Where no box before `upto` takes the pair, the first fit from `from` on is
/// the first fit from `upto` on.
pub proof fn lemma_first_fit_skips(
    segment: Seq<Entries>,
    layout: Layout,
    il: ItemLabel,
    row: int,
    from: int,
    upto: int,
)
    requires
        0 <= from <= upto <= segment.len(),
        forall|j: int| from <= j < upto ==> !fits(#[trigger] segment[j], layout, il, row),
    ensures
        first_fit(segment, layout, il, row, from) == first_fit(segment, layout, il, row, upto),
    decreases upto - from,
{
    if from < upto {
        lemma_first_fit_skips(segment, layout, il, row, from + 1, upto);
    }
}

/// The first fit is a box that takes the pair, if there is one.
pub proof fn lemma_first_fit_fits(
    segment: Seq<Entries>,
    layout: Layout,
    il: ItemLabel,
    row: int,
    from: int,
)
    requires
        0 <= from <= segment.len(),
    ensures
        from <= first_fit(segment, layout, il, row, from) <= segment.len(),
        first_fit(segment, layout, il, row, from) < segment.len() ==> fits(
            segment[first_fit(segment, layout, il, row, from)],
            layout,
            il,
            row,
        ),
    decreases segment.len() - from,
{
    if from < segment.len() && !fits(segment[from], layout, il, row) {
        lemma_first_fit_fits(segment, layout, il, row, from + 1);
    }
}

/// Every box of every segment can be interpolated.
pub open spec fn all_interpolable(view: Seq<Seq<Entries>>, layout: Layout) -> bool {
    forall|g: int, j: int|
        0 <= g < view.len() && 0 <= j < view[g].len() ==> interpolable(
            #[trigger] view[g][j],
            layout,
        )
}

impl BigBox {
    /// Every box holds the coefficients that its pairs determine.
    pub open spec fn interpolated(&self) -> bool {
        forall|g: int, j: int|
            0 <= g < self.inner_boxes@.len() && 0 <= j < self.inner_boxes@[g]@.len() ==> (
            #[trigger] self.inner_boxes@[g]@[j]).interpolated()
    }

    /// The first box of segment `segment` that the pair can enter at logical
    /// row `row`; the number of boxes of the segment if there is none.
    pub fn find_box(&self, segment: usize, item_label: &ItemLabel, row: usize) -> (index: usize)
        requires
            self.wf(),
            segment < self.inner_boxes@.len(),
            row < self.layout.rows(),
        ensures
            index == first_fit(self@[segment as int], self.layout, *item_label, row as int, 0),
            index <= self.inner_boxes@[segment as int]@.len(),
    {
        let n: usize = self.inner_boxes[segment].len();
        let ghost view = self@[segment as int];
        let mut i: usize = 0;
        while i < n
            invariant
                self.wf(),
                segment < self.inner_boxes@.len(),
                row < self.layout.rows(),
                n == self.inner_boxes@[segment as int]@.len(),
                view == self@[segment as int],
                view.len() == n,
                i <= n,
                forall|j: int|
                    0 <= j < i ==> !fits(#[trigger] view[j], self.layout, *item_label, row as int),
            decreases n - i,
        {
            assert(segment_wf(self.inner_boxes@[segment as int]@, self.layout));
            assert(self.inner_boxes@[segment as int]@[i as int].wf());
            assert(view[i as int] == self.inner_boxes@[segment as int]@[i as int].entries@);
            if self.inner_boxes[segment][i].can_insert(item_label, row) {
                proof {
                    lemma_first_fit_skips(view, self.layout, *item_label, row as int, 0, i as int);
                }
                return i;
            }
            i = i + 1;
        }
        proof {
            lemma_first_fit_skips(view, self.layout, *item_label, row as int, 0, n as int);
        }
        n
    }

    /// Enters the pair at row `ht_index` of the hash table: into the first
    /// inner box of the segment of that row that can take it at the logical
    /// row of `ht_index`, or else into a new inner box at the end of the
    /// segment.
    pub fn insert(&mut self, item_label: &ItemLabel, ht_index: usize)
        requires
            old(self).wf(),
            ht_index < old(self).layout.ht_size,
        ensures
            final(self).wf(),
            final(self).layout == old(self).layout,
            final(self).id == old(self).id,
            final(self)@ == big_box_with(
                old(self)@,
                old(self).layout,
                *item_label,
                ht_index as int,
            ),
    {
        let ghost pre: BigBox = *self;
        let ghost layout: Layout = self.layout;
        let segment_index: usize = self.ht_index_to_segment_index(ht_index);
        let inner_box_row: usize = self.ht_index_to_inner_box_row(ht_index);
        proof {
            lemma_layout_rows(layout);
            lemma_layout_segments(layout);
            vstd::arithmetic::div_mod::lemma_mod_bound(ht_index as int, layout.rows());
            assert(0 <= ht_index as int / layout.rows() < layout.segments());
        }
        let ghost old_segment: Seq<Entries> = self@[segment_index as int];
        // the first inner box of the segment with room at the row
        let inner_box_index: usize = self.find_box(segment_index, item_label, inner_box_row);
        if inner_box_index == self.inner_boxes[segment_index].len() {
            // none of them has: a new one
            let fresh: InnerBox = InnerBox::with_layout(self.layout);
            proof {
                lemma_empty_box_fits(layout, *item_label, inner_box_row as int);
            }
            self.inner_boxes[segment_index].push(fresh);
        }
        let ghost mid: BigBox = *self;
        proof {
            assert(mid.inner_boxes@.len() == pre.inner_boxes@.len());
            assert forall|g: int| 0 <= g < mid.inner_boxes@.len() implies segment_wf(
                (#[trigger] mid.inner_boxes@[g])@,
                layout,
            ) by {
                assert(segment_wf(pre.inner_boxes@[g]@, layout));
                if g == segment_index {
                    assert forall|j: int| 0 <= j < mid.inner_boxes@[g]@.len() implies (
                    #[trigger] mid.inner_boxes@[g]@[j]).wf() && mid.inner_boxes@[g]@[j].layout
                        == layout by {
                        if j < pre.inner_boxes@[g]@.len() {
                            assert(mid.inner_boxes@[g]@[j] == pre.inner_boxes@[g]@[j]);
                        }
                    }
                } else {
                    assert(mid.inner_boxes@[g] == pre.inner_boxes@[g]);
                }
            }
            let target = mid.inner_boxes@[segment_index as int]@[inner_box_index as int];
            assert(target.wf() && target.layout == layout);
            if inner_box_index < old_segment.len() {
                assert(target == pre.inner_boxes@[segment_index as int]@[inner_box_index as int]);
                assert(target.entries@ == old_segment[inner_box_index as int]);
            }
            lemma_first_fit_fits(old_segment, layout, *item_label, inner_box_row as int, 0);
            if inner_box_index >= old_segment.len() {
                assert(target.entries@ == no_entries(layout));
            }
            assert(fits(target.entries@, layout, *item_label, inner_box_row as int));
            assert(target.can_insert_spec(*item_label, inner_box_row as int));
        }
        self.inner_boxes[segment_index][inner_box_index].insert_item_label(
            inner_box_row,
            item_label,
        );
        proof {
            let g0: int = segment_index as int;
            let j0: int = inner_box_index as int;
            assert(self.inner_boxes@.len() == mid.inner_boxes@.len());
            assert forall|g: int| 0 <= g < self.inner_boxes@.len() implies segment_wf(
                (#[trigger] self.inner_boxes@[g])@,
                layout,
            ) by {
                assert(segment_wf(mid.inner_boxes@[g]@, layout));
                if g == g0 {
                    assert forall|j: int| 0 <= j < self.inner_boxes@[g]@.len() implies (
                    #[trigger] self.inner_boxes@[g]@[j]).wf() && self.inner_boxes@[g]@[j].layout
                        == layout by {
                        if j != j0 {
                            assert(self.inner_boxes@[g]@[j] == mid.inner_boxes@[g]@[j]);
                        }
                    }
                } else {
                    assert(self.inner_boxes@[g] == mid.inner_boxes@[g]);
                }
            }
            let expected = segment_with(old_segment, layout, *item_label, inner_box_row as int);
            let got = self@[g0];
            assert(got =~= expected) by {
                assert(got.len() == expected.len());
                assert forall|j: int| 0 <= j < got.len() implies got[j] == expected[j] by {
                    if j == j0 {
                    } else {
                        assert(self.inner_boxes@[g0]@[j] == mid.inner_boxes@[g0]@[j]);
                        assert(mid.inner_boxes@[g0]@[j] == pre.inner_boxes@[g0]@[j]);
                    }
                }
            }
            assert(self@ =~= pre@.update(g0, expected)) by {
                assert forall|g: int| 0 <= g < self@.len() && g != g0 implies self@[g] == pre@[g] by {
                    assert(self.inner_boxes@[g] == mid.inner_boxes@[g]);
                    assert(mid.inner_boxes@[g] == pre.inner_boxes@[g]);
                }
            }
        }
    }

    /// Enters each pair at the row of this hash table that the entry of the
    /// pair in `item_labels_table_indices` names for table `id`.
    pub fn insert_many(&mut self, item_labels: &[ItemLabel], item_labels_table_indices: &[Vec<u32>])
        requires
            old(self).wf(),
            item_labels@.len() == item_labels_table_indices@.len(),
            forall|i: int|
                0 <= i < item_labels_table_indices@.len() ==> old(self).id < (
                #[trigger] item_labels_table_indices@[i])@.len()
                    && item_labels_table_indices@[i]@[old(self).id as int] < old(
                    self,
                ).layout.ht_size,
        ensures
            final(self).wf(),
            final(self).layout == old(self).layout,
            final(self).id == old(self).id,
            final(self)@ == big_box_with_all(
                old(self)@,
                old(self).layout,
                item_labels@,
                index_rows(item_labels_table_indices@),
                old(self).id as int,
                item_labels@.len() as int,
            ),
    {
        let n: usize = item_labels.len();
        let mut i: usize = 0;
        while i < n
            invariant
                self.wf(),
                self.layout == old(self).layout,
                self.id == old(self).id,
                n == item_labels@.len(),
                n == item_labels_table_indices@.len(),
                i <= n,
                self@ == big_box_with_all(
                    old(self)@,
                    old(self).layout,
                    item_labels@,
                    index_rows(item_labels_table_indices@),
                    old(self).id as int,
                    i as int,
                ),
                forall|k: int|
                    0 <= k < item_labels_table_indices@.len() ==> self.id < (
                    #[trigger] item_labels_table_indices@[k])@.len()
                        && item_labels_table_indices@[k]@[self.id as int] < self.layout.ht_size,
            decreases n - i,
        {
            let ht_index: usize = item_labels_table_indices[i][self.id] as usize;
            self.insert(&item_labels[i], ht_index);
            i = i + 1;
        }
    }

    /// Preprocesses every inner box: interpolates the polynomials of its
    /// slots.
    ///
    /// Fails where a box cannot be interpolated, which is never so with a
    /// prime plaintext modulus.
    pub fn preprocess(&mut self) -> (res: Result<(), InterpError>)
        requires
            old(self).wf(),
        ensures
            final(self).wf(),
            final(self).layout == old(self).layout,
            final(self).id == old(self).id,
            final(self)@ == old(self)@,
            res is Ok <==> all_interpolable(old(self)@, old(self).layout),
            res is Ok ==> final(self).interpolated(),
    {
        let ghost pre: BigBox = *self;
        let ghost layout: Layout = self.layout;
        let segments: usize = self.inner_boxes.len();
        let mut g: usize = 0;
        while g < segments
            invariant
                pre == *old(self),
                layout == pre.layout,
                self.layout == layout,
                self.id == pre.id,
                self.inner_box_rows == pre.inner_box_rows,
                pre.wf(),
                self.wf(),
                self@ == pre@,
                segments == self.inner_boxes@.len(),
                g <= segments,
                forall|a: int, b: int|
                    0 <= a < g && 0 <= b < self.inner_boxes@[a]@.len() ==> (
                    #[trigger] self.inner_boxes@[a]@[b]).interpolated() && interpolable(
                        pre@[a][b],
                        layout,
                    ),
            decreases segments - g,
        {
            let boxes: usize = self.inner_boxes[g].len();
            let mut j: usize = 0;
            while j < boxes
                invariant
                    pre == *old(self),
                    layout == pre.layout,
                    self.layout == layout,
                    self.id == pre.id,
                    self.inner_box_rows == pre.inner_box_rows,
                    pre.wf(),
                    self.wf(),
                    self@ == pre@,
                    segments == self.inner_boxes@.len(),
                    g < segments,
                    boxes == self.inner_boxes@[g as int]@.len(),
                    j <= boxes,
                    forall|a: int, b: int|
                        0 <= a < g && 0 <= b < self.inner_boxes@[a]@.len() ==> (
                        #[trigger] self.inner_boxes@[a]@[b]).interpolated() && interpolable(
                            pre@[a][b],
                            layout,
                        ),
                    forall|b: int|
                        0 <= b < j ==> (#[trigger] self.inner_boxes@[g as int]@[b]).interpolated()
                            && interpolable(pre@[g as int][b], layout),
                decreases boxes - j,
            {
                let ghost mid: BigBox = *self;
                proof {
                    assert(segment_wf(self.inner_boxes@[g as int]@, layout));
                    assert(self.inner_boxes@[g as int]@[j as int].wf());
                    assert(pre@[g as int][j as int] == self@[g as int][j as int]);
                }
                let outcome: Result<(), InterpError> =
                    self.inner_boxes[g][j].generate_coefficients();
                proof {
                    let g0: int = g as int;
                    let j0: int = j as int;
                    assert(self.inner_boxes@.len() == mid.inner_boxes@.len());
                    assert forall|a: int| 0 <= a < self.inner_boxes@.len() implies segment_wf(
                        (#[trigger] self.inner_boxes@[a])@,
                        layout,
                    ) && segment_view(self.inner_boxes@[a]@) == segment_view(
                        mid.inner_boxes@[a]@,
                    ) by {
                        assert(segment_wf(mid.inner_boxes@[a]@, layout));
                        if a == g0 {
                            assert forall|b: int|
                                0 <= b < self.inner_boxes@[a]@.len() implies (
                            #[trigger] self.inner_boxes@[a]@[b]).wf()
                                && self.inner_boxes@[a]@[b].layout == layout
                                && self.inner_boxes@[a]@[b].entries@
                                == mid.inner_boxes@[a]@[b].entries@ by {
                                if b != j0 {
                                    assert(self.inner_boxes@[a]@[b] == mid.inner_boxes@[a]@[b]);
                                }
                            }
                            assert(segment_view(self.inner_boxes@[a]@) =~= segment_view(
                                mid.inner_boxes@[a]@,
                            ));
                        } else {
                            assert(self.inner_boxes@[a] == mid.inner_boxes@[a]);
                        }
                    }
                    assert(self@ =~= mid@);
                    assert forall|a: int, b: int|
                        0 <= a < g && 0 <= b < self.inner_boxes@[a]@.len() implies (
                    #[trigger] self.inner_boxes@[a]@[b]).interpolated() && interpolable(
                        pre@[a][b],
                        layout,
                    ) by {
                        assert(self.inner_boxes@[a] == mid.inner_boxes@[a]);
                        assert(mid.inner_boxes@[a]@[b].interpolated());
                    }
                    assert forall|b: int| 0 <= b < j implies (
                    #[trigger] self.inner_boxes@[g0]@[b]).interpolated() && interpolable(
                        pre@[g0][b],
                        layout,
                    ) by {
                        assert(self.inner_boxes@[g0]@[b] == mid.inner_boxes@[g0]@[b]);
                        assert(mid.inner_boxes@[g0]@[b].interpolated());
                    }
                }
                match outcome {
                    Ok(_) => {},
                    Err(e) => {
                        assert(!interpolable(pre@[g as int][j as int], layout));
                        return Err(e);
                    },
                }
                j = j + 1;
            }
            g = g + 1;
        }
        proof {
            assert forall|a: int, b: int|
                0 <= a < pre@.len() && 0 <= b < pre@[a].len() implies interpolable(
                #[trigger] pre@[a][b],
                layout,
            ) by {
                assert(self@[a].len() == self.inner_boxes@[a]@.len());
                assert(self.inner_boxes@[a]@[b].interpolated());
            }
        }
        Ok(())
    }
}

/// The powers of the query for one segment that the evaluation consumes,
/// slot by slot: what the steps of the plan give on the source powers that
/// the query holds.
pub open spec fn segment_powers(query: Seq<Seq<u32>>, psi_params: PsiParams, dag: Map<usize, Node>) -> Map<
    usize,
    Seq<u32>,
> {
    run_steps(
        power_plan(
            psi_params.source_powers@,
            psi_params.ps_params.powers@,
            dag,
            psi_params.ps_params.low_degree as int,
        ),
        query,
        psi_params.psi_pt.bfv_pt as int,
    )
}

/// The response of a segment: for each of its boxes, the values of the
/// polynomials of the box in the slots of the query.
pub open spec fn segment_response(
    segment: Seq<InnerBox>,
    powers: Map<usize, Seq<u32>>,
    psi_params: PsiParams,
) -> Seq<Seq<u32>> {
    Seq::new(
        segment.len(),
        |k: int|
            ps_values(
                segment[k].coefficients_data@,
                powers,
                psi_params.ps_params.low_degree as int,
                psi_params.ps_params.total_degree as int,
                psi_params.psi_pt.bfv_pt as int,
            ),
    )
}

/// The response of a big box: that of each segment to its part of the
/// query.
pub open spec fn big_box_response(
    boxes: Seq<Vec<InnerBox>>,
    query: Seq<Seq<Seq<u32>>>,
    psi_params: PsiParams,
    dag: Map<usize, Node>,
) -> Seq<Seq<Seq<u32>>> {
    Seq::new(
        boxes.len(),
        |g: int| segment_response(boxes[g]@, segment_powers(query[g], psi_params, dag), psi_params),
    )
}

/// The query for a big box has, for each segment, one vector of `ct_slots`
/// slots for each source power.
pub open spec fn query_shaped(query: Seq<Vec<Vec<u32>>>, psi_params: PsiParams) -> bool {
    &&& query.len() == psi_params.layout_spec().segments()
    &&& forall|g: int|
        0 <= g < query.len() ==> sources_shaped(
            rows2(#[trigger] query[g]@),
            psi_params.source_powers@,
            psi_params.ct_slots.0 as int,
        )
}

impl BigBox {
    /// The response of the big box to the query for its hash table, on the
    /// plaintext slots. The query holds, for each segment, the source powers
    /// of the query vector. For each segment the powers that the evaluation
    /// consumes are derived along the graph of powers, and every inner box
    /// of the segment evaluates its polynomials on them.
    pub fn process_query(
        &self,
        ht_query_cts: &Vec<Vec<Vec<u32>>>,
        psi_params: &PsiParams,
        powers_dag: &HashMap<usize, Node>,
    ) -> (response: Vec<Vec<Vec<u32>>>)
        requires
            self.wf(),
            self.interpolated(),
            psi_params.wf(),
            self.layout == psi_params.layout_spec(),
            query_shaped(ht_query_cts@, *psi_params),
            dag_ordered(
                powers_dag@,
                psi_params.source_powers@,
                psi_params.ps_params.powers@,
                psi_params.ps_params.powers@.len() as int,
            ),
        ensures
            rows3(response@) == big_box_response(
                self.inner_boxes@,
                rows3(ht_query_cts@),
                *psi_params,
                powers_dag@,
            ),
    {
        let ghost sources = psi_params.source_powers@;
        let ghost targets = psi_params.ps_params.powers@;
        let ghost q = psi_params.psi_pt.bfv_pt as int;
        let ghost slots = psi_params.ct_slots.0 as int;
        let ghost expected = big_box_response(
            self.inner_boxes@,
            rows3(ht_query_cts@),
            *psi_params,
            powers_dag@,
        );
        proof {
            lemma_pow256_values();
        }
        let segments: usize = self.inner_boxes.len();
        let mut ht_response: Vec<Vec<Vec<u32>>> = Vec::new();
        let mut g: usize = 0;
        while g < segments
            invariant
                self.wf(),
                self.interpolated(),
                psi_params.wf(),
                self.layout == psi_params.layout_spec(),
                query_shaped(ht_query_cts@, *psi_params),
                dag_ordered(powers_dag@, sources, targets, targets.len() as int),
                sources == psi_params.source_powers@,
                targets == psi_params.ps_params.powers@,
                q == psi_params.psi_pt.bfv_pt as int,
                0 < q <= u32::MAX,
                slots == psi_params.ct_slots.0 as int,
                segments == self.inner_boxes@.len(),
                expected == big_box_response(
                    self.inner_boxes@,
                    rows3(ht_query_cts@),
                    *psi_params,
                    powers_dag@,
                ),
                g <= segments,
                ht_response@.len() == g,
                forall|e: int| 0 <= e < g ==> rows2((#[trigger] ht_response@[e])@) == expected[e],
            decreases segments - g,
        {
            let query_ct_powers: &Vec<Vec<u32>> = &ht_query_cts[g];
            let segment: &Vec<InnerBox> = &self.inner_boxes[g];
            let ghost cts = rows2(query_ct_powers@);
            proof {
                assert(sources_shaped(rows2(ht_query_cts@[g as int]@), sources, slots));
                if sources.len() == 0 {
                    if targets.len() > 0 {
                        let p = targets[0];
                        assert(!available(sources, targets, 0, p));
                        assert(!available(sources, targets, 0, powers_dag@[p].s1));
                    }
                }
                assert(sources_shaped(cts, sources, slots_of(cts)));
                lemma_power_plan(
                    sources,
                    targets,
                    powers_dag@,
                    psi_params.ps_params.low_degree as int,
                    cts,
                    q,
                    slots_of(cts),
                    Seq::empty(),
                );
            }
            // the powers that the evaluation consumes
            let ps_target_powers: HashMap<usize, Vec<u32>> = calculate_ps_powers_with_dag(
                query_ct_powers,
                psi_params.source_powers.as_slice(),
                psi_params.ps_params.powers(),
                powers_dag,
                &psi_params.ps_params,
                psi_params.psi_pt.bfv_pt,
            );
            let ghost powers = state_view(ps_target_powers@);
            proof {
                assert(rows3(ht_query_cts@)[g as int] == cts);
                assert(powers == segment_powers(cts, *psi_params, powers_dag@));
                assert forall|i: int| 0 <= i < targets.len() implies ps_target_powers@.contains_key(
                    #[trigger] targets[i],
                ) && ps_target_powers@[targets[i]]@.len() == slots by {
                    assert(available(sources, targets, targets.len() as int, targets[i]));
                    assert(powers.contains_key(targets[i]));
                    assert(powers[targets[i]].len() == slots_of(cts));
                }
            }
            let mut ib_responses: Vec<Vec<u32>> = Vec::new();
            let mut k: usize = 0;
            while k < segment.len()
                invariant
                    self.wf(),
                    self.interpolated(),
                    psi_params.wf(),
                    self.layout == psi_params.layout_spec(),
                    g < self.inner_boxes@.len(),
                    segment == self.inner_boxes@[g as int],
                    powers == state_view(ps_target_powers@),
                    powers_present(
                        ps_target_powers@,
                        psi_params.ps_params.powers@,
                        psi_params.ct_slots.0 as int,
                    ),
                    k <= segment@.len(),
                    ib_responses@.len() == k,
                    forall|e: int|
                        0 <= e < k ==> (#[trigger] ib_responses@[e])@ == segment_response(
                            segment@,
                            powers,
                            *psi_params,
                        )[e],
                decreases segment@.len() - k,
            {
                let ib: &InnerBox = &segment[k];
                proof {
                    assert(segment_wf(self.inner_boxes@[g as int]@, self.layout));
                    assert(self.inner_boxes@[g as int]@[k as int].interpolated());
                }
                let ib_response: Vec<u32> = ib.evaluate_ps_on_query_ct(
                    &ps_target_powers,
                    &psi_params.ps_params,
                );
                ib_responses.push(ib_response);
                k = k + 1;
            }
            proof {
                assert(rows2(ib_responses@) =~= segment_response(segment@, powers, *psi_params));
            }
            ht_response.push(ib_responses);
            g = g + 1;
        }
        proof {
            assert(rows3(ht_response@) =~= expected);
        }
        ht_response
    }
}

} // verus!
