//! The client's side, on plaintext slots: the query vectors that are to be
//! encrypted, and the labels that decrypted response vectors hold.

use crate::field::mul_mod;
use crate::hash::{
    build, construct_hash_tables, on_stack, tables_view, Cuckoo, HashTableEntry,
};
use crate::inner_box::{chunk_of, lemma_lane_split};
use crate::params::{lemma_layout_rows, lemma_layout_segments, Layout, PsiParams};
use crate::server::{
    lemma_slots_fit, CiphertextSlots, HashTableSize, ItemLabel, PsiPlaintext,
};
use crate::utils::{
    bytes_of_chunks, chunks_of, chunks_to_value, ints_of, rows2, rows3, rows4, value_to_chunks,
    U256,
};
use std::collections::HashMap;
use vstd::prelude::*;

verus! {

/// The labels that the response holds for an item of the query: one from each
/// inner box of the segment of the item. If the server holds the item, its
/// label is among them.
#[derive(Debug, Clone)]
pub struct PotentialResponseLabels {
    pub item: U256,
    pub labels: Vec<U256>,
}

impl PotentialResponseLabels {
    pub fn item(&self) -> (item: U256)
        ensures
            item == self.item,
    {
        self.item
    }

    pub fn labels(&self) -> (labels: &[U256])
        ensures
            labels@ == self.labels@,
    {
        self.labels.as_slice()
    }
}

/// `x` raised to the power `p >= 1` by repeated multiplication modulo `q`:
/// `x` itself for `p == 1`.
pub open spec fn power_chain(x: int, p: int, q: int) -> int
    decreases p,
{
    if p <= 1 {
        x
    } else {
        (power_chain(x, p - 1, q) * x) % q
    }
}

/// The powers `1 ..= m` that occur in `source_powers`, in ascending order.
pub open spec fn powers_upto(source_powers: Seq<usize>, m: int) -> Seq<usize>
    decreases m,
{
    if m <= 0 {
        Seq::empty()
    } else if source_powers.contains(m as usize) {
        powers_upto(source_powers, m - 1).push(m as usize)
    } else {
        powers_upto(source_powers, m - 1)
    }
}

/// The largest of the powers; zero where there is none.
pub open spec fn max_power(source_powers: Seq<usize>) -> int
    decreases source_powers.len(),
{
    if source_powers.len() == 0 {
        0
    } else {
        let rest: int = max_power(source_powers.drop_last());
        if source_powers.last() >= rest {
            source_powers.last() as int
        } else {
            rest
        }
    }
}

/// The source powers of every element of `input_vec`: one vector for each
/// power that occurs in `source_powers`, in ascending order of the powers,
/// with the elements of `input_vec` raised to that power modulo `modq`.
pub fn calculate_source_powers(input_vec: &[u32], source_powers: &[usize], modq: u32) -> (out: Vec<
    Vec<u32>,
>)
    requires
        modq > 0,
        max_power(source_powers@) < usize::MAX,
    ensures
        out@.len() == powers_upto(source_powers@, max_power(source_powers@)).len(),
        forall|k: int, i: int|
            0 <= k < out@.len() && 0 <= i < input_vec@.len() ==> (#[trigger] out@[k])@.len()
                == input_vec@.len() && (#[trigger] out@[k]@[i]) as int == power_chain(
                input_vec@[i] as int,
                powers_upto(source_powers@, max_power(source_powers@))[k] as int,
                modq as int,
            ),
        forall|k: int| 0 <= k < out@.len() ==> (#[trigger] out@[k])@.len() == input_vec@.len(),
{
    let n: usize = input_vec.len();
    let ghost sp = source_powers@;
    // the largest power
    let mut max: usize = 0;
    let mut j: usize = 0;
    while j < source_powers.len()
        invariant
            j <= source_powers@.len(),
            max == max_power(source_powers@.take(j as int)),
        decreases source_powers@.len() - j,
    {
        assert(source_powers@.take(j + 1).drop_last() =~= source_powers@.take(j as int));
        if source_powers[j] >= max {
            max = source_powers[j];
        }
        j = j + 1;
    }
    assert(source_powers@.take(source_powers@.len() as int) =~= source_powers@);
    let mut output_vec: Vec<Vec<u32>> = Vec::new();
    let mut curr_input_vec: Vec<u32> = Vec::new();
    let mut c: usize = 0;
    while c < n
        invariant
            n == input_vec@.len(),
            c <= n,
            curr_input_vec@.len() == c,
            forall|i: int| 0 <= i < c ==> curr_input_vec@[i] == input_vec@[i],
        decreases n - c,
    {
        curr_input_vec.push(input_vec[c]);
        c = c + 1;
    }
    let mut p: usize = 1;
    while p <= max
        invariant
            modq > 0,
            sp == source_powers@,
            n == input_vec@.len(),
            max < usize::MAX,
            1 <= p <= max + 1,
            curr_input_vec@.len() == n,
            forall|i: int|
                0 <= i < n ==> (#[trigger] curr_input_vec@[i]) as int == power_chain(
                    input_vec@[i] as int,
                    p as int,
                    modq as int,
                ),
            output_vec@.len() == powers_upto(sp, p - 1).len(),
            forall|k: int| 0 <= k < output_vec@.len() ==> (#[trigger] output_vec@[k])@.len() == n,
            forall|k: int, i: int|
                0 <= k < output_vec@.len() && 0 <= i < n ==> (#[trigger] output_vec@[k]@[i])
                    as int == power_chain(
                    input_vec@[i] as int,
                    powers_upto(sp, p - 1)[k] as int,
                    modq as int,
                ),
        decreases max + 1 - p,
    {
        if crate::dag::contains_power(source_powers, p) {
            let mut copy: Vec<u32> = Vec::new();
            let mut c2: usize = 0;
            while c2 < n
                invariant
                    n == curr_input_vec@.len(),
                    c2 <= n,
                    copy@.len() == c2,
                    forall|i: int| 0 <= i < c2 ==> copy@[i] == curr_input_vec@[i],
                decreases n - c2,
            {
                copy.push(curr_input_vec[c2]);
                c2 = c2 + 1;
            }
            output_vec.push(copy);
        }
        let mut m: usize = 0;
        while m < n
            invariant
                modq > 0,
                1 <= p,
                n == input_vec@.len(),
                curr_input_vec@.len() == n,
                m <= n,
                forall|i: int|
                    0 <= i < m ==> (#[trigger] curr_input_vec@[i]) as int == power_chain(
                        input_vec@[i] as int,
                        p + 1,
                        modq as int,
                    ),
                forall|i: int|
                    m <= i < n ==> (#[trigger] curr_input_vec@[i]) as int == power_chain(
                        input_vec@[i] as int,
                        p as int,
                        modq as int,
                    ),
            decreases n - m,
        {
            let v: u32 = mul_mod(curr_input_vec[m], input_vec[m], modq);
            assert(power_chain(input_vec@[m as int] as int, p + 1, modq as int) == (power_chain(
                input_vec@[m as int] as int,
                p as int,
                modq as int,
            ) * input_vec@[m as int]) % (modq as int));
            curr_input_vec.set(m, v);
            m = m + 1;
        }
        p = p + 1;
    }
    output_vec
}

/// The query for one segment of a hash table: a vector of plaintext slots.
/// Logical row `r` takes the slots `r * s .. (r + 1) * s`, one for each chunk
/// of the value that is asked for there; rows that ask for nothing are zero.
pub struct InnerBoxQuery {
    pub data: Vec<u32>,
    pub psi_pt: PsiPlaintext,
}

impl InnerBoxQuery {
    /// The query that asks for nothing.
    pub fn new(ct_slots: &CiphertextSlots, psi_pt: &PsiPlaintext) -> (query: InnerBoxQuery)
        ensures
            query.psi_pt == *psi_pt,
            query.data@ == Seq::new(ct_slots.0 as nat, |i: int| 0u32),
    {
        let n: usize = ct_slots.0 as usize;
        let mut data: Vec<u32> = Vec::new();
        let mut i: usize = 0;
        while i < n
            invariant
                i <= n,
                data@.len() == i,
                forall|k: int| 0 <= k < i ==> data@[k] == 0,
            decreases n - i,
        {
            data.push(0);
            i = i + 1;
        }
        assert(data@ =~= Seq::new(ct_slots.0 as nat, |i: int| 0u32));
        InnerBoxQuery { data, psi_pt: *psi_pt }
    }

    /// The chunks of a value, one for each slot that it takes.
    pub fn value_chunks(&self, value: &U256) -> (chunks: Vec<u32>)
        requires
            self.psi_pt.wf(),
        ensures
            ints_of(chunks@) == chunks_of(
                value@,
                self.psi_pt.slots(),
                self.psi_pt.bfv_pt_bytes as int,
            ),
    {
        proof {
            lemma_slots_fit(self.psi_pt);
        }
        value_to_chunks(value, self.psi_pt.slots_required(), self.psi_pt.bytes_per_chunk())
    }

    /// Asks for the value of `entry` at logical row `row`.
    pub fn insert_entry(&mut self, row: u32, entry: &HashTableEntry)
        requires
            old(self).psi_pt.wf(),
            (row + 1) * old(self).psi_pt.slots() <= old(self).data@.len(),
        ensures
            final(self).psi_pt == old(self).psi_pt,
            final(self).data@.len() == old(self).data@.len(),
            forall|i: int|
                0 <= i < old(self).data@.len() ==> (#[trigger] final(self).data@[i]) as int == (
                if row * old(self).psi_pt.slots() <= i < (row + 1) * old(self).psi_pt.slots() {
                    crate::utils::le_value(
                        entry.0@,
                        (i - row * old(self).psi_pt.slots()) * old(self).psi_pt.bfv_pt_bytes,
                        old(self).psi_pt.bfv_pt_bytes as int,
                    )
                } else {
                    old(self).data@[i] as int
                }),
    {
        let ghost s: int = self.psi_pt.slots();
        proof {
            lemma_slots_fit(self.psi_pt);
            assert((row + 1) * s == row * s + s) by (nonlinear_arith);
        }
        let slots: u32 = self.psi_pt.slots_required();
        let len: usize = self.data.len();
        assert(row * slots + slots <= len);
        let real_row: usize = row as usize * slots as usize;
        let value_chunks: Vec<u32> = self.value_chunks(entry.entry_value());
        let ghost before = self.data@;
        let ghost bytes: int = self.psi_pt.bfv_pt_bytes as int;
        let mut k: usize = 0;
        while k < slots as usize
            invariant
                self.psi_pt == old(self).psi_pt,
                before == old(self).data@,
                s == old(self).psi_pt.slots(),
                slots == s,
                bytes == old(self).psi_pt.bfv_pt_bytes,
                real_row == row * s,
                real_row + s <= before.len(),
                before.len() <= usize::MAX,
                self.data@.len() == before.len(),
                k <= slots,
                ints_of(value_chunks@) == chunks_of(entry.0@, s, bytes),
                forall|i: int|
                    0 <= i < before.len() ==> (#[trigger] self.data@[i]) as int == (if real_row
                        <= i < real_row + k {
                        crate::utils::le_value(entry.0@, (i - real_row) * bytes, bytes)
                    } else {
                        before[i] as int
                    }),
            decreases slots - k,
        {
            assert(value_chunks@.len() == s) by {
                assert(ints_of(value_chunks@).len() == value_chunks@.len());
            }
            assert(value_chunks@[k as int] as int == ints_of(value_chunks@)[k as int]);
            self.data.set(real_row + k, value_chunks[k]);
            k = k + 1;
        }
    }

    /// Number of logical rows of a query vector.
    pub fn max_rows(ct_slots: &CiphertextSlots, psi_pt: &PsiPlaintext) -> (rows: u32)
        requires
            psi_pt.wf(),
        ensures
            rows == ct_slots.0 as int / psi_pt.slots(),
    {
        proof {
            lemma_slots_fit(*psi_pt);
        }
        ct_slots.0 / psi_pt.slots_required()
    }

    /// The labels that the response vectors of a segment hold at logical row
    /// `expected_row`: from each vector, the value that the slots of the row
    /// spell, chunk by chunk.
    pub fn process_segment_response_at_row(
        psi_pt: &PsiPlaintext,
        expected_row: u32,
        segment_response: &Vec<Vec<u32>>,
    ) -> (labels: Vec<U256>)
        requires
            psi_pt.wf(),
            forall|j: int|
                0 <= j < segment_response@.len() ==> (expected_row + 1) * psi_pt.slots() <= (
                #[trigger] segment_response@[j])@.len(),
        ensures
            labels@.len() == segment_response@.len(),
            forall|j: int|
                0 <= j < labels@.len() ==> (#[trigger] labels@[j])@ == bytes_of_chunks(
                    segment_response@[j]@.subrange(
                        expected_row * psi_pt.slots(),
                        (expected_row + 1) * psi_pt.slots(),
                    ),
                    psi_pt.bfv_pt_bytes as int,
                ),
    {
        let ghost s: int = psi_pt.slots();
        proof {
            lemma_slots_fit(*psi_pt);
            assert((expected_row + 1) * s == expected_row * s + s) by (nonlinear_arith);
        }
        let slots: u32 = psi_pt.slots_required();
        if segment_response.len() == 0 {
            return Vec::new();
        }
        let first_len: usize = segment_response[0].len();
        assert(expected_row * slots + slots <= first_len);
        let real_row: usize = expected_row as usize * slots as usize;
        let mut labels: Vec<U256> = Vec::new();
        let mut j: usize = 0;
        while j < segment_response.len()
            invariant
                psi_pt.wf(),
                s == psi_pt.slots(),
                slots == s,
                1 <= s <= 32,
                s * psi_pt.bfv_pt_bytes <= psi_pt.psi_pt_bytes,
                real_row == expected_row * s,
                (expected_row + 1) * s == real_row + s,
                forall|m: int|
                    0 <= m < segment_response@.len() ==> real_row + s <= (
                    #[trigger] segment_response@[m])@.len(),
                j <= segment_response@.len(),
                labels@.len() == j,
                forall|m: int|
                    0 <= m < j ==> (#[trigger] labels@[m])@ == bytes_of_chunks(
                        segment_response@[m]@.subrange(real_row as int, real_row + s),
                        psi_pt.bfv_pt_bytes as int,
                    ),
            decreases segment_response@.len() - j,
        {
            let res: &Vec<u32> = &segment_response[j];
            let res_len: usize = res.len();
            assert(real_row + slots <= res_len);
            let res_value_chunks: &[u32] = vstd::slice::slice_subrange(
                res.as_slice(),
                real_row,
                real_row + slots as usize,
            );
            proof {
                // the chunks fill as many bytes as they are chunks times bytes
                let b: int = psi_pt.bfv_pt_bytes as int;
                let total: int = s * b;
                assert(total / b == s) by {
                    vstd::arithmetic::div_mod::lemma_div_multiples_vanish(s, b);
                    assert(s * b == b * s) by (nonlinear_arith);
                }
            }
            let total_bytes: u32 = slots * psi_pt.bytes_per_chunk();
            let res_value: U256 = chunks_to_value(
                res_value_chunks,
                total_bytes,
                psi_pt.bytes_per_chunk(),
            );
            labels.push(res_value);
            j = j + 1;
        }
        labels
    }
}

/// The query for one hash table: one query vector for each segment.
pub struct HashTableQuery {
    pub ib_queries: Vec<InnerBoxQuery>,
    pub ht_size: HashTableSize,
    pub ct_slots: CiphertextSlots,
    pub psi_pt: PsiPlaintext,
    /// Number of logical rows of a query vector.
    pub ib_query_rows: u32,
}

/// The layout of the queries: that of the server's storage, but for the
/// number of columns, of which a query knows nothing.
pub open spec fn query_layout(ht_size: u32, ct_slots: u32, psi_pt: PsiPlaintext) -> Layout {
    Layout { psi_pt, ct_slots, columns: 1, ht_size }
}

/// What the query for segment `g` holds in slot `lane`: the chunk
/// `lane % s` of the value at row `g * rows + lane / s` of the hash table,
/// or `otherwise` where the table has no such row.
pub open spec fn asked_cell(
    table: Map<u32, HashTableEntry>,
    layout: Layout,
    g: int,
    lane: int,
    otherwise: int,
) -> int {
    let i: int = g * layout.rows() + lane / layout.slots();
    if 0 <= i < layout.ht_size && table.contains_key(i as u32) {
        chunk_of(table[i as u32].0@, lane % layout.slots(), layout)
    } else {
        otherwise
    }
}

impl HashTableQuery {
    pub open spec fn layout(&self) -> Layout {
        query_layout(self.ht_size.0, self.ct_slots.0, self.psi_pt)
    }

    /// One query vector of `ct_slots` slots for each segment.
    pub open spec fn wf(&self) -> bool {
        &&& self.layout().wf()
        &&& self.ib_query_rows == self.layout().rows()
        &&& self.ib_queries@.len() == self.layout().segments()
        &&& forall|g: int|
            0 <= g < self.ib_queries@.len() ==> (#[trigger] self.ib_queries@[g]).psi_pt
                == self.psi_pt && self.ib_queries@[g].data@.len() == self.ct_slots.0
    }

    /// Number of segments of a hash table: its rows by the logical rows of a
    /// query vector, rounded up.
    pub fn segments_count(
        ht_size: &HashTableSize,
        ct_slots: &CiphertextSlots,
        psi_pt: &PsiPlaintext,
    ) -> (segments: u32)
        requires
            query_layout(ht_size.0, ct_slots.0, *psi_pt).wf(),
        ensures
            segments == query_layout(ht_size.0, ct_slots.0, *psi_pt).segments(),
    {
        let layout: Layout = Layout {
            psi_pt: *psi_pt,
            ct_slots: ct_slots.0,
            columns: 1,
            ht_size: ht_size.0,
        };
        layout.segments_count()
    }

    /// The query that asks for nothing.
    pub fn new(ht_size: &HashTableSize, ct_slots: &CiphertextSlots, psi_pt: &PsiPlaintext) -> (query:
        HashTableQuery)
        requires
            query_layout(ht_size.0, ct_slots.0, *psi_pt).wf(),
        ensures
            query.wf(),
            query.layout() == query_layout(ht_size.0, ct_slots.0, *psi_pt),
            forall|g: int, lane: int|
                0 <= g < query.ib_queries@.len() && 0 <= lane < ct_slots.0
                    ==> #[trigger] query.ib_queries@[g].data@[lane] == 0,
    {
        let ib_query_rows: u32 = InnerBoxQuery::max_rows(ct_slots, psi_pt);
        let segments: u32 = HashTableQuery::segments_count(ht_size, ct_slots, psi_pt);
        let mut ib_queries: Vec<InnerBoxQuery> = Vec::new();
        let mut g: u32 = 0;
        while g < segments
            invariant
                g <= segments,
                ib_queries@.len() == g,
                forall|a: int|
                    0 <= a < g ==> (#[trigger] ib_queries@[a]).psi_pt == *psi_pt
                        && ib_queries@[a].data@ == Seq::new(ct_slots.0 as nat, |i: int| 0u32),
            decreases segments - g,
        {
            ib_queries.push(InnerBoxQuery::new(ct_slots, psi_pt));
            g = g + 1;
        }
        HashTableQuery {
            ib_queries,
            ht_size: *ht_size,
            ct_slots: *ct_slots,
            psi_pt: *psi_pt,
            ib_query_rows,
        }
    }

    /// Asks, for every row of the hash table that holds a value, for that
    /// value: at the logical row of the table row, in the query vector of its
    /// segment.
    pub fn process_hash_table(&mut self, hash_table: &HashMap<u32, HashTableEntry>)
        requires
            old(self).wf(),
        ensures
            final(self).wf(),
            final(self).layout() == old(self).layout(),
            forall|g: int, lane: int|
                0 <= g < final(self).ib_queries@.len() && 0 <= lane < old(self).ct_slots.0 ==> (
                #[trigger] final(self).ib_queries@[g].data@[lane]) as int == asked_cell(
                    hash_table@,
                    old(self).layout(),
                    g,
                    lane,
                    old(self).ib_queries@[g].data@[lane] as int,
                ),
    {
        broadcast use vstd::std_specs::hash::group_hash_axioms;

        let ghost pre: HashTableQuery = *self;
        let ghost layout: Layout = self.layout();
        let ghost s: int = layout.slots();
        let ghost rows: int = layout.rows();
        proof {
            lemma_layout_rows(layout);
            lemma_layout_segments(layout);
            lemma_slots_fit(layout.psi_pt);
        }
        let ht_size: u32 = self.ht_size.0;
        let mut i: u32 = 0;
        while i < ht_size
            invariant
                pre == *old(self),
                pre.wf(),
                layout == pre.layout(),
                self.ht_size == pre.ht_size,
                self.ct_slots == pre.ct_slots,
                self.psi_pt == pre.psi_pt,
                self.ib_query_rows == pre.ib_query_rows,
                self.wf(),
                s == layout.slots(),
                rows == layout.rows(),
                rows >= 1,
                1 <= s <= 32,
                rows * s == layout.ct_slots,
                ht_size == layout.ht_size,
                i <= ht_size,
                forall|g: int, lane: int|
                    0 <= g < self.ib_queries@.len() && 0 <= lane < layout.ct_slots ==> (
                    #[trigger] self.ib_queries@[g].data@[lane]) as int == (if g * rows + lane / s
                        < i {
                        asked_cell(hash_table@, layout, g, lane, pre.ib_queries@[g].data@[lane] as int)
                    } else {
                        pre.ib_queries@[g].data@[lane] as int
                    }),
            decreases ht_size - i,
        {
            let ghost before = self.ib_queries@;
            match hash_table.get(&i) {
                Some(entry) => {
                    // the logical row of table row i, and its segment
                    let ib_row: u32 = i % self.ib_query_rows;
                    let segment_index: u32 = i / self.ib_query_rows;
                    proof {
                        vstd::arithmetic::div_mod::lemma_fundamental_div_mod(i as int, rows);
                        vstd::arithmetic::div_mod::lemma_mod_bound(i as int, rows);
                        assert((ib_row + 1) * s <= rows * s) by (nonlinear_arith)
                            requires
                                ib_row < rows,
                                s >= 1,
                        ;
                        lemma_layout_segments(layout);
                        assert(0 <= i as int / layout.rows() < layout.segments());
                    }
                    self.ib_queries[segment_index as usize].insert_entry(ib_row, entry);
                    proof {
                        let g0: int = segment_index as int;
                        assert forall|g: int| 0 <= g < self.ib_queries@.len() implies (
                        #[trigger] self.ib_queries@[g]).psi_pt == self.psi_pt
                            && self.ib_queries@[g].data@.len() == self.ct_slots.0 by {
                            if g != g0 {
                                assert(self.ib_queries@[g] == before[g]);
                            }
                            assert(before[g].psi_pt == pre.psi_pt);
                        }
                        assert forall|g: int, lane: int|
                            0 <= g < self.ib_queries@.len() && 0 <= lane
                                < layout.ct_slots implies (
                        #[trigger] self.ib_queries@[g].data@[lane]) as int == (if g * rows + lane
                            / s < i + 1 {
                            asked_cell(
                                hash_table@,
                                layout,
                                g,
                                lane,
                                pre.ib_queries@[g].data@[lane] as int,
                            )
                        } else {
                            pre.ib_queries@[g].data@[lane] as int
                        }) by {
                            lemma_lane_split(lane, s, rows);
                            assert(before[g].data@[lane] as int == (if g * rows + lane / s < i {
                                asked_cell(
                                    hash_table@,
                                    layout,
                                    g,
                                    lane,
                                    pre.ib_queries@[g].data@[lane] as int,
                                )
                            } else {
                                pre.ib_queries@[g].data@[lane] as int
                            }));
                            if g != g0 {
                                assert(self.ib_queries@[g] == before[g]);
                                assert(g * rows + lane / s != i) by (nonlinear_arith)
                                    requires
                                        g != g0,
                                        i == rows * g0 + ib_row,
                                        0 <= ib_row < rows,
                                        0 <= lane / s < rows,
                                ;
                            } else {
                                assert(g * rows == rows * g0) by (nonlinear_arith)
                                    requires
                                        g == g0,
                                ;
                                if ib_row * s <= lane < (ib_row + 1) * s {
                                    assert(lane / s == ib_row && lane - ib_row * s == lane % s)
                                        by (nonlinear_arith)
                                        requires
                                            ib_row * s <= lane < (ib_row + 1) * s,
                                            lane == (lane / s) * s + lane % s,
                                            0 <= lane % s < s,
                                            s >= 1,
                                    ;
                                } else {
                                    assert(lane / s != ib_row) by (nonlinear_arith)
                                        requires
                                            !(ib_row * s <= lane < (ib_row + 1) * s),
                                            lane == (lane / s) * s + lane % s,
                                            0 <= lane % s < s,
                                            s >= 1,
                                    ;
                                }
                            }
                        }
                    }
                },
                None => {
                    proof {
                        assert forall|g: int, lane: int|
                            0 <= g < self.ib_queries@.len() && 0 <= lane
                                < layout.ct_slots implies (
                        #[trigger] self.ib_queries@[g].data@[lane]) as int == (if g * rows + lane
                            / s < i + 1 {
                            asked_cell(
                                hash_table@,
                                layout,
                                g,
                                lane,
                                pre.ib_queries@[g].data@[lane] as int,
                            )
                        } else {
                            pre.ib_queries@[g].data@[lane] as int
                        }) by {
                            assert(before[g].data@[lane] as int == (if g * rows + lane / s < i {
                                asked_cell(
                                    hash_table@,
                                    layout,
                                    g,
                                    lane,
                                    pre.ib_queries@[g].data@[lane] as int,
                                )
                            } else {
                                pre.ib_queries@[g].data@[lane] as int
                            }));
                        }
                    }
                },
            }
            i = i + 1;
        }
    }
}

/// An item of the query with the labels that the response holds for it.
pub ghost struct LabelsView {
    pub item: Seq<u8>,
    pub labels: Seq<Seq<u8>>,
}

/// The labels that the response vectors of a segment hold at logical row
/// `row`: one from each vector, spelled by the slots of the row.
pub open spec fn labels_at(segment: Seq<Seq<u32>>, layout: Layout, row: int) -> Seq<Seq<u8>> {
    Seq::new(
        segment.len(),
        |j: int|
            bytes_of_chunks(
                segment[j].subrange(row * layout.slots(), (row + 1) * layout.slots()),
                layout.psi_pt.bfv_pt_bytes as int,
            ),
    )
}

/// What the response holds for the values in the first `n` rows of a hash
/// table, in the order of the rows.
pub open spec fn responses_upto(
    table: Map<u32, HashTableEntry>,
    layout: Layout,
    response: Seq<Seq<Seq<u32>>>,
    n: int,
) -> Seq<LabelsView>
    decreases n,
{
    if n <= 0 {
        Seq::empty()
    } else {
        let before = responses_upto(table, layout, response, n - 1);
        let i: int = n - 1;
        if table.contains_key(i as u32) {
            before.push(
                LabelsView {
                    item: table[i as u32].0@,
                    labels: labels_at(response[i / layout.rows()], layout, i % layout.rows()),
                },
            )
        } else {
            before
        }
    }
}

/// What the responses for all the first `n` hash tables hold.
pub open spec fn all_responses_upto(
    tables: Seq<Map<u32, HashTableEntry>>,
    layout: Layout,
    responses: Seq<Seq<Seq<Seq<u32>>>>,
    n: int,
) -> Seq<LabelsView>
    decreases n,
{
    if n <= 0 {
        Seq::empty()
    } else {
        all_responses_upto(tables, layout, responses, n - 1) + responses_upto(
            tables[n - 1],
            layout,
            responses[n - 1],
            layout.ht_size as int,
        )
    }
}

/// The labels found, as mathematical values.
pub open spec fn labels_view(found: Seq<PotentialResponseLabels>) -> Seq<LabelsView> {
    Seq::new(
        found.len(),
        |k: int|
            LabelsView {
                item: found[k].item@,
                labels: Seq::new(found[k].labels@.len(), |j: int| found[k].labels@[j]@),
            },
    )
}

/// Every response vector has one slot for each slot of a ciphertext, and
/// there is a list of them for each segment.
pub open spec fn response_shaped(response: Seq<Vec<Vec<u32>>>, layout: Layout) -> bool {
    &&& response.len() == layout.segments()
    &&& forall|g: int, j: int|
        0 <= g < response.len() && 0 <= j < response[g]@.len() ==> (#[trigger] response[g]@[j])@.len()
            == layout.ct_slots
}

impl HashTableQuery {
    /// The source powers of every query vector: for each segment, one vector
    /// for each power that occurs in `source_powers`, in ascending order.
    pub fn process_inner_box_queries_with_source_powers(
        &self,
        source_powers: &[usize],
        modq: u32,
    ) -> (out: Vec<Vec<Vec<u32>>>)
        requires
            self.wf(),
            modq > 0,
            max_power(source_powers@) < usize::MAX,
        ensures
            out@.len() == self.ib_queries@.len(),
            forall|g: int|
                0 <= g < out@.len() ==> (#[trigger] out@[g])@.len() == powers_upto(
                    source_powers@,
                    max_power(source_powers@),
                ).len(),
            forall|g: int, k: int|
                0 <= g < out@.len() && 0 <= k < out@[g]@.len() ==> (#[trigger] out@[g]@[k])@.len()
                    == self.ct_slots.0,
            forall|g: int, k: int, lane: int|
                0 <= g < out@.len() && 0 <= k < out@[g]@.len() && 0 <= lane < self.ct_slots.0 ==> (
                #[trigger] out@[g]@[k]@[lane]) as int == power_chain(
                    self.ib_queries@[g].data@[lane] as int,
                    powers_upto(source_powers@, max_power(source_powers@))[k] as int,
                    modq as int,
                ),
    {
        let n: usize = self.ib_queries.len();
        let mut out: Vec<Vec<Vec<u32>>> = Vec::new();
        let mut g: usize = 0;
        while g < n
            invariant
                self.wf(),
                modq > 0,
                max_power(source_powers@) < usize::MAX,
                n == self.ib_queries@.len(),
                g <= n,
                out@.len() == g,
                forall|a: int|
                    0 <= a < g ==> (#[trigger] out@[a])@.len() == powers_upto(
                        source_powers@,
                        max_power(source_powers@),
                    ).len(),
                forall|a: int, k: int|
                    0 <= a < g && 0 <= k < out@[a]@.len() ==> (#[trigger] out@[a]@[k])@.len()
                        == self.ct_slots.0,
                forall|a: int, k: int, lane: int|
                    0 <= a < g && 0 <= k < out@[a]@.len() && 0 <= lane < self.ct_slots.0 ==> (
                    #[trigger] out@[a]@[k]@[lane]) as int == power_chain(
                        self.ib_queries@[a].data@[lane] as int,
                        powers_upto(source_powers@, max_power(source_powers@))[k] as int,
                        modq as int,
                    ),
            decreases n - g,
        {
            assert(self.ib_queries@[g as int].data@.len() == self.ct_slots.0);
            let q_source_powers: Vec<Vec<u32>> = calculate_source_powers(
                self.ib_queries[g].data.as_slice(),
                source_powers,
                modq,
            );
            let ghost before = out@;
            out.push(q_source_powers);
            proof {
                assert forall|a: int, k: int|
                    0 <= a < g + 1 && 0 <= k < out@[a]@.len() implies (#[trigger] out@[a]@[k])@.len()
                    == self.ct_slots.0 by {
                    if a < g {
                        assert(out@[a] == before[a]);
                    }
                }
                assert forall|a: int, k: int, lane: int|
                    0 <= a < g + 1 && 0 <= k < out@[a]@.len() && 0 <= lane
                        < self.ct_slots.0 implies (#[trigger] out@[a]@[k]@[lane]) as int
                    == power_chain(
                    self.ib_queries@[a].data@[lane] as int,
                    powers_upto(source_powers@, max_power(source_powers@))[k] as int,
                    modq as int,
                ) by {
                    if a < g {
                        assert(out@[a] == before[a]);
                    }
                }
            }
            g = g + 1;
        }
        out
    }

    /// What the decrypted response for a hash table holds for the values of
    /// the client's table: for every row of the table that holds a value, in
    /// the order of the rows, the value with the labels that the response
    /// vectors of its segment hold at its logical row.
    pub fn process_hash_table_query_response(
        psi_params: &PsiParams,
        hash_table: &HashMap<u32, HashTableEntry>,
        segment_responses: &Vec<Vec<Vec<u32>>>,
    ) -> (found: Vec<PotentialResponseLabels>)
        requires
            psi_params.eval_degree.0 < u32::MAX,
            psi_params.layout_spec().wf(),
            response_shaped(segment_responses@, psi_params.layout_spec()),
        ensures
            labels_view(found@) == responses_upto(
                hash_table@,
                psi_params.layout_spec(),
                rows3(segment_responses@),
                psi_params.layout_spec().ht_size as int,
            ),
    {
        broadcast use vstd::std_specs::hash::group_hash_axioms;

        let layout: Layout = psi_params.layout();
        let inner_box_max_rows: u32 = layout.inner_box_rows();
        let ghost s: int = layout.slots();
        let ghost rows: int = layout.rows();
        let ghost resp = rows3(segment_responses@);
        proof {
            lemma_layout_rows(layout);
        }
        let ht_size: u32 = layout.ht_size;
        let mut response: Vec<PotentialResponseLabels> = Vec::new();
        let mut i: u32 = 0;
        while i < ht_size
            invariant
                layout.wf(),
                response_shaped(segment_responses@, layout),
                resp == rows3(segment_responses@),
                s == layout.slots(),
                rows == layout.rows(),
                inner_box_max_rows == rows,
                rows >= 1,
                s >= 1,
                rows * s == layout.ct_slots,
                ht_size == layout.ht_size,
                i <= ht_size,
                labels_view(response@) == responses_upto(hash_table@, layout, resp, i as int),
            decreases ht_size - i,
        {
            match hash_table.get(&i) {
                Some(entry) => {
                    // the segment of the response for table row i, and its
                    // logical row there
                    let segment_index: u32 = i / inner_box_max_rows;
                    let expected_ib_row: u32 = i % inner_box_max_rows;
                    proof {
                        lemma_layout_segments(layout);
                        assert(0 <= i as int / layout.rows() < layout.segments());
                        vstd::arithmetic::div_mod::lemma_mod_bound(i as int, rows);
                        assert((expected_ib_row + 1) * s <= rows * s) by (nonlinear_arith)
                            requires
                                expected_ib_row < rows,
                                s >= 1,
                        ;
                    }
                    let segment_response: &Vec<Vec<u32>> = &segment_responses[segment_index as usize];
                    let potential_responses: Vec<U256> =
                        InnerBoxQuery::process_segment_response_at_row(
                        &layout.psi_pt,
                        expected_ib_row,
                        segment_response,
                    );
                    let ghost before = response@;
                    response.push(
                        PotentialResponseLabels {
                            item: *entry.entry_value(),
                            labels: potential_responses,
                        },
                    );
                    proof {
                        let expected = labels_at(
                            resp[i as int / rows],
                            layout,
                            i as int % rows,
                        );
                        let got = Seq::new(
                            potential_responses@.len(),
                            |j: int| potential_responses@[j]@,
                        );
                        assert(got =~= expected) by {
                            assert(resp[i as int / rows] == rows2(segment_response@));
                            assert forall|j: int| 0 <= j < got.len() implies got[j]
                                == expected[j] by {
                                assert(rows2(segment_response@)[j] == segment_response@[j]@);
                            }
                        }
                        assert(labels_view(response@) =~= labels_view(before).push(
                            LabelsView { item: entry.0@, labels: expected },
                        ));
                    }
                },
                None => {},
            }
            i = i + 1;
        }
        response
    }
}

/// What the client keeps of a query: the vectors to encrypt and send, the
/// hash tables, and the stack of the values that found no place in them.
pub struct QueryState {
    /// The query vectors: by hash table, by segment, by source power.
    pub query: Vec<Vec<Vec<Vec<u32>>>>,
    pub hash_tables: Vec<HashMap<u32, HashTableEntry>>,
    pub hash_table_stack: Vec<HashTableEntry>,
}

impl QueryState {
    pub fn query(&self) -> (query: &Vec<Vec<Vec<Vec<u32>>>>)
        ensures
            *query == self.query,
    {
        &self.query
    }

    pub fn hash_tables(&self) -> (tables: &[HashMap<u32, HashTableEntry>])
        ensures
            tables@ == self.hash_tables@,
    {
        self.hash_tables.as_slice()
    }

    pub fn hash_table_stack(&self) -> (stack: &[HashTableEntry])
        ensures
            stack@ == self.hash_table_stack@,
    {
        self.hash_table_stack.as_slice()
    }
}

/// The entries that a query set gives: each value, bound for the first table.
pub open spec fn entries_of(query_set: Seq<U256>) -> Seq<HashTableEntry> {
    Seq::new(query_set.len(), |i: int| HashTableEntry(query_set[i], 0))
}

/// The hasher of the parameters.
pub open spec fn cuckoo_of(psi_params: PsiParams) -> Cuckoo {
    Cuckoo { no_of_tables: psi_params.no_of_hash_tables, table_size: psi_params.ht_size.0 }
}

/// The layout of the queries for the parameters.
pub open spec fn query_layout_of(psi_params: PsiParams) -> Layout {
    query_layout(psi_params.ht_size.0, psi_params.ct_slots.0, psi_params.psi_pt)
}

/// The queries have the rows, slots and segments of the server's storage.
pub proof fn lemma_query_layout(psi_params: PsiParams)
    requires
        psi_params.layout_spec().wf(),
    ensures
        query_layout_of(psi_params).wf(),
        query_layout_of(psi_params).slots() == psi_params.layout_spec().slots(),
        query_layout_of(psi_params).rows() == psi_params.layout_spec().rows(),
        query_layout_of(psi_params).segments() == psi_params.layout_spec().segments(),
{
    let layout = query_layout_of(psi_params);
    let full = psi_params.layout_spec();
    assert(layout.ct_slots * layout.columns == layout.ct_slots) by (nonlinear_arith)
        requires
            layout.columns == 1,
    ;
    assert(full.ct_slots * full.columns >= full.ct_slots) by (nonlinear_arith)
        requires
            full.columns >= 1,
    ;
}

/// The query vectors ask for the values of the tables: there is a vector of
/// `ct_slots` slots for each hash table, segment and source power, in the
/// ascending order of the powers; its slots hold that power of what the
/// table asks for at the slot (zero where the table has no value).
pub open spec fn query_asks(
    query: Seq<Seq<Seq<Seq<u32>>>>,
    tables: Seq<Map<u32, HashTableEntry>>,
    psi_params: PsiParams,
) -> bool {
    let powers = powers_upto(psi_params.source_powers@, max_power(psi_params.source_powers@));
    let layout = query_layout_of(psi_params);
    &&& query.len() == psi_params.no_of_hash_tables
    &&& forall|b: int| 0 <= b < query.len() ==> (#[trigger] query[b]).len() == layout.segments()
    &&& forall|b: int, g: int|
        0 <= b < query.len() && 0 <= g < query[b].len() ==> (#[trigger] query[b][g]).len()
            == powers.len()
    &&& forall|b: int, g: int, k: int|
        0 <= b < query.len() && 0 <= g < query[b].len() && 0 <= k < query[b][g].len() ==> (
        #[trigger] query[b][g][k]).len() == psi_params.ct_slots.0
    &&& forall|b: int, g: int, k: int, lane: int|
        0 <= b < query.len() && 0 <= g < query[b].len() && 0 <= k < query[b][g].len() && 0
            <= lane < query[b][g][k].len() ==> (#[trigger] query[b][g][k][lane]) as int
            == power_chain(
            asked_cell(tables[b], layout, g, lane, 0),
            powers[k] as int,
            psi_params.psi_pt.bfv_pt as int,
        )
}

/// Builds the query for a set of values: hashes the values into the tables,
/// asks in each table's query for the values that the table holds, and raises
/// every query vector to the source powers.
pub fn construct_query(query_set: &[U256], psi_params: &PsiParams) -> (state: QueryState)
    requires
        psi_params.wf(),
        max_power(psi_params.source_powers@) < usize::MAX,
    ensures
        tables_view(state.hash_tables@) == build(
            cuckoo_of(*psi_params),
            entries_of(query_set@),
            query_set@.len() as int,
        ).tables,
        state.hash_table_stack@ == build(
            cuckoo_of(*psi_params),
            entries_of(query_set@),
            query_set@.len() as int,
        ).stack,
        query_asks(rows4(state.query@), tables_view(state.hash_tables@), *psi_params),
{
    let n: usize = query_set.len();
    let mut ht_entries: Vec<HashTableEntry> = Vec::new();
    let mut i: usize = 0;
    while i < n
        invariant
            n == query_set@.len(),
            i <= n,
            ht_entries@.len() == i,
            forall|k: int| 0 <= k < i ==> #[trigger] ht_entries@[k] == HashTableEntry(query_set@[k], 0),
        decreases n - i,
    {
        ht_entries.push(HashTableEntry::new(query_set[i]));
        i = i + 1;
    }
    assert(ht_entries@ =~= entries_of(query_set@));
    let cuckoo: Cuckoo = Cuckoo::new(psi_params.no_of_hash_tables, psi_params.ht_size.0);
    // each hash table is a map from the rows that hold a value to the values
    let tables_and_stack: (Vec<HashMap<u32, HashTableEntry>>, Vec<HashTableEntry>) =
        construct_hash_tables(ht_entries.as_slice(), &cuckoo);
    let hash_tables: Vec<HashMap<u32, HashTableEntry>> = tables_and_stack.0;
    let stack: Vec<HashTableEntry> = tables_and_stack.1;
    let ghost layout: Layout = query_layout_of(*psi_params);
    let modq: u32 = psi_params.psi_pt.bfv_pt;
    proof {
        crate::utils::lemma_pow256_values();
        crate::hash::lemma_build_places_all(cuckoo, ht_entries@, n as int);
        assert(tables_view(hash_tables@).len() == cuckoo.no_of_tables);
        assert(layout.ct_slots * layout.columns == psi_params.ct_slots.0) by (nonlinear_arith)
            requires
                layout.ct_slots == psi_params.ct_slots.0,
                layout.columns == 1,
        ;
        assert(psi_params.layout_spec().ct_slots * psi_params.layout_spec().columns
            >= psi_params.ct_slots.0) by (nonlinear_arith)
            requires
                psi_params.layout_spec().ct_slots == psi_params.ct_slots.0,
                psi_params.layout_spec().columns >= 1,
        ;
        assert(layout.wf());
    }
    let h: usize = hash_tables.len();
    let mut query: Vec<Vec<Vec<Vec<u32>>>> = Vec::new();
    let mut b: usize = 0;
    while b < h
        invariant
            layout == query_layout_of(*psi_params),
            layout.wf(),
            modq == psi_params.psi_pt.bfv_pt,
            modq > 0,
            max_power(psi_params.source_powers@) < usize::MAX,
            h == hash_tables@.len(),
            b <= h,
            query@.len() == b,
            forall|a: int| 0 <= a < b ==> (#[trigger] query@[a])@.len() == layout.segments(),
            forall|a: int, g: int|
                0 <= a < b && 0 <= g < query@[a]@.len() ==> (#[trigger] query@[a]@[g])@.len()
                    == powers_upto(
                    psi_params.source_powers@,
                    max_power(psi_params.source_powers@),
                ).len(),
            forall|a: int, g: int, k: int|
                0 <= a < b && 0 <= g < query@[a]@.len() && 0 <= k < query@[a]@[g]@.len() ==> (
                #[trigger] query@[a]@[g]@[k])@.len() == psi_params.ct_slots.0,
            forall|a: int, g: int, k: int, lane: int|
                0 <= a < b && 0 <= g < query@[a]@.len() && 0 <= k < query@[a]@[g]@.len() && 0
                    <= lane < psi_params.ct_slots.0 ==> (#[trigger] query@[a]@[g]@[k]@[lane])
                    as int == power_chain(
                    asked_cell(hash_tables@[a]@, layout, g, lane, 0),
                    powers_upto(
                        psi_params.source_powers@,
                        max_power(psi_params.source_powers@),
                    )[k] as int,
                    modq as int,
                ),
        decreases h - b,
    {
        let mut ht_query: HashTableQuery = HashTableQuery::new(
            &psi_params.ht_size,
            &psi_params.ct_slots,
            &psi_params.psi_pt,
        );
        ht_query.process_hash_table(&hash_tables[b]);
        let vectors: Vec<Vec<Vec<u32>>> = ht_query.process_inner_box_queries_with_source_powers(
            psi_params.source_powers.as_slice(),
            modq,
        );
        proof {
            assert forall|g: int, k: int, lane: int|
                0 <= g < vectors@.len() && 0 <= k < vectors@[g]@.len() && 0 <= lane
                    < psi_params.ct_slots.0 implies (#[trigger] vectors@[g]@[k]@[lane]) as int
                == power_chain(
                asked_cell(hash_tables@[b as int]@, layout, g, lane, 0),
                powers_upto(psi_params.source_powers@, max_power(psi_params.source_powers@))[k]
                    as int,
                modq as int,
            ) by {
                assert(ht_query.ib_queries@[g].data@[lane] as int == asked_cell(
                    hash_tables@[b as int]@,
                    layout,
                    g,
                    lane,
                    0,
                ));
            }
        }
        query.push(vectors);
        b = b + 1;
    }
    proof {
        let asked = rows4(query@);
        let tables = tables_view(hash_tables@);
        assert forall|a: int, g: int, k: int, lane: int|
            0 <= a < asked.len() && 0 <= g < asked[a].len() && 0 <= k < asked[a][g].len() && 0
                <= lane < asked[a][g][k].len() implies (#[trigger] asked[a][g][k][lane]) as int
            == power_chain(
            asked_cell(tables[a], layout, g, lane, 0),
            powers_upto(psi_params.source_powers@, max_power(psi_params.source_powers@))[k]
                as int,
            modq as int,
        ) by {
            assert(asked[a][g][k][lane] == query@[a]@[g]@[k]@[lane]);
        }
        assert forall|a: int, g: int, k: int|
            0 <= a < asked.len() && 0 <= g < asked[a].len() && 0 <= k
                < asked[a][g].len() implies (#[trigger] asked[a][g][k]).len()
            == psi_params.ct_slots.0 by {
            assert(asked[a][g][k] == query@[a]@[g]@[k]@);
        }
        assert forall|a: int, g: int| 0 <= a < asked.len() && 0 <= g < asked[a].len() implies (
        #[trigger] asked[a][g]).len() == powers_upto(
            psi_params.source_powers@,
            max_power(psi_params.source_powers@),
        ).len() by {
            assert(asked[a][g].len() == query@[a]@[g]@.len());
        }
        assert forall|a: int| 0 <= a < asked.len() implies (#[trigger] asked[a]).len()
            == layout.segments() by {
            assert(asked[a].len() == query@[a]@.len());
        }
    }
    QueryState { query, hash_tables, hash_table_stack: stack }
}

/// What the decrypted response holds for the values of the client's hash
/// tables: the findings for the first table, then those for the second, and
/// so on.
pub fn process_query_response(
    psi_params: &PsiParams,
    hash_table: &[HashMap<u32, HashTableEntry>],
    query_response: &Vec<Vec<Vec<Vec<u32>>>>,
) -> (found: Vec<PotentialResponseLabels>)
    requires
        psi_params.eval_degree.0 < u32::MAX,
        psi_params.layout_spec().wf(),
        query_response@.len() == psi_params.no_of_hash_tables,
        hash_table@.len() == psi_params.no_of_hash_tables,
        forall|b: int|
            0 <= b < query_response@.len() ==> response_shaped(
                (#[trigger] query_response@[b])@,
                psi_params.layout_spec(),
            ),
    ensures
        labels_view(found@) == all_responses_upto(
            Seq::new(hash_table@.len(), |b: int| hash_table@[b]@),
            psi_params.layout_spec(),
            Seq::new(query_response@.len(), |b: int| rows3(query_response@[b]@)),
            query_response@.len() as int,
        ),
{
    let ghost tables = Seq::new(hash_table@.len(), |b: int| hash_table@[b]@);
    let ghost responses = Seq::new(query_response@.len(), |b: int| rows3(query_response@[b]@));
    let ghost layout = psi_params.layout_spec();
    let h: usize = query_response.len();
    let mut potential_response_labels: Vec<PotentialResponseLabels> = Vec::new();
    let mut ht_index: usize = 0;
    while ht_index < h
        invariant
            psi_params.eval_degree.0 < u32::MAX,
            layout == psi_params.layout_spec(),
            layout.wf(),
            h == query_response@.len(),
            h == hash_table@.len(),
            tables == Seq::new(hash_table@.len(), |b: int| hash_table@[b]@),
            responses == Seq::new(query_response@.len(), |b: int| rows3(query_response@[b]@)),
            forall|b: int|
                0 <= b < query_response@.len() ==> response_shaped(
                    (#[trigger] query_response@[b])@,
                    layout,
                ),
            ht_index <= h,
            labels_view(potential_response_labels@) == all_responses_upto(
                tables,
                layout,
                responses,
                ht_index as int,
            ),
        decreases h - ht_index,
    {
        let mut found: Vec<PotentialResponseLabels> =
            HashTableQuery::process_hash_table_query_response(
            psi_params,
            &hash_table[ht_index],
            &query_response[ht_index],
        );
        let ghost before = potential_response_labels@;
        let ghost added = found@;
        potential_response_labels.append(&mut found);
        proof {
            assert(labels_view(potential_response_labels@) =~= labels_view(before) + labels_view(
                added,
            ));
        }
        ht_index = ht_index + 1;
    }
    potential_response_labels
}

/// The label is among the labels.
pub open spec fn among(labels: Seq<U256>, label: Seq<u8>) -> bool {
    exists|j: int| 0 <= j < labels.len() && (#[trigger] labels[j])@ == label
}

/// The findings confirm the pair: every finding for the item of the pair
/// has the label of the pair among its labels.
pub open spec fn pair_confirmed(found: Seq<PotentialResponseLabels>, il: ItemLabel) -> bool {
    forall|e: int|
        0 <= e < found.len() && (#[trigger] found[e]).item@ == il.item@ ==> among(
            found[e].labels@,
            il.label@,
        )
}

/// Whether the label is among the labels.
fn label_among(labels: &Vec<U256>, label: &U256) -> (b: bool)
    ensures
        b == among(labels@, label@),
{
    let mut j: usize = 0;
    while j < labels.len()
        invariant
            j <= labels@.len(),
            forall|m: int| 0 <= m < j ==> (#[trigger] labels@[m])@ != label@,
        decreases labels@.len() - j,
    {
        if labels[j].equals(label) {
            return true;
        }
        j = j + 1;
    }
    false
}

/// Whether the value lies on the stack.
fn value_on_stack(stack: &[HashTableEntry], value: &U256) -> (b: bool)
    ensures
        b == on_stack(stack@, value@),
{
    let mut j: usize = 0;
    while j < stack.len()
        invariant
            j <= stack@.len(),
            forall|m: int| 0 <= m < j ==> (#[trigger] stack@[m]).0@ != value@,
        decreases stack@.len() - j,
    {
        if stack[j].0.equals(value) {
            return true;
        }
        j = j + 1;
    }
    false
}

/// Whether the findings confirm the pair.
fn confirms_pair(found: &[PotentialResponseLabels], il: &ItemLabel) -> (b: bool)
    ensures
        b == pair_confirmed(found@, *il),
{
    let mut e: usize = 0;
    while e < found.len()
        invariant
            e <= found@.len(),
            forall|m: int|
                0 <= m < e && (#[trigger] found@[m]).item@ == il.item@ ==> among(
                    found@[m].labels@,
                    il.label@,
                ),
        decreases found@.len() - e,
    {
        if found[e].item.equals(il.item()) && !label_among(&found[e].labels, il.label()) {
            return false;
        }
        e = e + 1;
    }
    true
}

/// Whether the findings confirm the pairs that the client expects: for every
/// pair whose item did not go on the stack, every finding for the item has
/// the label of the pair among its labels.
pub fn response_confirms(
    item_labels: &[ItemLabel],
    stack: &[HashTableEntry],
    found: &[PotentialResponseLabels],
) -> (ok: bool)
    ensures
        ok == forall|i: int|
            0 <= i < item_labels@.len() && !on_stack(stack@, (#[trigger] item_labels@[i]).item@)
                ==> pair_confirmed(found@, item_labels@[i]),
{
    let mut i: usize = 0;
    while i < item_labels.len()
        invariant
            i <= item_labels@.len(),
            forall|m: int|
                0 <= m < i && !on_stack(stack@, (#[trigger] item_labels@[m]).item@)
                    ==> pair_confirmed(found@, item_labels@[m]),
        decreases item_labels@.len() - i,
    {
        // an item on the stack was not asked for
        if !value_on_stack(stack, item_labels[i].item()) && !confirms_pair(found, &item_labels[i]) {
            return false;
        }
        i = i + 1;
    }
    true
}

} // verus!
