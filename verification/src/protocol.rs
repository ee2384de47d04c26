//! What the client learns: the label of every item of its query that the
//! server holds, stated from the query vectors to the labels read from the
//! response, on the plaintext slots.

use crate::big_box::{
    big_box_with, first_fit, lemma_first_fit_fits, segment_powers, segment_view, segment_wf,
    segment_with, BigBox,
};
use crate::client::{
    all_responses_upto, asked_cell, cuckoo_of, entries_of, labels_at, lemma_query_layout,
    max_power, power_chain, powers_upto, query_asks, query_layout_of, responses_upto, LabelsView,
};
use crate::db::{db_response, lemma_table_indices_in_range};
use crate::dag::{available, dag_ordered, lemma_dag_ordered, Node};
use crate::field::{
    congruent, is_prime, lemma_congruent_mod, lemma_congruent_mul, lemma_congruent_refl,
    lemma_congruent_trans,
};
use crate::hash::{
    build, in_tables, lemma_build_places_all, on_stack, table_indices_of, Cuckoo, HashTableEntry,
};
use crate::inner_box::{
    chunk_of, interpolable, item_cell, label_cell, lemma_box_polynomials, lemma_lane_of,
    lemma_prime_interpolable, Entries, InnerBox,
};
use crate::params::{lemma_layout_rows, lemma_layout_segments, Layout, PsiParams};
use crate::paterson_stockmeyer::{
    lemma_ps_value, ps_value, ps_values, slot, slot_holds_powers, target_powers,
};
use crate::server::{boxes_after, items_after, ItemLabel, Server};
use crate::powers::{lemma_power_plan, sources_are_powers, sources_shaped};
use crate::utils::{
    bytes_of_chunks, chunks_of, ints_of, lemma_chunks_round_trip, lemma_pow256_values, U256,
};
use vstd::arithmetic::div_mod::{lemma_fundamental_div_mod, lemma_mod_bound};
use vstd::arithmetic::power::{lemma_pow1, lemma_pow_adds, pow};
use vstd::prelude::*;

verus! {

/// The slots of logical row `row` hold the chunks of `value`.
pub open spec fn row_holds(xs: Seq<int>, psi_params: PsiParams, row: int, value: Seq<u8>) -> bool {
    forall|k: int|
        0 <= k < psi_params.layout_spec().slots() ==> #[trigger] xs[row * psi_params.layout_spec().slots()
            + k] == chunk_of(value, k, psi_params.layout_spec())
}

/// A box answers a query for one of its items with the label of the item.
/// Where the query vectors hold the source powers of `xs`, and `xs` holds,
/// at the slots of logical row `row`, the chunks of the item of the pair in
/// column `c` of that row, the response of the box holds the chunks of the
/// label of the pair at these slots.
pub proof fn lemma_box_answers(
    ib: InnerBox,
    query: Seq<Seq<u32>>,
    psi_params: PsiParams,
    dag: Map<usize, Node>,
    xs: Seq<int>,
    row: int,
    c: int,
    k: int,
)
    requires
        psi_params.wf(),
        ib.wf(),
        ib.interpolated(),
        interpolable(ib.entries@, ib.layout),
        ib.layout == psi_params.layout_spec(),
        dag_ordered(
            dag,
            psi_params.source_powers@,
            psi_params.ps_params.powers@,
            psi_params.ps_params.powers@.len() as int,
        ),
        sources_shaped(query, psi_params.source_powers@, psi_params.ct_slots.0 as int),
        sources_are_powers(query, psi_params.source_powers@, xs, psi_params.psi_pt.bfv_pt as int),
        0 <= row < ib.layout.rows(),
        0 <= c < ib.entries@[row].len(),
        row_holds(xs, psi_params, row, ib.entries@[row][c].item@),
        0 <= k < ib.layout.slots(),
    ensures
        ps_values(
            ib.coefficients_data@,
            segment_powers(query, psi_params, dag),
            psi_params.ps_params.low_degree as int,
            psi_params.ps_params.total_degree as int,
            psi_params.psi_pt.bfv_pt as int,
        )[row * ib.layout.slots() + k] as int == chunk_of(ib.entries@[row][c].label@, k, ib.layout),
{
    let layout = ib.layout;
    let s = layout.slots();
    let q = psi_params.psi_pt.bfv_pt as int;
    let low = psi_params.ps_params.low_degree as int;
    let total = psi_params.ps_params.total_degree as int;
    let sources = psi_params.source_powers@;
    let targets = psi_params.ps_params.powers@;
    let powers = segment_powers(query, psi_params, dag);
    let lane = row * s + k;
    let coefficients = ib.coefficients_data@;
    lemma_pow256_values();
    lemma_layout_rows(layout);
    lemma_lane_of(row, k, s);
    assert(0 <= lane < layout.ct_slots) by (nonlinear_arith)
        requires
            lane == row * s + k,
            0 <= k < s,
            0 <= row < layout.rows(),
            layout.rows() * s == layout.ct_slots,
    ;
    lemma_power_plan(sources, targets, dag, low, query, q, layout.ct_slots as int, xs);
    assert(slot_holds_powers(powers, target_powers(low, total), lane, xs[lane], q)) by {
        assert forall|i: int| 0 <= i < targets.len() implies congruent_at(
            powers,
            #[trigger] targets[i],
            lane,
            xs[lane],
            q,
        ) by {
            assert(available(sources, targets, targets.len() as int, targets[i]));
            assert(powers.contains_key(targets[i]));
            assert(powers[targets[i]].len() == layout.ct_slots);
            assert(crate::field::congruent(
                powers[targets[i]][lane] as int,
                pow(xs[lane], targets[i] as nat),
                q,
            ));
        }
    }
    lemma_ps_value(powers, coefficients[lane], lane, low, total, xs[lane], q);
    lemma_box_polynomials(ib, lane, c);
    assert(item_cell(ib.entries@, layout, lane, c) == xs[lane]);
    assert(label_cell(ib.entries@, layout, lane, c) == chunk_of(
        ib.entries@[row][c].label@,
        k,
        layout,
    ));
    lemma_mod_bound(ps_value(powers, coefficients[lane], lane, low, total), q);
}

/// Slot `lane` of the power `p` holds that power of `x` modulo `q`.
pub open spec fn congruent_at(powers: Map<usize, Seq<u32>>, p: usize, lane: int, x: int, q: int) -> bool {
    crate::field::congruent(slot(powers, p as int, lane), pow(x, p as nat), q)
}

/// Slots that hold the chunks of a label spell the label. The chunks must
/// cover the 32 bytes of a value.
pub proof fn lemma_label_read(response: Seq<u32>, psi_params: PsiParams, row: int, label: Seq<u8>)
    requires
        psi_params.wf(),
        psi_params.layout_spec().slots() * psi_params.psi_pt.bfv_pt_bytes == 32,
        label.len() == 32,
        0 <= row,
        (row + 1) * psi_params.layout_spec().slots() <= response.len(),
        forall|k: int|
            0 <= k < psi_params.layout_spec().slots() ==> (#[trigger] response[row
                * psi_params.layout_spec().slots() + k]) as int == chunk_of(
                label,
                k,
                psi_params.layout_spec(),
            ),
    ensures
        bytes_of_chunks(
            response.subrange(
                row * psi_params.layout_spec().slots(),
                (row + 1) * psi_params.layout_spec().slots(),
            ),
            psi_params.psi_pt.bfv_pt_bytes as int,
        ) == label,
{
    let layout = psi_params.layout_spec();
    let s = layout.slots();
    let bytes = psi_params.psi_pt.bfv_pt_bytes as int;
    assert((row + 1) * s == row * s + s && row * s >= 0) by (nonlinear_arith)
        requires
            row >= 0,
            s >= 0,
    ;
    let chunks = response.subrange(row * s, (row + 1) * s);
    assert(ints_of(chunks) =~= chunks_of(label, s, bytes)) by {
        assert forall|k: int| 0 <= k < s implies ints_of(chunks)[k] == chunks_of(label, s, bytes)[k] by {
            assert(chunks[k] == response[row * s + k]);
        }
    }
    lemma_chunks_round_trip(label, chunks, s, bytes);
}

/// A power by repeated multiplication modulo `q` is the power modulo `q`.
pub proof fn lemma_power_chain(x: int, p: int, q: int)
    requires
        q > 0,
        p >= 1,
    ensures
        congruent(power_chain(x, p, q), pow(x, p as nat), q),
    decreases p,
{
    if p == 1 {
        lemma_pow1(x);
        lemma_congruent_refl(x, q);
    } else {
        lemma_power_chain(x, p - 1, q);
        let before = power_chain(x, p - 1, q);
        lemma_congruent_refl(x, q);
        lemma_congruent_mul(before, pow(x, (p - 1) as nat), x, x, q);
        lemma_pow_adds(x, (p - 1) as nat, 1);
        lemma_pow1(x);
        lemma_congruent_mod(before * x, q);
        lemma_congruent_trans((before * x) % q, before * x, pow(x, (p - 1) as nat) * x, q);
    }
}

/// The powers are at least one and stand in ascending order.
pub open spec fn ascending(powers: Seq<usize>) -> bool {
    &&& forall|i: int| 0 <= i < powers.len() ==> #[trigger] powers[i] >= 1
    &&& forall|i: int, j: int| 0 <= i < j < powers.len() ==> powers[i] < powers[j]
}

/// The powers up to `m` of an ascending list are the first powers of the
/// list.
proof fn lemma_powers_upto_prefix(powers: Seq<usize>, m: int, n: int)
    requires
        ascending(powers),
        0 <= m <= usize::MAX,
        0 <= n <= powers.len(),
        forall|i: int| 0 <= i < n ==> #[trigger] powers[i] <= m,
        forall|i: int| n <= i < powers.len() ==> #[trigger] powers[i] > m,
    ensures
        powers_upto(powers, m) == powers.take(n),
    decreases m,
{
    if m == 0 {
        if n > 0 {
            assert(powers[0] <= 0);
        }
        assert(powers.take(0) =~= Seq::<usize>::empty());
    } else if powers.contains(m as usize) {
        let j = choose|j: int| 0 <= j < powers.len() && powers[j] == m as usize;
        assert(j < n) by {
            if j >= n {
                assert(powers[j] > m);
            }
        }
        assert(powers[j] == m);
        assert(j == n - 1) by {
            if j < n - 1 {
                assert(powers[j] < powers[n - 1]);
                assert(powers[n - 1] <= m);
            }
        }
        assert forall|i: int| n - 1 <= i < powers.len() implies #[trigger] powers[i] > m - 1 by {
            if i >= n {
                assert(powers[i] > m);
            }
        }
        assert forall|i: int| 0 <= i < n - 1 implies #[trigger] powers[i] <= m - 1 by {
            assert(powers[i] < powers[n - 1]);
        }
        lemma_powers_upto_prefix(powers, m - 1, n - 1);
        assert(powers.take(n - 1).push(m as usize) =~= powers.take(n));
    } else {
        assert forall|i: int| 0 <= i < n implies #[trigger] powers[i] <= m - 1 by {
            if powers[i] == m {
                assert(powers.contains(m as usize));
            }
        }
        lemma_powers_upto_prefix(powers, m - 1, n);
    }
}

/// The largest power is no smaller than any power.
proof fn lemma_max_power(powers: Seq<usize>, i: int)
    requires
        0 <= i < powers.len(),
    ensures
        powers[i] <= max_power(powers) <= usize::MAX,
    decreases powers.len(),
{
    let rest = powers.drop_last();
    if i < powers.len() - 1 {
        lemma_max_power(rest, i);
        assert(rest[i] == powers[i]);
    } else if powers.len() > 1 {
        lemma_max_power(rest, 0);
    } else {
        assert(rest.len() == 0);
        assert(max_power(rest) == 0);
    }
}

/// Of an ascending list of source powers the client sends every power, in
/// the order of the list.
pub proof fn lemma_powers_upto_ascending(powers: Seq<usize>)
    requires
        ascending(powers),
    ensures
        powers_upto(powers, max_power(powers)) == powers,
{
    assert forall|i: int| 0 <= i < powers.len() implies #[trigger] powers[i] <= max_power(
        powers,
    ) by {
        lemma_max_power(powers, i);
    }
    if powers.len() == 0 {
        assert(powers_upto(powers, 0) =~= powers);
    } else {
        lemma_max_power(powers, 0);
        lemma_powers_upto_prefix(powers, max_power(powers), powers.len() as int);
        assert(powers.take(powers.len() as int) =~= powers);
    }
}

/// The response for a table holds, for every value of the table, what the
/// response vectors of the segment of the value hold at its logical row.
pub proof fn lemma_found_in_table(
    table: Map<u32, HashTableEntry>,
    layout: Layout,
    response: Seq<Seq<Seq<u32>>>,
    n: int,
    i: int,
)
    requires
        0 <= i < n <= u32::MAX,
        table.contains_key(i as u32),
    ensures
        responses_upto(table, layout, response, n).contains(
            LabelsView {
                item: table[i as u32].0@,
                labels: labels_at(response[i / layout.rows()], layout, i % layout.rows()),
            },
        ),
    decreases n,
{
    let wanted = LabelsView {
        item: table[i as u32].0@,
        labels: labels_at(response[i / layout.rows()], layout, i % layout.rows()),
    };
    let before = responses_upto(table, layout, response, n - 1);
    let all = responses_upto(table, layout, response, n);
    if i == n - 1 {
        assert(all == before.push(wanted));
        assert(all[before.len() as int] == wanted);
    } else {
        lemma_found_in_table(table, layout, response, n - 1, i);
        let at = choose|at: int| 0 <= at < before.len() && before[at] == wanted;
        if table.contains_key((n - 1) as u32) {
            assert(all[at] == wanted);
        }
    }
}

/// What the responses hold for one table is among what they hold for all.
pub proof fn lemma_found_in_tables(
    tables: Seq<Map<u32, HashTableEntry>>,
    layout: Layout,
    responses: Seq<Seq<Seq<Seq<u32>>>>,
    n: int,
    b: int,
    wanted: LabelsView,
)
    requires
        0 <= b < n,
        responses_upto(tables[b], layout, responses[b], layout.ht_size as int).contains(wanted),
    ensures
        all_responses_upto(tables, layout, responses, n).contains(wanted),
    decreases n,
{
    let before = all_responses_upto(tables, layout, responses, n - 1);
    let last = responses_upto(tables[n - 1], layout, responses[n - 1], layout.ht_size as int);
    if b == n - 1 {
        let at = choose|at: int| 0 <= at < last.len() && last[at] == wanted;
        assert((before + last)[before.len() + at] == wanted);
    } else {
        lemma_found_in_tables(tables, layout, responses, n - 1, b, wanted);
        let at = choose|at: int| 0 <= at < before.len() && before[at] == wanted;
        assert((before + last)[at] == wanted);
    }
}

/// The client learns the label of an item that the server holds.
///
/// The client has hashed its items into `tables` and asks with `query` for
/// what the tables hold. Table `b` holds a value at row `i`, and the big box
/// of the server for that table holds a pair with this item, in box `k` of
/// the segment of row `i`, at its logical row, in column `c`. Then the
/// response of the database holds the label of the pair: it is the label
/// number `k` of those that the client reads for the value, and the
/// client's findings hold the value with these labels.
///
/// The plaintext modulus is prime, the chunks cover the 32 bytes of a
/// value, and the source powers stand in ascending order.
pub proof fn lemma_client_learns_label(
    big_boxes: Seq<BigBox>,
    psi_params: PsiParams,
    dag: Map<usize, Node>,
    tables: Seq<Map<u32, HashTableEntry>>,
    query: Seq<Seq<Seq<Seq<u32>>>>,
    b: int,
    i: int,
    k: int,
    c: int,
)
    requires
        psi_params.wf(),
        psi_params.layout_spec().slots() * psi_params.psi_pt.bfv_pt_bytes == 32,
        is_prime(psi_params.psi_pt.bfv_pt as int),
        ascending(psi_params.source_powers@),
        dag_ordered(
            dag,
            psi_params.source_powers@,
            psi_params.ps_params.powers@,
            psi_params.ps_params.powers@.len() as int,
        ),
        big_boxes.len() == psi_params.no_of_hash_tables,
        tables.len() == psi_params.no_of_hash_tables,
        query_asks(query, tables, psi_params),
        0 <= b < big_boxes.len(),
        big_boxes[b].wf(),
        big_boxes[b].interpolated(),
        big_boxes[b].layout == psi_params.layout_spec(),
        0 <= i < psi_params.ht_size.0,
        tables[b].contains_key(i as u32),
        0 <= k < big_boxes[b]@[i / psi_params.layout_spec().rows()].len(),
        0 <= c < big_boxes[b]@[i / psi_params.layout_spec().rows()][k][i
            % psi_params.layout_spec().rows()].len(),
        big_boxes[b]@[i / psi_params.layout_spec().rows()][k][i
            % psi_params.layout_spec().rows()][c].item@ == tables[b][i as u32].0@,
    ensures
        labels_at(
            db_response(big_boxes, query, psi_params, dag)[b][i / psi_params.layout_spec().rows()],
            psi_params.layout_spec(),
            i % psi_params.layout_spec().rows(),
        )[k] == big_boxes[b]@[i / psi_params.layout_spec().rows()][k][i
            % psi_params.layout_spec().rows()][c].label@,
        all_responses_upto(
            tables,
            psi_params.layout_spec(),
            db_response(big_boxes, query, psi_params, dag),
            psi_params.no_of_hash_tables as int,
        ).contains(
            LabelsView {
                item: tables[b][i as u32].0@,
                labels: labels_at(
                    db_response(big_boxes, query, psi_params, dag)[b][i
                        / psi_params.layout_spec().rows()],
                    psi_params.layout_spec(),
                    i % psi_params.layout_spec().rows(),
                ),
            },
        ),
{
    let layout = psi_params.layout_spec();
    let asking = query_layout_of(psi_params);
    let rows = layout.rows();
    let s = layout.slots();
    let q = psi_params.psi_pt.bfv_pt as int;
    let sources = psi_params.source_powers@;
    let g = i / rows;
    let row = i % rows;
    let big_box = big_boxes[b];
    let ib = big_box.inner_boxes@[g]@[k];
    let il = ib.entries@[row][c];
    let asked = query[b][g];
    let response = db_response(big_boxes, query, psi_params, dag);
    lemma_pow256_values();
    lemma_layout_rows(layout);
    lemma_layout_segments(layout);
    lemma_query_layout(psi_params);
    lemma_fundamental_div_mod(i, rows);
    lemma_mod_bound(i, rows);
    assert(0 <= g < layout.segments());
    assert(i == g * rows + row) by (nonlinear_arith)
        requires
            i == rows * g + row,
    ;
    // the box
    assert(segment_wf(big_box.inner_boxes@[g]@, layout));
    assert(big_box@[g] == segment_view(big_box.inner_boxes@[g]@));
    assert(ib.wf() && ib.layout == layout && ib.interpolated());
    assert(big_box@[g][k] == ib.entries@);
    lemma_prime_interpolable(ib);
    // the query of the segment
    lemma_powers_upto_ascending(sources);
    assert(psi_params.source_powers.len() == sources.len());
    assert(sources_shaped(asked, sources, layout.ct_slots as int));
    let xs = Seq::new(layout.ct_slots as nat, |lane: int| asked_cell(tables[b], asking, g, lane, 0));
    assert(sources_are_powers(asked, sources, xs, q)) by {
        assert forall|n: int, lane: int| 0 <= n < asked.len() && 0 <= lane < asked[n].len() implies congruent(
            (#[trigger] asked[n][lane]) as int,
            pow(xs[lane], sources[n] as nat),
            q,
        ) by {
            assert(asked[n].len() == layout.ct_slots);
            assert(query[b][g][n][lane] as int == power_chain(xs[lane], sources[n] as int, q));
            assert(sources[n] >= 1);
            lemma_power_chain(xs[lane], sources[n] as int, q);
        }
    }
    assert(row_holds(xs, psi_params, row, il.item@)) by {
        assert forall|n: int| 0 <= n < s implies #[trigger] xs[row * s + n] == chunk_of(
            il.item@,
            n,
            layout,
        ) by {
            lemma_lane_of(row, n, s);
            let lane = row * s + n;
            assert(0 <= lane < layout.ct_slots) by (nonlinear_arith)
                requires
                    lane == row * s + n,
                    0 <= n < s,
                    0 <= row < rows,
                    rows * s == layout.ct_slots,
            ;
            assert(g * asking.rows() + lane / asking.slots() == i);
        }
    }
    let answer = ps_values(
        ib.coefficients_data@,
        segment_powers(asked, psi_params, dag),
        psi_params.ps_params.low_degree as int,
        psi_params.ps_params.total_degree as int,
        q,
    );
    assert forall|n: int| 0 <= n < s implies (#[trigger] answer[row * s + n]) as int == chunk_of(
        il.label@,
        n,
        layout,
    ) by {
        lemma_box_answers(ib, asked, psi_params, dag, xs, row, c, n);
    }
    assert(answer.len() == layout.ct_slots);
    assert((row + 1) * s <= layout.ct_slots) by (nonlinear_arith)
        requires
            0 <= row < rows,
            rows * s == layout.ct_slots,
            s >= 0,
    ;
    lemma_label_read(answer, psi_params, row, il.label@);
    assert(response[b][g][k] == answer);
    // the findings
    lemma_found_in_table(tables[b], layout, response[b], layout.ht_size as int, i);
    lemma_found_in_tables(
        tables,
        layout,
        response,
        psi_params.no_of_hash_tables as int,
        b,
        LabelsView { item: tables[b][i as u32].0@, labels: labels_at(response[b][g], layout, row) },
    );
}

/// The big box holds the pair for row `index` of its hash table: the pair
/// stands in a box of the segment of the row, at the logical row of the row.
pub open spec fn holds_pair(view: Seq<Seq<Entries>>, layout: Layout, index: int, il: ItemLabel) -> bool {
    let g = index / layout.rows();
    let row = index % layout.rows();
    exists|k: int, c: int|
        0 <= k < view[g].len() && 0 <= c < view[g][k][row].len() && #[trigger] view[g][k][row][c]
            == il
}

/// The big box has its segments, and every box its logical rows.
pub open spec fn boxes_shaped(view: Seq<Seq<Entries>>, layout: Layout) -> bool {
    &&& view.len() == layout.segments()
    &&& forall|g: int, k: int|
        0 <= g < view.len() && 0 <= k < view[g].len() ==> (#[trigger] view[g][k]).len()
            == layout.rows()
}

/// A well-formed big box has its segments, and every box its logical rows.
pub proof fn lemma_big_box_shaped(big_box: BigBox)
    requires
        big_box.wf(),
    ensures
        boxes_shaped(big_box@, big_box.layout),
{
    let view = big_box@;
    assert forall|g: int, k: int| 0 <= g < view.len() && 0 <= k < view[g].len() implies (
    #[trigger] view[g][k]).len() == big_box.layout.rows() by {
        assert(segment_wf(big_box.inner_boxes@[g]@, big_box.layout));
        assert(big_box.inner_boxes@[g]@[k].wf());
    }
}

/// A pair that enters a big box is held there, the pairs held before stay,
/// and the big box keeps its shape.
pub proof fn lemma_big_box_with(
    view: Seq<Seq<Entries>>,
    layout: Layout,
    il: ItemLabel,
    index: int,
    other: ItemLabel,
    other_index: int,
)
    requires
        layout.wf(),
        boxes_shaped(view, layout),
        0 <= index < layout.ht_size,
        0 <= other_index < layout.ht_size,
    ensures
        boxes_shaped(big_box_with(view, layout, il, index), layout),
        holds_pair(big_box_with(view, layout, il, index), layout, index, il),
        holds_pair(view, layout, other_index, other) ==> holds_pair(
            big_box_with(view, layout, il, index),
            layout,
            other_index,
            other,
        ),
{
    let rows = layout.rows();
    let g = index / rows;
    let row = index % rows;
    let segment = view[g];
    let after = big_box_with(view, layout, il, index);
    let j = first_fit(segment, layout, il, row, 0);
    lemma_layout_rows(layout);
    lemma_layout_segments(layout);
    lemma_mod_bound(index, rows);
    lemma_mod_bound(other_index, rows);
    lemma_first_fit_fits(segment, layout, il, row, 0);
    assert(0 <= g < view.len());
    assert(0 <= other_index / rows < view.len());
    let grown = segment_with(segment, layout, il, row);
    assert(after[g] == grown);
    if j < segment.len() {
        assert(segment[j].len() == rows);
        assert(grown[j][row][segment[j][row].len() as int] == il);
    } else {
        assert(grown[j][row][0] == il);
    }
    assert(holds_pair(after, layout, index, il)) by {
        let c = if j < segment.len() {
            segment[j][row].len() as int
        } else {
            0
        };
        assert(0 <= j < after[g].len() && 0 <= c < after[g][j][row].len() && after[g][j][row][c]
            == il);
    }
    assert forall|g2: int, k2: int| 0 <= g2 < after.len() && 0 <= k2 < after[g2].len() implies (
    #[trigger] after[g2][k2]).len() == rows by {
        if g2 == g {
            if k2 < segment.len() {
                assert(segment[k2].len() == rows);
            }
        } else {
            assert(view[g2][k2].len() == rows);
        }
    }
    if holds_pair(view, layout, other_index, other) {
        let g2 = other_index / rows;
        let row2 = other_index % rows;
        let (k2, c2): (int, int) = choose|k2: int, c2: int|
            0 <= k2 < view[g2].len() && 0 <= c2 < view[g2][k2][row2].len()
                && #[trigger] view[g2][k2][row2][c2] == other;
        if g2 == g {
            assert(segment[k2].len() == rows);
            assert(after[g2][k2][row2][c2] == other);
        } else {
            assert(after[g2][k2][row2][c2] == other);
        }
    }
}

/// Every big box of the database holds the pair, for the row of its item in
/// the hash table of the big box.
pub open spec fn db_holds(
    boxes: Seq<Seq<Seq<Entries>>>,
    cuckoo: Cuckoo,
    layout: Layout,
    il: ItemLabel,
) -> bool {
    forall|b: int|
        0 <= b < boxes.len() ==> holds_pair(
            #[trigger] boxes[b],
            layout,
            table_indices_of(cuckoo, il.item@)[b] as int,
            il,
        )
}

/// Every big box of the database has its shape.
pub open spec fn db_shaped(boxes: Seq<Seq<Seq<Entries>>>, layout: Layout) -> bool {
    forall|b: int| 0 <= b < boxes.len() ==> boxes_shaped(#[trigger] boxes[b], layout)
}

/// After a setup the database holds every pair that it has accepted: pair
/// number `t` is held in every big box unless its item was known, or was
/// that of an earlier pair; and every pair held before is still held.
pub proof fn lemma_setup_holds(
    boxes: Seq<Seq<Seq<Entries>>>,
    items: Set<Seq<u8>>,
    cuckoo: Cuckoo,
    layout: Layout,
    item_labels: Seq<ItemLabel>,
    n: int,
    il: ItemLabel,
)
    requires
        layout.wf(),
        cuckoo.wf(),
        cuckoo.table_size == layout.ht_size,
        boxes.len() == cuckoo.no_of_tables,
        db_shaped(boxes, layout),
        0 <= n <= item_labels.len(),
    ensures
        boxes_after(boxes, items, cuckoo, layout, item_labels, n).len() == boxes.len(),
        db_shaped(boxes_after(boxes, items, cuckoo, layout, item_labels, n), layout),
        db_holds(boxes, cuckoo, layout, il) ==> db_holds(
            boxes_after(boxes, items, cuckoo, layout, item_labels, n),
            cuckoo,
            layout,
            il,
        ),
        forall|t: int|
            0 <= t < n && !items_after(items, item_labels, t).contains(
                (#[trigger] item_labels[t]).item@,
            ) ==> db_holds(
                boxes_after(boxes, items, cuckoo, layout, item_labels, n),
                cuckoo,
                layout,
                item_labels[t],
            ),
    decreases n,
{
    if n > 0 {
        lemma_setup_holds(boxes, items, cuckoo, layout, item_labels, n - 1, il);
        let before = boxes_after(boxes, items, cuckoo, layout, item_labels, n - 1);
        let after = boxes_after(boxes, items, cuckoo, layout, item_labels, n);
        let new = item_labels[n - 1];
        if items_after(items, item_labels, n - 1).contains(new.item@) {
            assert(after == before);
        } else {
            assert forall|b: int| 0 <= b < after.len() implies boxes_shaped(
                #[trigger] after[b],
                layout,
            ) by {
                lemma_table_indices_in_range(cuckoo, new.item@, b);
                let index = table_indices_of(cuckoo, new.item@)[b] as int;
                lemma_big_box_with(before[b], layout, new, index, new, index);
            }
            assert forall|b: int| 0 <= b < after.len() implies holds_pair(
                #[trigger] after[b],
                layout,
                table_indices_of(cuckoo, new.item@)[b] as int,
                new,
            ) by {
                lemma_table_indices_in_range(cuckoo, new.item@, b);
                let index = table_indices_of(cuckoo, new.item@)[b] as int;
                lemma_big_box_with(before[b], layout, new, index, new, index);
            }
            if db_holds(boxes, cuckoo, layout, il) {
                assert forall|b: int| 0 <= b < after.len() implies holds_pair(
                    #[trigger] after[b],
                    layout,
                    table_indices_of(cuckoo, il.item@)[b] as int,
                    il,
                ) by {
                    lemma_table_indices_in_range(cuckoo, new.item@, b);
                    lemma_table_indices_in_range(cuckoo, il.item@, b);
                    let index = table_indices_of(cuckoo, new.item@)[b] as int;
                    assert(holds_pair(before[b], layout, table_indices_of(cuckoo, il.item@)[b] as int, il));
                    lemma_big_box_with(
                        before[b],
                        layout,
                        new,
                        index,
                        il,
                        table_indices_of(cuckoo, il.item@)[b] as int,
                    );
                }
            }
        }
        assert forall|t: int|
            0 <= t < n && !items_after(items, item_labels, t).contains(
                (#[trigger] item_labels[t]).item@,
            ) implies db_holds(after, cuckoo, layout, item_labels[t]) by {
            if t < n - 1 {
                let held = item_labels[t];
                assert(db_holds(before, cuckoo, layout, held));
                if !items_after(items, item_labels, n - 1).contains(new.item@) {
                    assert forall|b: int| 0 <= b < after.len() implies holds_pair(
                        #[trigger] after[b],
                        layout,
                        table_indices_of(cuckoo, held.item@)[b] as int,
                        held,
                    ) by {
                        lemma_table_indices_in_range(cuckoo, new.item@, b);
                        lemma_table_indices_in_range(cuckoo, held.item@, b);
                        assert(holds_pair(
                            before[b],
                            layout,
                            table_indices_of(cuckoo, held.item@)[b] as int,
                            held,
                        ));
                        lemma_big_box_with(
                            before[b],
                            layout,
                            new,
                            table_indices_of(cuckoo, new.item@)[b] as int,
                            held,
                            table_indices_of(cuckoo, held.item@)[b] as int,
                        );
                    }
                }
            }
        }
    }
}

/// A server holds every pair that its setup has accepted. `before` is the
/// server before the setup with `item_labels` and `after` the server after
/// it; pair number `t` is held in every big box unless its item was known
/// before the setup, or is that of an earlier pair.
pub proof fn lemma_server_holds(before: Server, after: Server, item_labels: Seq<ItemLabel>, t: int)
    requires
        before.wf(),
        after.db.cuckoo == before.db.cuckoo,
        after.db.layout == before.db.layout,
        after.db.boxes() == boxes_after(
            before.db.boxes(),
            before.db.items(),
            before.db.cuckoo,
            before.db.layout,
            item_labels,
            item_labels.len() as int,
        ),
        0 <= t < item_labels.len(),
        !items_after(before.db.items(), item_labels, t).contains(item_labels[t].item@),
    ensures
        db_holds(after.db.boxes(), after.db.cuckoo, after.db.layout, item_labels[t]),
{
    let boxes = before.db.boxes();
    let layout = before.db.layout;
    assert forall|b: int| 0 <= b < boxes.len() implies boxes_shaped(#[trigger] boxes[b], layout) by {
        lemma_big_box_shaped(before.db.big_boxes@[b]);
    }
    lemma_setup_holds(
        boxes,
        before.db.items(),
        before.db.cuckoo,
        layout,
        item_labels,
        item_labels.len() as int,
        item_labels[t],
    );
}

/// The findings hold the item with the label among its labels.
pub open spec fn label_found(found: Seq<LabelsView>, il: ItemLabel) -> bool {
    exists|e: int|
        0 <= e < found.len() && (#[trigger] found[e]).item == il.item@ && found[e].labels.contains(
            il.label@,
        )
}

/// The protocol is correct on the plaintexts: the client learns the label
/// of every item of its query that the server holds, unless the item went
/// on the stack when the client hashed its items.
///
/// The server is set up and preprocessed, and its database holds the pair
/// `il`. The client has hashed `query_set`, which names the item of the
/// pair and has not put it on the stack, and `query` asks for what the
/// client's tables hold. Then what the client reads from the response of
/// the server holds the item with the label of the pair among its labels.
///
/// The plaintext modulus is prime, the chunks cover the 32 bytes of a
/// value, and the source powers stand in ascending order.
pub proof fn lemma_intersection_found(
    server: Server,
    query_set: Seq<U256>,
    query: Seq<Seq<Seq<Seq<u32>>>>,
    il: ItemLabel,
    t: int,
)
    requires
        server.wf(),
        server.db.interpolated(),
        server.psi_params.layout_spec().slots() * server.psi_params.psi_pt.bfv_pt_bytes == 32,
        is_prime(server.psi_params.psi_pt.bfv_pt as int),
        ascending(server.psi_params.source_powers@),
        db_holds(server.db.boxes(), server.db.cuckoo, server.db.layout, il),
        0 <= t < query_set.len(),
        query_set[t]@ == il.item@,
        !on_stack(
            build(
                cuckoo_of(server.psi_params),
                entries_of(query_set),
                query_set.len() as int,
            ).stack,
            il.item@,
        ),
        query_asks(
            query,
            build(
                cuckoo_of(server.psi_params),
                entries_of(query_set),
                query_set.len() as int,
            ).tables,
            server.psi_params,
        ),
    ensures
        label_found(
            all_responses_upto(
                build(
                    cuckoo_of(server.psi_params),
                    entries_of(query_set),
                    query_set.len() as int,
                ).tables,
                server.psi_params.layout_spec(),
                db_response(server.db.big_boxes@, query, server.psi_params, server.powers_dag@),
                server.psi_params.no_of_hash_tables as int,
            ),
            il,
        ),
{
    let psi_params = server.psi_params;
    let layout = psi_params.layout_spec();
    let cuckoo = cuckoo_of(psi_params);
    let entries = entries_of(query_set);
    let built = build(cuckoo, entries, query_set.len() as int);
    let tables = built.tables;
    let dag = server.powers_dag@;
    let rows = layout.rows();
    let response = db_response(server.db.big_boxes@, query, psi_params, dag);
    let found = all_responses_upto(tables, layout, response, psi_params.no_of_hash_tables as int);
    lemma_dag_ordered(
        psi_params.source_powers@,
        psi_params.ps_params.powers@,
        psi_params.ps_params.powers@.len() as int,
    );
    lemma_build_places_all(cuckoo, entries, query_set.len() as int);
    assert(entries[t].0@ == il.item@);
    assert(in_tables(tables, il.item@));
    let (b, at): (int, u32) = choose|b: int, at: u32|
        0 <= b < tables.len() && #[trigger] tables[b].contains_key(at) && tables[b][at].0@
            == il.item@;
    let i = at as int;
    lemma_table_indices_in_range(cuckoo, il.item@, b);
    assert(at == table_indices_of(cuckoo, il.item@)[b]);
    assert(server.db.cuckoo == cuckoo);
    let big_box = server.db.big_boxes@[b];
    assert(big_box.wf() && big_box.layout == layout && big_box.interpolated());
    assert(server.db.boxes()[b] == big_box@);
    assert(holds_pair(big_box@, layout, i, il));
    let (k, c): (int, int) = choose|k: int, c: int|
        0 <= k < big_box@[i / rows].len() && 0 <= c < big_box@[i / rows][k][i % rows].len()
            && #[trigger] big_box@[i / rows][k][i % rows][c] == il;
    lemma_client_learns_label(server.db.big_boxes@, psi_params, dag, tables, query, b, i, k, c);
    let labels = labels_at(response[b][i / rows], layout, i % rows);
    let wanted = LabelsView { item: tables[b][at].0@, labels };
    let e = choose|e: int| 0 <= e < found.len() && found[e] == wanted;
    assert(labels.len() == response[b][i / rows].len());
    lemma_layout_segments(layout);
    assert(labels[k] == il.label@);
    assert(response[b][i / rows].len() == big_box.inner_boxes@[i / rows]@.len());
    assert(found[e].labels.contains(il.label@));
}

} // verus!
