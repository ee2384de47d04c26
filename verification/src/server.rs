//! The sizes that server and client share, and the (item, label) pairs that
//! the server stores.

use crate::big_box::{all_interpolable, big_box_with, empty_big_box};
use crate::dag::{construct_dag, lemma_dag_ordered, with_targets, ConfigError, Node};
use crate::db::{db_query_shaped, db_response, Db};
use crate::hash::{table_indices_of, Cuckoo};
use crate::inner_box::Entries;
use crate::params::{Layout, PsiParams};
use crate::poly_interpolate::InterpError;
use crate::utils::{chunk_at, le_value, lemma_pow256_values, pow256, rows4, U256};
use std::collections::HashMap;
use vstd::prelude::*;

verus! {

/// Number of rows of a hash table.
#[derive(Clone, Copy, Debug)]
pub struct HashTableSize(pub u32);

/// Number of slots of a single ciphertext; equal to the degree of the scheme.
#[derive(Clone, Copy, Debug)]
pub struct CiphertextSlots(pub u32);

/// Degree of the polynomials that the server interpolates.
#[derive(Clone, Copy, Debug)]
pub struct EvalPolyDegree(pub u32);

/// How an item or a label divides into plaintext slots.
#[derive(Clone, Copy, Debug)]
pub struct PsiPlaintext {
    pub psi_pt_bits: u32,
    pub psi_pt_bytes: u32,
    pub bfv_pt_bits: u32,
    pub bfv_pt_bytes: u32,
    pub bfv_pt: u32,
}

/// `n` is a power of two.
pub open spec fn is_power_of_two(n: int) -> bool {
    exists|k: nat| n == vstd::arithmetic::power2::pow2(k)
}

impl HashTableSize {
    pub fn value(&self) -> (v: u32)
        ensures
            v == self.0,
    {
        self.0
    }
}

impl CiphertextSlots {
    pub fn value(&self) -> (v: u32)
        ensures
            v == self.0,
    {
        self.0
    }
}

impl EvalPolyDegree {
    /// An inner box needs as many columns as a polynomial of this degree can
    /// interpolate data points: one more than the degree.
    pub fn inner_box_columns(&self) -> (columns: u32)
        requires
            self.0 < u32::MAX,
        ensures
            columns == self.0 + 1,
    {
        self.0 + 1
    }
}

impl PsiPlaintext {
    /// The byte counts agree with the bit counts; a chunk has one to four
    /// bytes and a value at least one chunk and at most 32 bytes; every chunk
    /// is below the plaintext modulus.
    pub open spec fn wf(&self) -> bool {
        &&& self.psi_pt_bytes == self.psi_pt_bits / 8
        &&& self.bfv_pt_bytes == self.bfv_pt_bits / 8
        &&& 1 <= self.bfv_pt_bytes <= 4
        &&& self.bfv_pt_bytes <= self.psi_pt_bytes <= 32
        &&& pow256(self.bfv_pt_bytes as int) <= self.bfv_pt
    }

    /// Number of slots that one value takes.
    pub open spec fn slots(&self) -> int {
        self.psi_pt_bytes as int / self.bfv_pt_bytes as int
    }

    /// `psi_pt_bits` is the width of an item or label, `bfv_pt_bits` the width
    /// of a chunk, `bfv_pt` the plaintext modulus. Both widths are powers of
    /// two and at least eight.
    pub fn new(psi_pt_bits: u32, bfv_pt_bits: u32, bfv_pt: u32) -> (pt: PsiPlaintext)
        requires
            is_power_of_two(bfv_pt_bits as int) && bfv_pt_bits >= 8,
            is_power_of_two(psi_pt_bits as int) && psi_pt_bits >= 8,
        ensures
            pt.psi_pt_bits == psi_pt_bits,
            pt.psi_pt_bytes == psi_pt_bits / 8,
            pt.bfv_pt_bits == bfv_pt_bits,
            pt.bfv_pt_bytes == bfv_pt_bits / 8,
            pt.bfv_pt == bfv_pt,
    {
        PsiPlaintext {
            psi_pt_bits,
            psi_pt_bytes: psi_pt_bits / 8,
            bfv_pt_bits,
            bfv_pt_bytes: bfv_pt_bits / 8,
            bfv_pt,
        }
    }

    /// Number of slots that one value takes: its bytes by the bytes of a chunk.
    pub fn slots_required(&self) -> (slots: u32)
        requires
            self.bfv_pt_bytes > 0,
        ensures
            slots == self.slots(),
    {
        self.psi_pt_bytes / self.bfv_pt_bytes
    }

    pub fn bytes_per_chunk(&self) -> (bytes: u32)
        ensures
            bytes == self.bfv_pt_bytes,
    {
        self.bfv_pt_bytes
    }

    pub fn chunk_bits(&self) -> (bits: u32)
        ensures
            bits == self.bfv_pt_bits,
    {
        self.bfv_pt_bits
    }

    /// Decides `wf`.
    pub fn is_valid(&self) -> (b: bool)
        ensures
            b == self.wf(),
    {
        proof {
            lemma_pow256_values();
        }
        let chunk_values: u64 = if self.bfv_pt_bytes == 1 {
            0x100
        } else if self.bfv_pt_bytes == 2 {
            0x1_0000
        } else if self.bfv_pt_bytes == 3 {
            0x100_0000
        } else {
            0x1_0000_0000
        };
        self.psi_pt_bytes == self.psi_pt_bits / 8 && self.bfv_pt_bytes == self.bfv_pt_bits / 8 && 1
            <= self.bfv_pt_bytes && self.bfv_pt_bytes <= 4 && self.bfv_pt_bytes
            <= self.psi_pt_bytes && self.psi_pt_bytes <= 32 && chunk_values
            <= self.bfv_pt as u64
    }
}

/// In a well-formed layout the chunks of a value lie within its 32 bytes.
pub proof fn lemma_slots_fit(pt: PsiPlaintext)
    requires
        pt.wf(),
    ensures
        1 <= pt.slots(),
        pt.slots() * pt.bfv_pt_bytes <= pt.psi_pt_bytes,
        pt.slots() * pt.bfv_pt_bytes <= 32,
        pt.slots() <= 32,
{
    let a: int = pt.psi_pt_bytes as int;
    let b: int = pt.bfv_pt_bytes as int;
    vstd::arithmetic::div_mod::lemma_fundamental_div_mod(a, b);
    vstd::arithmetic::div_mod::lemma_mod_bound(a, b);
    assert(b * (a / b) == (a / b) * b) by (nonlinear_arith);
    assert(a / b >= 1) by (nonlinear_arith)
        requires
            a == b * (a / b) + a % b,
            a % b < b,
            b <= a,
            b >= 1,
    ;
    assert(a / b <= 32) by (nonlinear_arith)
        requires
            (a / b) * b <= 32,
            b >= 1,
            a / b >= 1,
    ;
}

/// An item with the label that the server holds for it. Both have 256 bits.
#[derive(Clone, Copy, Debug)]
pub struct ItemLabel {
    pub item: U256,
    pub label: U256,
}

/// The 64 bytes of a pair on disk and on the wire: the item, then the label,
/// each as 32 little-endian bytes.
pub open spec fn item_label_bytes(il: ItemLabel) -> Seq<u8> {
    il.item@ + il.label@
}

impl ItemLabel {
    pub fn new(item: U256, label: U256) -> (il: ItemLabel)
        ensures
            il.item == item,
            il.label == label,
    {
        ItemLabel { item, label }
    }

    pub fn item(&self) -> (item: &U256)
        ensures
            *item == self.item,
    {
        &self.item
    }

    pub fn label(&self) -> (label: &U256)
        ensures
            *label == self.label,
    {
        &self.label
    }

    /// Chunk `chunk_index` of the item and of the label: the bytes
    /// `chunk_index * b .. (chunk_index + 1) * b` of each, with `b` the bytes
    /// per chunk, read lowest byte first.
    pub fn get_chunk_at_index(&self, chunk_index: u32, psi_pt: &PsiPlaintext) -> (chunks: (
        u32,
        u32,
    ))
        requires
            psi_pt.bfv_pt_bytes <= 4,
            (chunk_index + 1) * psi_pt.bfv_pt_bytes <= 32,
        ensures
            chunks.0 as int == le_value(
                self.item@,
                chunk_index * psi_pt.bfv_pt_bytes,
                psi_pt.bfv_pt_bytes as int,
            ),
            chunks.1 as int == le_value(
                self.label@,
                chunk_index * psi_pt.bfv_pt_bytes,
                psi_pt.bfv_pt_bytes as int,
            ),
    {
        let bytes_per_chunk: u32 = psi_pt.bytes_per_chunk();
        assert((chunk_index + 1) * bytes_per_chunk == chunk_index * bytes_per_chunk
            + bytes_per_chunk) by (nonlinear_arith);
        let bytes_to_skip: u32 = chunk_index * bytes_per_chunk;
        (
            chunk_at(&self.item, bytes_to_skip, bytes_per_chunk),
            chunk_at(&self.label, bytes_to_skip, bytes_per_chunk),
        )
    }

    /// The 64 bytes of the pair.
    pub fn to_bytes(&self) -> (bytes: Vec<u8>)
        ensures
            bytes@ == item_label_bytes(*self),
    {
        let mut bytes: Vec<u8> = Vec::new();
        let mut i: usize = 0;
        while i < 32
            invariant
                i <= 32,
                bytes@.len() == i,
                forall|k: int| 0 <= k < i ==> bytes@[k] == self.item@[k],
            decreases 32 - i,
        {
            bytes.push(self.item.bytes[i]);
            i = i + 1;
        }
        let mut j: usize = 0;
        while j < 32
            invariant
                j <= 32,
                bytes@.len() == 32 + j,
                forall|k: int| 0 <= k < 32 ==> bytes@[k] == self.item@[k],
                forall|k: int| 0 <= k < j ==> bytes@[32 + k] == self.label@[k],
            decreases 32 - j,
        {
            bytes.push(self.label.bytes[j]);
            j = j + 1;
        }
        assert(bytes@ =~= item_label_bytes(*self));
        bytes
    }

    /// The pair that 64 bytes hold; `None` for any other length.
    pub fn from_bytes(bytes: &[u8]) -> (res: Option<ItemLabel>)
        ensures
            res is Some <==> bytes@.len() == 64,
            res is Some ==> item_label_bytes(res->Some_0) == bytes@,
    {
        if bytes.len() != 64 {
            return None;
        }
        let mut item_bytes: [u8; 32] = [0u8; 32];
        let mut label_bytes: [u8; 32] = [0u8; 32];
        let mut i: usize = 0;
        while i < 32
            invariant
                i <= 32,
                bytes@.len() == 64,
                forall|k: int| 0 <= k < i ==> item_bytes@[k] == bytes@[k],
                forall|k: int| 0 <= k < i ==> label_bytes@[k] == bytes@[k + 32],
            decreases 32 - i,
        {
            item_bytes[i] = bytes[i];
            label_bytes[i] = bytes[i + 32];
            i = i + 1;
        }
        let il: ItemLabel = ItemLabel {
            item: U256::from_le_bytes(item_bytes),
            label: U256::from_le_bytes(label_bytes),
        };
        assert(item_label_bytes(il) =~= bytes@);
        Some(il)
    }
}

/// The items among the first `n` pairs, added to `items`.
pub open spec fn items_after(items: Set<Seq<u8>>, item_labels: Seq<ItemLabel>, n: int) -> Set<Seq<u8>>
    decreases n,
{
    if n <= 0 {
        items
    } else {
        items_after(items, item_labels, n - 1).insert(item_labels[n - 1].item@)
    }
}

/// The pairs stored after the first `n` pairs have been offered to a
/// database that holds `boxes` and knows `items`: a pair whose item is known
/// changes nothing; every other pair enters each big box at the row of its
/// item in that hash table.
pub open spec fn boxes_after(
    boxes: Seq<Seq<Seq<Entries>>>,
    items: Set<Seq<u8>>,
    cuckoo: Cuckoo,
    layout: Layout,
    item_labels: Seq<ItemLabel>,
    n: int,
) -> Seq<Seq<Seq<Entries>>>
    decreases n,
{
    if n <= 0 {
        boxes
    } else {
        let before = boxes_after(boxes, items, cuckoo, layout, item_labels, n - 1);
        let il = item_labels[n - 1];
        if items_after(items, item_labels, n - 1).contains(il.item@) {
            before
        } else {
            Seq::new(
                before.len(),
                |b: int|
                    big_box_with(before[b], layout, il, table_indices_of(cuckoo, il.item@)[b] as int),
            )
        }
    }
}

/// The server: the database, the graph of powers, and the parameters.
pub struct Server {
    pub db: Db,
    pub powers_dag: HashMap<usize, Node>,
    pub psi_params: PsiParams,
}

impl Server {
    /// The database is that of the parameters, and the graph of powers
    /// leads from the source powers to every power of the evaluation.
    pub open spec fn wf(&self) -> bool {
        &&& self.psi_params.wf()
        &&& self.db.wf()
        &&& self.db.layout == self.psi_params.layout_spec()
        &&& self.db.cuckoo.no_of_tables == self.psi_params.no_of_hash_tables
        &&& with_targets(
            self.psi_params.source_powers@,
            self.psi_params.ps_params.powers@,
            self.psi_params.ps_params.powers@.len() as int,
        ) == Some(self.powers_dag@)
    }

    pub fn psi_params(&self) -> (psi_params: &PsiParams)
        ensures
            *psi_params == self.psi_params,
    {
        &self.psi_params
    }

    /// A server with an empty database.
    ///
    /// Fails where the parameters do not fit together, and where the source
    /// powers do not lead to the powers of the evaluation.
    pub fn new(psi_params: PsiParams) -> (res: Result<Server, ConfigError>)
        ensures
            res == Err::<Server, ConfigError>(ConfigError::InvalidParameters) <==> !psi_params.wf(),
            res == Err::<Server, ConfigError>(ConfigError::UnreachablePower) <==> psi_params.wf()
                && with_targets(
                psi_params.source_powers@,
                psi_params.ps_params.powers@,
                psi_params.ps_params.powers@.len() as int,
            ) is None,
            res is Ok ==> {
                let server = res->Ok_0;
                &&& server.wf()
                &&& server.psi_params == psi_params
                &&& server.db.items() == Set::<Seq<u8>>::empty()
                &&& server.db.boxes() == Seq::new(
                    psi_params.no_of_hash_tables as nat,
                    |b: int| empty_big_box(psi_params.layout_spec()),
                )
            },
    {
        if !psi_params.is_valid() {
            return Err(ConfigError::InvalidParameters);
        }
        let powers_dag: HashMap<usize, Node> = match construct_dag(
            psi_params.source_powers.as_slice(),
            psi_params.ps_params.powers(),
        ) {
            Ok(dag) => dag,
            Err(e) => {
                return Err(e);
            },
        };
        let db: Db = Db::new(&psi_params);
        Ok(Server { powers_dag, db, psi_params })
    }

    /// Enters the pairs, each unless its item is known already, and then
    /// preprocesses the database.
    ///
    /// Fails where a box cannot be interpolated, which is never so with a
    /// prime plaintext modulus.
    pub fn setup(&mut self, item_labels: &[ItemLabel]) -> (res: Result<(), InterpError>)
        requires
            old(self).wf(),
            old(self).db.items().len() + item_labels@.len() <= usize::MAX,
        ensures
            final(self).wf(),
            final(self).psi_params == old(self).psi_params,
            final(self).powers_dag == old(self).powers_dag,
            final(self).db.cuckoo == old(self).db.cuckoo,
            final(self).db.items() == items_after(
                old(self).db.items(),
                item_labels@,
                item_labels@.len() as int,
            ),
            final(self).db.boxes() == boxes_after(
                old(self).db.boxes(),
                old(self).db.items(),
                old(self).db.cuckoo,
                old(self).db.layout,
                item_labels@,
                item_labels@.len() as int,
            ),
            res is Ok <==> (forall|b: int|
                0 <= b < final(self).db.boxes().len() ==> all_interpolable(
                    #[trigger] final(self).db.boxes()[b],
                    old(self).db.layout,
                )),
            res is Ok ==> final(self).db.interpolated(),
    {
        let ghost pre: Server = *self;
        let n: usize = item_labels.len();
        let mut i: usize = 0;
        while i < n
            invariant
                pre == *old(self),
                pre.wf(),
                n == item_labels@.len(),
                pre.db.items().len() + n <= usize::MAX,
                i <= n,
                self.wf(),
                self.psi_params == pre.psi_params,
                self.powers_dag == pre.powers_dag,
                self.db.cuckoo == pre.db.cuckoo,
                self.db.layout == pre.db.layout,
                self.db.items().finite(),
                self.db.items().len() <= pre.db.items().len() + i,
                self.db.items() == items_after(pre.db.items(), item_labels@, i as int),
                self.db.boxes() == boxes_after(
                    pre.db.boxes(),
                    pre.db.items(),
                    pre.db.cuckoo,
                    pre.db.layout,
                    item_labels@,
                    i as int,
                ),
            decreases n - i,
        {
            let ghost before = self.db.boxes();
            let ghost known = self.db.items();
            let inserted: bool = self.db.insert(&item_labels[i]);
            proof {
                let il = item_labels@[i as int];
                if inserted {
                    assert(self.db.boxes() =~= Seq::new(
                        before.len(),
                        |b: int|
                            big_box_with(
                                before[b],
                                pre.db.layout,
                                il,
                                table_indices_of(pre.db.cuckoo, il.item@)[b] as int,
                            ),
                    ));
                } else {
                    assert(known.insert(il.item@) =~= known);
                }
            }
            i = i + 1;
        }
        self.db.preprocess()
    }

    /// The response to a query, on the plaintext slots.
    pub fn query(&self, query: &Vec<Vec<Vec<Vec<u32>>>>) -> (response: Vec<Vec<Vec<Vec<u32>>>>)
        requires
            self.wf(),
            self.db.interpolated(),
            db_query_shaped(query@, self.psi_params),
        ensures
            rows4(response@) == db_response(
                self.db.big_boxes@,
                rows4(query@),
                self.psi_params,
                self.powers_dag@,
            ),
    {
        proof {
            lemma_dag_ordered(
                self.psi_params.source_powers@,
                self.psi_params.ps_params.powers@,
                self.psi_params.ps_params.powers@.len() as int,
            );
        }
        self.db.handle_query(query, &self.psi_params, &self.powers_dag)
    }
}

} // verus!
