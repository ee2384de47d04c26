//! Cuckoo hashing of 256-bit values into `h` tables, with table indices taken
//! from the SHA-256 digest of the value.

use crate::utils::{le_value, U256};
use std::collections::HashMap;
use vstd::prelude::*;

verus! {

/// The SHA-256 digest of a byte string.
pub uninterp spec fn sha256_digest(data: Seq<u8>) -> Seq<u8>;

/// SHA-256 of the 32 bytes `data`, computed by `ring::digest::digest` with the
/// algorithm `ring::digest::SHA256`. The contract names the digest and states
/// its length, 32 bytes; nothing else is assumed of it.
#[verifier::external_body]
fn sha256(data: &[u8; 32]) -> (digest: Vec<u8>)
    ensures
        digest@ == sha256_digest(data@),
        digest@.len() == 32,
{
    ring::digest::digest(&ring::digest::SHA256, data).as_ref().to_vec()
}

/// The table indices that a digest gives: its first `4 * tables` bytes, read
/// as little-endian 32-bit numbers, each reduced modulo `size`.
pub open spec fn digest_indices(digest: Seq<u8>, tables: int, size: int) -> Seq<u32> {
    Seq::new(tables as nat, |k: int| (le_value(digest, 4 * k, 4) % size) as u32)
}

/// The table indices of every hash table for the value with bytes `value`.
pub open spec fn table_indices_of(cuckoo: Cuckoo, value: Seq<u8>) -> Seq<u32> {
    digest_indices(sha256_digest(value), cuckoo.no_of_tables as int, cuckoo.table_size as int)
}

/// The parameters of the hashing: the number of tables and their size.
#[derive(Clone, Copy, Debug)]
pub struct Cuckoo {
    pub no_of_tables: u8,
    pub table_size: u32,
}

/// A value on its way through the tables, with the number of the table that
/// it is to enter next.
#[derive(Clone, Copy, Debug)]
pub struct HashTableEntry(pub U256, pub u8);

/// The tables and the stack of evicted entries, as mathematical values.
pub ghost struct CuckooTables {
    pub tables: Seq<Map<u32, HashTableEntry>>,
    pub stack: Seq<HashTableEntry>,
}

/// `tables` empty tables and an empty stack.
pub open spec fn empty_tables(tables: int) -> CuckooTables {
    CuckooTables {
        tables: Seq::new(tables as nat, |k: int| Map::<u32, HashTableEntry>::empty()),
        stack: Seq::empty(),
    }
}

/// The tables after `e` has entered table `e.1`, and whatever it evicted has
/// moved on to the next table in turn; an entry evicted from the last table
/// goes on the stack.
pub open spec fn place(cuckoo: Cuckoo, st: CuckooTables, e: HashTableEntry) -> CuckooTables
    decreases cuckoo.no_of_tables - e.1,
{
    let k: int = e.1 as int;
    if k >= cuckoo.no_of_tables {
        st
    } else {
        let idx: u32 = table_indices_of(cuckoo, e.0@)[k];
        let entered = st.tables.update(k, st.tables[k].insert(idx, e));
        if st.tables[k].contains_key(idx) {
            let evicted = HashTableEntry(st.tables[k][idx].0, (k + 1) as u8);
            if k + 1 == cuckoo.no_of_tables {
                CuckooTables { tables: entered, stack: st.stack.push(evicted) }
            } else {
                place(cuckoo, CuckooTables { tables: entered, stack: st.stack }, evicted)
            }
        } else {
            CuckooTables { tables: entered, stack: st.stack }
        }
    }
}

/// The tables after the first `n` entries of `input` have been placed, in
/// their order.
pub open spec fn build(cuckoo: Cuckoo, input: Seq<HashTableEntry>, n: int) -> CuckooTables
    decreases n,
{
    if n <= 0 {
        empty_tables(cuckoo.no_of_tables as int)
    } else {
        place(cuckoo, build(cuckoo, input, n - 1), input[n - 1])
    }
}

/// Every entry of table `k` bears the number `k` and sits at the index that
/// its value hashes to in that table.
pub open spec fn tables_consistent(cuckoo: Cuckoo, tables: Seq<Map<u32, HashTableEntry>>) -> bool {
    &&& tables.len() == cuckoo.no_of_tables
    &&& forall|k: int, idx: u32|
        0 <= k < tables.len() && #[trigger] tables[k].contains_key(idx) ==> {
            &&& tables[k][idx].1 == k
            &&& idx == table_indices_of(cuckoo, tables[k][idx].0@)[k]
        }
}

/// The value `value` sits in one of the tables.
pub open spec fn in_tables(tables: Seq<Map<u32, HashTableEntry>>, value: Seq<u8>) -> bool {
    exists|k: int, idx: u32|
        0 <= k < tables.len() && #[trigger] tables[k].contains_key(idx) && tables[k][idx].0@
            == value
}

/// The value `value` lies on the stack.
pub open spec fn on_stack(stack: Seq<HashTableEntry>, value: Seq<u8>) -> bool {
    exists|j: int| 0 <= j < stack.len() && (#[trigger] stack[j]).0@ == value
}

/// Placing an entry keeps the tables consistent, keeps every value that was
/// in the tables or on the stack, and adds the value placed.
pub proof fn lemma_place_keeps(cuckoo: Cuckoo, st: CuckooTables, e: HashTableEntry)
    requires
        cuckoo.no_of_tables <= 8,
        e.1 < cuckoo.no_of_tables,
        tables_consistent(cuckoo, st.tables),
    ensures
        tables_consistent(cuckoo, place(cuckoo, st, e).tables),
        in_tables(place(cuckoo, st, e).tables, e.0@) || on_stack(place(cuckoo, st, e).stack, e.0@),
        forall|value: Seq<u8>|
            in_tables(st.tables, value) || on_stack(st.stack, value) ==> in_tables(
                place(cuckoo, st, e).tables,
                value,
            ) || on_stack(place(cuckoo, st, e).stack, value),
    decreases cuckoo.no_of_tables - e.1,
{
    let k: int = e.1 as int;
    let idx: u32 = table_indices_of(cuckoo, e.0@)[k];
    let entered = st.tables.update(k, st.tables[k].insert(idx, e));
    let after = place(cuckoo, st, e);
    // the tables right after `e` has entered
    assert(tables_consistent(cuckoo, entered)) by {
        assert forall|k2: int, i2: u32|
            0 <= k2 < entered.len() && #[trigger] entered[k2].contains_key(i2) implies entered[k2][i2].1
            == k2 && i2 == table_indices_of(cuckoo, entered[k2][i2].0@)[k2] by {
            if k2 == k && i2 == idx {
            } else {
                assert(st.tables[k2].contains_key(i2));
            }
        }
    }
    assert(in_tables(entered, e.0@)) by {
        assert(entered[k].contains_key(idx) && entered[k][idx].0@ == e.0@);
    }
    if st.tables[k].contains_key(idx) {
        let old_entry = st.tables[k][idx];
        let evicted = HashTableEntry(old_entry.0, (k + 1) as u8);
        // what was in the tables is still there, or is the entry evicted
        assert forall|value: Seq<u8>| in_tables(st.tables, value) implies in_tables(entered, value)
            || value == evicted.0@ by {
            let (k2, i2) = choose|k2: int, i2: u32|
                0 <= k2 < st.tables.len() && #[trigger] st.tables[k2].contains_key(i2)
                    && st.tables[k2][i2].0@ == value;
            if k2 == k && i2 == idx {
            } else {
                assert(entered[k2].contains_key(i2) && entered[k2][i2].0@ == value);
            }
        }
        if k + 1 == cuckoo.no_of_tables {
            let pushed = st.stack.push(evicted);
            assert(on_stack(pushed, evicted.0@)) by {
                assert(pushed[st.stack.len() as int].0@ == evicted.0@);
            }
            assert forall|value: Seq<u8>| on_stack(st.stack, value) implies on_stack(
                pushed,
                value,
            ) by {
                let j = choose|j: int| 0 <= j < st.stack.len() && (#[trigger] st.stack[j]).0@ == value;
                assert(pushed[j].0@ == value);
            }
        } else {
            let mid = CuckooTables { tables: entered, stack: st.stack };
            lemma_place_keeps(cuckoo, mid, evicted);
        }
    } else {
        assert forall|value: Seq<u8>| in_tables(st.tables, value) implies in_tables(
            entered,
            value,
        ) by {
            let (k2, i2) = choose|k2: int, i2: u32|
                0 <= k2 < st.tables.len() && #[trigger] st.tables[k2].contains_key(i2)
                    && st.tables[k2][i2].0@ == value;
            assert(entered[k2].contains_key(i2) && entered[k2][i2].0@ == value);
        }
    }
}

/// After a build the tables are consistent, and every value of the input is
/// in one of the tables or on the stack.
pub proof fn lemma_build_places_all(cuckoo: Cuckoo, input: Seq<HashTableEntry>, n: int)
    requires
        cuckoo.no_of_tables <= 8,
        0 <= n <= input.len(),
        forall|i: int| 0 <= i < input.len() ==> (#[trigger] input[i]).1 < cuckoo.no_of_tables,
    ensures
        tables_consistent(cuckoo, build(cuckoo, input, n).tables),
        forall|i: int|
            0 <= i < n ==> in_tables(build(cuckoo, input, n).tables, (#[trigger] input[i]).0@)
                || on_stack(build(cuckoo, input, n).stack, input[i].0@),
    decreases n,
{
    if n > 0 {
        lemma_build_places_all(cuckoo, input, n - 1);
        lemma_place_keeps(cuckoo, build(cuckoo, input, n - 1), input[n - 1]);
    }
}

/// Hashing is deterministic: two runs on the same entries, in the same
/// order, with the same parameters, end with the same tables and the same
/// stack. `first` and `second` are what two runs have returned.
pub proof fn lemma_hash_tables_deterministic(
    cuckoo: Cuckoo,
    input: Seq<HashTableEntry>,
    first: (Seq<Map<u32, HashTableEntry>>, Seq<HashTableEntry>),
    second: (Seq<Map<u32, HashTableEntry>>, Seq<HashTableEntry>),
)
    requires
        first.0 == build(cuckoo, input, input.len() as int).tables,
        first.1 == build(cuckoo, input, input.len() as int).stack,
        second.0 == build(cuckoo, input, input.len() as int).tables,
        second.1 == build(cuckoo, input, input.len() as int).stack,
    ensures
        first == second,
{
}

impl Cuckoo {
    /// At most eight tables (a digest has eight 32-bit words), none of them
    /// empty.
    pub open spec fn wf(&self) -> bool {
        self.no_of_tables <= 8 && self.table_size > 0
    }

    pub fn new(no_of_tables: u8, table_size: u32) -> (cuckoo: Cuckoo)
        requires
            no_of_tables <= 8,
            table_size > 0,
        ensures
            cuckoo.wf(),
            cuckoo.no_of_tables == no_of_tables,
            cuckoo.table_size == table_size,
    {
        Cuckoo { no_of_tables, table_size }
    }

    /// Hashes the value and returns its index in each hash table.
    pub fn table_indices(&self, data: &U256) -> (indices: Vec<u32>)
        requires
            self.wf(),
        ensures
            indices@ == table_indices_of(*self, data@),
    {
        let digest: Vec<u8> = sha256(&data.bytes);
        indices_from_digest(digest.as_slice(), self.no_of_tables, self.table_size)
    }
}

/// Divides the digest into 32-bit words, taken as the outputs of different
/// hash functions, and reduces the first `no_of_tables` of them modulo
/// `table_size`.
pub fn indices_from_digest(digest: &[u8], no_of_tables: u8, table_size: u32) -> (indices: Vec<u32>)
    requires
        4 * no_of_tables <= digest@.len(),
        table_size > 0,
    ensures
        indices@ == digest_indices(digest@, no_of_tables as int, table_size as int),
{
    let mut indices: Vec<u32> = Vec::new();
    let mut k: usize = 0;
    while k < no_of_tables as usize
        invariant
            4 * no_of_tables <= digest@.len(),
            table_size > 0,
            k <= no_of_tables,
            indices@.len() == k,
            forall|m: int|
                0 <= m < k ==> #[trigger] indices@[m] == (le_value(digest@, 4 * m, 4) % (
                table_size as int)) as u32,
        decreases no_of_tables - k,
    {
        let word: u32 = word_at(digest, 4 * k);
        indices.push(word % table_size);
        k = k + 1;
    }
    assert(indices@ =~= digest_indices(digest@, no_of_tables as int, table_size as int));
    indices
}

/// The little-endian 32-bit number at `digest[start .. start + 4]`.
fn word_at(digest: &[u8], start: usize) -> (word: u32)
    requires
        start + 4 <= digest@.len(),
    ensures
        word as int == le_value(digest@, start as int, 4),
{
    let b0: u32 = digest[start] as u32;
    let b1: u32 = digest[start + 1] as u32;
    let b2: u32 = digest[start + 2] as u32;
    let b3: u32 = digest[start + 3] as u32;
    proof {
        reveal_with_fuel(le_value, 5);
    }
    b0 + 256 * (b1 + 256 * (b2 + 256 * b3))
}

impl HashTableEntry {
    pub fn new(value: U256) -> (entry: HashTableEntry)
        ensures
            entry.0 == value,
            entry.1 == 0,
    {
        HashTableEntry(value, 0)
    }

    pub fn entry_value(&self) -> (value: &U256)
        ensures
            *value == self.0,
    {
        &self.0
    }

    pub fn hash_index(&self) -> (index: usize)
        ensures
            index == self.1,
    {
        self.1 as usize
    }

    pub fn increase_hash_index(&mut self)
        requires
            old(self).1 < 255,
        ensures
            final(self).0 == old(self).0,
            final(self).1 == old(self).1 + 1,
    {
        self.1 = self.1 + 1;
    }
}

/// The hash tables as maps, for contracts.
pub open spec fn tables_view(tables: Seq<HashMap<u32, HashTableEntry>>) -> Seq<
    Map<u32, HashTableEntry>,
> {
    Seq::new(tables.len(), |k: int| tables[k]@)
}

/// Places the entries of `input`, in their order, into `cuckoo.no_of_tables`
/// hash tables. An entry enters the table whose number it bears, at the index
/// that its value hashes to there; the entry that it finds there leaves for
/// the next table, and from the last table for the stack.
///
/// Returns the tables and the stack.
pub fn construct_hash_tables(input: &[HashTableEntry], cuckoo: &Cuckoo) -> (res: (
    Vec<HashMap<u32, HashTableEntry>>,
    Vec<HashTableEntry>,
))
    requires
        cuckoo.wf(),
        forall|i: int| 0 <= i < input@.len() ==> (#[trigger] input@[i]).1 < cuckoo.no_of_tables,
    ensures
        tables_view(res.0@) == build(*cuckoo, input@, input@.len() as int).tables,
        res.1@ == build(*cuckoo, input@, input@.len() as int).stack,
{
    broadcast use vstd::std_specs::hash::group_hash_axioms;

    let h: usize = cuckoo.no_of_tables as usize;
    let mut hash_tables: Vec<HashMap<u32, HashTableEntry>> = Vec::new();
    let mut t: usize = 0;
    while t < h
        invariant
            t <= h,
            hash_tables@.len() == t,
            forall|k: int| 0 <= k < t ==> (#[trigger] hash_tables@[k])@ == Map::<
                u32,
                HashTableEntry,
            >::empty(),
        decreases h - t,
    {
        hash_tables.push(HashMap::new());
        t = t + 1;
    }
    let mut stack: Vec<HashTableEntry> = Vec::new();
    assert(tables_view(hash_tables@) =~= empty_tables(h as int).tables);

    let n: usize = input.len();
    let mut curr_index: usize = 0;
    let mut curr_element: Option<HashTableEntry> = None;
    proof {
        lemma_build_places_all(*cuckoo, input@, 0);
    }
    while curr_index < n
        invariant
            cuckoo.wf(),
            h == cuckoo.no_of_tables,
            n == input@.len(),
            curr_index <= n,
            forall|i: int| 0 <= i < input@.len() ==> (#[trigger] input@[i]).1 < cuckoo.no_of_tables,
            hash_tables@.len() == h,
            tables_consistent(*cuckoo, tables_view(hash_tables@)),
            match curr_element {
                None => CuckooTables { tables: tables_view(hash_tables@), stack: stack@ } == build(
                    *cuckoo,
                    input@,
                    curr_index as int,
                ),
                Some(e) => curr_index < n && e.1 < h && place(
                    *cuckoo,
                    CuckooTables { tables: tables_view(hash_tables@), stack: stack@ },
                    e,
                ) == build(*cuckoo, input@, curr_index + 1),
            },
        decreases
                n - curr_index,
                (match curr_element {
                    None => h + 1,
                    Some(e) => h - e.1,
                }),
    {
        let data: HashTableEntry = match curr_element {
            Some(e) => e,
            None => input[curr_index],
        };
        let ghost before = CuckooTables { tables: tables_view(hash_tables@), stack: stack@ };
        assert(place(*cuckoo, before, data) == build(*cuckoo, input@, curr_index + 1));
        let indices: Vec<u32> = cuckoo.table_indices(data.entry_value());
        let k: usize = data.hash_index();
        let idx: u32 = indices[k];
        let old_value: Option<HashTableEntry> = hash_tables[k].insert(idx, data);
        let ghost entered = before.tables.update(k as int, before.tables[k as int].insert(idx, data));
        assert(tables_view(hash_tables@) =~= entered);
        proof {
            lemma_place_keeps(*cuckoo, before, data);
            assert(tables_consistent(*cuckoo, entered)) by {
                assert forall|k2: int, i2: u32|
                    0 <= k2 < entered.len() && #[trigger] entered[k2].contains_key(i2) implies entered[k2][i2].1
                    == k2 && i2 == table_indices_of(*cuckoo, entered[k2][i2].0@)[k2] by {
                    if k2 == k && i2 == idx {
                    } else {
                        assert(before.tables[k2].contains_key(i2));
                    }
                }
            }
        }
        match old_value {
            Some(found) => {
                let mut v: HashTableEntry = found;
                assert(before.tables[k as int].contains_key(idx));
                assert(v.1 == k);
                v.increase_hash_index();
                assert(v == HashTableEntry(before.tables[k as int][idx].0, (k + 1) as u8));
                if v.hash_index() == h {
                    stack.push(v);
                    curr_index = curr_index + 1;
                    curr_element = None;
                } else {
                    curr_element = Some(v);
                }
            },
            None => {
                curr_index = curr_index + 1;
                curr_element = None;
            },
        }
    }
    (hash_tables, stack)
}

} // verus!
