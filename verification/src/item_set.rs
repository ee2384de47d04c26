//! A set of 256-bit values, held in buckets under their four lowest bytes.

use crate::utils::{chunk_at, le_value, U256};
use std::collections::HashMap;
use vstd::prelude::*;

verus! {

/// The bucket of a value: the number that its four lowest bytes spell.
pub open spec fn bucket_key(value: Seq<u8>) -> int {
    le_value(value, 0, 4)
}

/// A set of 256-bit values.
pub struct ItemSet {
    pub buckets: HashMap<u32, Vec<U256>>,
    pub count: usize,
    /// The values of the set, each as its 32 bytes.
    pub items: Ghost<Set<Seq<u8>>>,
}

impl View for ItemSet {
    type V = Set<Seq<u8>>;

    open spec fn view(&self) -> Set<Seq<u8>> {
        self.items@
    }
}

/// Every value of a bucket belongs there and is in the set.
pub open spec fn buckets_sound(buckets: Map<u32, Vec<U256>>, items: Set<Seq<u8>>) -> bool {
    forall|k: u32, i: int|
        buckets.contains_key(k) && 0 <= i < buckets[k]@.len() ==> bucket_key(
            (#[trigger] buckets[k]@[i])@,
        ) == k && items.contains(buckets[k]@[i]@)
}

/// Every value of the set is in its bucket.
pub open spec fn buckets_complete(buckets: Map<u32, Vec<U256>>, items: Set<Seq<u8>>) -> bool {
    forall|v: Seq<u8>| #[trigger]
        items.contains(v) ==> buckets.contains_key(bucket_key(v) as u32) && in_bucket(
            buckets[bucket_key(v) as u32]@,
            v,
        )
}

/// The bucket holds the value `v`.
pub open spec fn in_bucket(bucket: Seq<U256>, v: Seq<u8>) -> bool {
    exists|i: int| 0 <= i < bucket.len() && (#[trigger] bucket[i])@ == v
}

impl ItemSet {
    /// The buckets hold the values of the set, and `count` counts them.
    pub open spec fn wf(&self) -> bool {
        &&& self.items@.finite()
        &&& self.count == self.items@.len()
        &&& buckets_sound(self.buckets@, self.items@)
        &&& buckets_complete(self.buckets@, self.items@)
    }

    /// The empty set.
    pub fn new() -> (set: ItemSet)
        ensures
            set.wf(),
            set@ == Set::<Seq<u8>>::empty(),
    {
        broadcast use vstd::std_specs::hash::group_hash_axioms;

        ItemSet { buckets: HashMap::new(), count: 0, items: Ghost(Set::empty()) }
    }

    /// Number of values in the set.
    pub fn len(&self) -> (n: usize)
        requires
            self.wf(),
        ensures
            n == self@.len(),
    {
        self.count
    }

    /// Whether the value is in the set.
    pub fn contains(&self, value: &U256) -> (b: bool)
        requires
            self.wf(),
        ensures
            b == self@.contains(value@),
    {
        broadcast use vstd::std_specs::hash::group_hash_axioms;

        let key: u32 = chunk_at(value, 0, 4);
        match self.buckets.get(&key) {
            None => false,
            Some(bucket) => {
                let found: bool = bucket_contains(bucket, value);
                proof {
                    if found {
                        let i = choose|i: int| 0 <= i < bucket@.len() && (#[trigger] bucket@[i])@
                            == value@;
                        assert(self.items@.contains(self.buckets@[key]@[i]@));
                    }
                }
                found
            },
        }
    }

    /// Adds the value to the set. Returns whether it was new.
    pub fn insert(&mut self, value: U256) -> (fresh: bool)
        requires
            old(self).wf(),
            old(self)@.len() < usize::MAX,
        ensures
            final(self).wf(),
            fresh == !old(self)@.contains(value@),
            final(self)@ == old(self)@.insert(value@),
    {
        broadcast use vstd::std_specs::hash::group_hash_axioms;

        if self.contains(&value) {
            assert(self.items@.insert(value@) =~= self.items@);
            return false;
        }
        let ghost before = self.buckets@;
        let ghost items = self.items@;
        let key: u32 = chunk_at(&value, 0, 4);
        let mut bucket: Vec<U256> = match self.buckets.remove(&key) {
            Some(b) => b,
            None => Vec::new(),
        };
        let ghost old_bucket = bucket@;
        bucket.push(value);
        let ghost new_bucket = bucket@;
        self.buckets.insert(key, bucket);
        self.count = self.count + 1;
        self.items = Ghost(items.insert(value@));
        proof {
            let after = self.buckets@;
            assert(after.contains_key(key) && after[key]@ == new_bucket);
            assert forall|k: u32| k != key implies (after.contains_key(k) <==> before.contains_key(
                k,
            )) && (after.contains_key(k) ==> after[k] == before[k]) by {}
            assert(before.contains_key(key) ==> old_bucket == before[key]@);
            assert(!before.contains_key(key) ==> old_bucket.len() == 0);
            assert(buckets_sound(after, self.items@)) by {
                assert forall|k: u32, i: int|
                    after.contains_key(k) && 0 <= i < after[k]@.len() implies bucket_key(
                    (#[trigger] after[k]@[i])@,
                ) == k && self.items@.contains(after[k]@[i]@) by {
                    if k == key {
                        if i < old_bucket.len() {
                            assert(new_bucket[i] == old_bucket[i]);
                            assert(before[k]@[i] == old_bucket[i]);
                            assert(items.contains(before[k]@[i]@));
                        }
                    } else {
                        assert(items.contains(before[k]@[i]@));
                    }
                }
            }
            assert(buckets_complete(after, self.items@)) by {
                assert forall|v: Seq<u8>| #[trigger] self.items@.contains(v) implies after.contains_key(
                    bucket_key(v) as u32,
                ) && in_bucket(after[bucket_key(v) as u32]@, v) by {
                    let k: u32 = bucket_key(v) as u32;
                    if v == value@ {
                        assert(new_bucket[old_bucket.len() as int]@ == v);
                    } else {
                        assert(items.contains(v));
                        let i = choose|i: int|
                            0 <= i < before[k]@.len() && (#[trigger] before[k]@[i])@ == v;
                        if k == key {
                            assert(new_bucket[i] == old_bucket[i]);
                            assert(new_bucket[i]@ == v);
                        } else {
                            assert(after[k]@[i]@ == v);
                        }
                    }
                }
            }
        }
        true
    }
}

/// Whether the bucket holds the value.
fn bucket_contains(bucket: &Vec<U256>, value: &U256) -> (b: bool)
    ensures
        b == in_bucket(bucket@, value@),
{
    let mut i: usize = 0;
    while i < bucket.len()
        invariant
            i <= bucket@.len(),
            forall|j: int| 0 <= j < i ==> (#[trigger] bucket@[j])@ != value@,
        decreases bucket@.len() - i,
    {
        if bucket[i].equals(value) {
            return true;
        }
        i = i + 1;
    }
    false
}

} // verus!
