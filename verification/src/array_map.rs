//! Fixed-capacity single-slot hash table: one hundred buckets, at most one
//! pair per bucket, no collision resolution. A stored pair simply replaces
//! whatever pair its slot held before, and a lookup answers with whatever
//! pair occupies the slot — keys that collide are indistinguishable to it.
//! The collision-resolving tables of this crate remove that limit.

use crate::hashing::{hash_index, hash_spec, lemma_hash_spec_range};
use crate::pair::Pair;
use vstd::prelude::*;

verus! {

/// The fixed number of buckets.
pub const ARRAY_MAP_BUCKETS: usize = 100;

/// The pairs held by the slots, in slot order.
pub open spec fn array_entries(s: Seq<Option<Pair>>) -> Seq<Pair>
    decreases s.len(),
{
    if s.len() == 0 {
        Seq::empty()
    } else {
        array_entries(s.drop_last()) + match s.last() {
            Some(pair) => seq![pair],
            None => Seq::empty(),
        }
    }
}

proof fn lemma_array_entries_none(s: Seq<Option<Pair>>)
    requires
        forall|j: int| 0 <= j < s.len() ==> (#[trigger] s[j]) is None,
    ensures
        array_entries(s) == Seq::<Pair>::empty(),
    decreases s.len(),
{
    if s.len() > 0 {
        lemma_array_entries_none(s.drop_last());
        assert(array_entries(s) =~= Seq::<Pair>::empty());
    }
}

/// A key-value table backed by a plain array of one hundred single-pair
/// buckets, indexed by the shared hash function.
pub struct ArrayHashMap {
    buckets: Vec<Option<Pair>>,
}

impl ArrayHashMap {
    /// The slot array.
    pub closed spec fn spec_buckets(self) -> Seq<Option<Pair>> {
        self.buckets@
    }

    /// The slot that key `k` hashes to.
    pub open spec fn spec_slot(self, k: i32) -> Option<Pair> {
        self.spec_buckets()[hash_spec(k as int, ARRAY_MAP_BUCKETS as int)]
    }

    /// Internal soundness: one hundred slots, and every stored pair sits in
    /// the slot its key hashes to.
    pub closed spec fn wf(self) -> bool {
        &&& self.buckets@.len() == ARRAY_MAP_BUCKETS as int
        &&& forall|j: int|
            0 <= j < self.buckets@.len() && (#[trigger] self.buckets@[j]) is Some ==> hash_spec(
                self.buckets@[j]->Some_0.key as int,
                ARRAY_MAP_BUCKETS as int,
            ) == j
    }

    /// Creates the table with all one hundred buckets empty.
    pub fn new() -> (table: ArrayHashMap)
        ensures
            table.wf(),
            table.spec_buckets().len() == ARRAY_MAP_BUCKETS as int,
            forall|j: int|
                0 <= j < table.spec_buckets().len() ==> (#[trigger] table.spec_buckets()[j])
                    is None,
            array_entries(table.spec_buckets()) == Seq::<Pair>::empty(),
    {
        let mut buckets: Vec<Option<Pair>> = Vec::new();
        let mut i: usize = 0;
        while i < ARRAY_MAP_BUCKETS
            invariant
                i <= ARRAY_MAP_BUCKETS,
                buckets@.len() == i as int,
                forall|j: int| 0 <= j < i ==> (#[trigger] buckets@[j]) is None,
            decreases ARRAY_MAP_BUCKETS - i,
        {
            buckets.push(None);
            i += 1;
        }
        let table = ArrayHashMap { buckets };
        proof {
            lemma_array_entries_none(table.buckets@);
        }
        table
    }

    /// The slot index of `key`.
    fn hash_func(&self, key: i32) -> (index: usize)
        ensures
            index as int == hash_spec(key as int, ARRAY_MAP_BUCKETS as int),
            index < ARRAY_MAP_BUCKETS,
    {
        proof {
            lemma_hash_spec_range(key as int, ARRAY_MAP_BUCKETS as int);
        }
        hash_index(key, ARRAY_MAP_BUCKETS)
    }

    /// Returns the value of whatever pair occupies the slot `key` hashes to,
    /// or nothing when that slot is empty. The stored key is not compared:
    /// after a colliding key displaced the occupant, the lookup answers with
    /// the collider's value.
    pub fn get(&self, key: i32) -> (value: Option<&String>)
        requires
            self.wf(),
        ensures
            match value {
                Some(v) => self.spec_slot(key) is Some && v@ == self.spec_slot(
                    key,
                )->Some_0.value@,
                None => self.spec_slot(key) is None,
            },
    {
        let index = self.hash_func(key);
        match &self.buckets[index] {
            Some(pair) => Some(&pair.value),
            None => None,
        }
    }

    /// Stores `value` under `key` in the slot the key hashes to, displacing
    /// whatever pair occupied that slot — also one with a different,
    /// colliding key. Every other slot is untouched.
    pub fn put(&mut self, key: i32, value: &str)
        requires
            old(self).wf(),
        ensures
            final(self).wf(),
            final(self).spec_buckets().len() == old(self).spec_buckets().len(),
            final(self).spec_slot(key) is Some,
            final(self).spec_slot(key)->Some_0.key == key,
            final(self).spec_slot(key)->Some_0.value@ == value@,
            forall|j: int|
                0 <= j < old(self).spec_buckets().len() && j != hash_spec(
                    key as int,
                    ARRAY_MAP_BUCKETS as int,
                ) ==> (#[trigger] final(self).spec_buckets()[j]) == old(self).spec_buckets()[j],
    {
        let index = self.hash_func(key);
        self.buckets[index] = Some(Pair { key, value: value.to_owned() });
    }

    /// Clears the slot that `key` hashes to, whatever pair it holds — also
    /// one with a different, colliding key. Every other slot is untouched.
    pub fn remove(&mut self, key: i32)
        requires
            old(self).wf(),
        ensures
            final(self).wf(),
            final(self).spec_buckets() == old(self).spec_buckets().update(
                hash_spec(key as int, ARRAY_MAP_BUCKETS as int),
                None::<Pair>,
            ),
    {
        let index = self.hash_func(key);
        self.buckets[index] = None;
    }

    /// Copies of all stored pairs, in slot order.
    pub fn entry_set(&self) -> (entries: Vec<Pair>)
        requires
            self.wf(),
        ensures
            entries@ == array_entries(self.spec_buckets()),
    {
        let mut entries: Vec<Pair> = Vec::new();
        let mut i: usize = 0;
        while i < self.buckets.len()
            invariant
                i <= self.buckets@.len(),
                entries@ == array_entries(self.buckets@.subrange(0, i as int)),
            decreases self.buckets@.len() - i,
        {
            match &self.buckets[i] {
                Some(pair) => entries.push(pair.clone()),
                None => (),
            }
            i += 1;
            proof {
                assert(self.buckets@.subrange(0, i as int).drop_last() =~= self.buckets@.subrange(
                    0,
                    i as int - 1,
                ));
            }
        }
        proof {
            assert(self.buckets@.subrange(0, self.buckets@.len() as int) =~= self.buckets@);
        }
        entries
    }

    /// The keys of all stored pairs, in slot order.
    pub fn key_set(&self) -> (keys: Vec<i32>)
        requires
            self.wf(),
        ensures
            keys@ == array_entries(self.spec_buckets()).map_values(|pair: Pair| pair.key),
    {
        let mut keys: Vec<i32> = Vec::new();
        let mut i: usize = 0;
        while i < self.buckets.len()
            invariant
                i <= self.buckets@.len(),
                keys@ == array_entries(self.buckets@.subrange(0, i as int)).map_values(
                    |pair: Pair| pair.key,
                ),
            decreases self.buckets@.len() - i,
        {
            match &self.buckets[i] {
                Some(pair) => keys.push(pair.key),
                None => (),
            }
            i += 1;
            proof {
                assert(self.buckets@.subrange(0, i as int).drop_last() =~= self.buckets@.subrange(
                    0,
                    i as int - 1,
                ));
                assert(keys@ =~= array_entries(self.buckets@.subrange(0, i as int)).map_values(
                    |pair: Pair| pair.key,
                ));
            }
        }
        proof {
            assert(self.buckets@.subrange(0, self.buckets@.len() as int) =~= self.buckets@);
        }
        keys
    }
}

} // verus!
