//! Separate-chaining hash table.
//!
//! Each slot owns an ordered bucket of key-value pairs; colliding keys are
//! appended to the bucket their hash selects. The table grows by doubling
//! once the load factor passes the 2/3 threshold, rehashing every pair.
//!
//! The table is specified against a mathematical `Map<i32, Seq<char>>` view.

use crate::hashing::{hash_index, hash_spec, lemma_hash_spec_range};
use crate::pair::Pair;
use vstd::prelude::*;

verus! {

/// Some pair of the bucket holds key `k`.
pub open spec fn bucket_has_key(b: Seq<Pair>, k: i32) -> bool {
    exists|i: int| 0 <= i < b.len() && (#[trigger] b[i]).key == k
}

/// The position of the pair holding key `k` in the bucket.
pub open spec fn bucket_key_index(b: Seq<Pair>, k: i32) -> int {
    choose|i: int| 0 <= i < b.len() && (#[trigger] b[i]).key == k
}

/// No two pairs of the bucket share a key.
pub open spec fn bucket_keys_unique(b: Seq<Pair>) -> bool {
    forall|i1: int, i2: int|
        #![trigger b[i1], b[i2]]
        0 <= i1 < b.len() && 0 <= i2 < b.len() && i1 != i2 ==> b[i1].key != b[i2].key
}

/// Every pair of the bucket hashes to the bucket's own slot `j`.
pub open spec fn bucket_hashes_to(b: Seq<Pair>, j: int, capacity: int) -> bool {
    forall|i: int| 0 <= i < b.len() ==> hash_spec((#[trigger] b[i]).key as int, capacity) == j
}

/// Every bucket holds pairs that hash to it, with no key repeated.
pub open spec fn buckets_wf(bs: Seq<Vec<Pair>>) -> bool {
    forall|j: int|
        0 <= j < bs.len() ==> bucket_keys_unique((#[trigger] bs[j])@) && bucket_hashes_to(
            bs[j]@,
            j,
            bs.len() as int,
        )
}

/// Key `k` is stored somewhere in the given buckets.
pub open spec fn chain_has_key(bs: Seq<Vec<Pair>>, k: i32) -> bool {
    exists|j: int| 0 <= j < bs.len() && bucket_has_key((#[trigger] bs[j])@, k)
}

/// The buckets read as a mathematical map from keys to values.
pub open spec fn chain_contents(bs: Seq<Vec<Pair>>) -> Map<i32, Seq<char>> {
    Map::new(
        |k: i32| bs.len() > 0 && bucket_has_key(bs[hash_spec(k as int, bs.len() as int)]@, k),
        |k: i32|
            {
                let b = bs[hash_spec(k as int, bs.len() as int)]@;
                b[bucket_key_index(b, k)].value@
            },
    )
}

/// How many pairs the buckets hold in total.
pub open spec fn chain_count(bs: Seq<Vec<Pair>>) -> int
    decreases bs.len(),
{
    if bs.len() == 0 {
        0
    } else {
        chain_count(bs.drop_last()) + bs.last()@.len()
    }
}

proof fn lemma_bucket_key_index_works(b: Seq<Pair>, k: i32)
    requires
        bucket_has_key(b, k),
    ensures
        0 <= bucket_key_index(b, k) < b.len(),
        b[bucket_key_index(b, k)].key == k,
{
}

proof fn lemma_bucket_key_index_unique(b: Seq<Pair>, k: i32, i: int)
    requires
        bucket_keys_unique(b),
        0 <= i < b.len(),
        b[i].key == k,
    ensures
        bucket_has_key(b, k),
        bucket_key_index(b, k) == i,
{
    assert(bucket_has_key(b, k));
    lemma_bucket_key_index_works(b, k);
}

proof fn lemma_chain_count_nonneg(bs: Seq<Vec<Pair>>)
    ensures
        chain_count(bs) >= 0,
    decreases bs.len(),
{
    if bs.len() > 0 {
        lemma_chain_count_nonneg(bs.drop_last());
    }
}

proof fn lemma_chain_count_update(bs: Seq<Vec<Pair>>, j: int, b: Vec<Pair>)
    requires
        0 <= j < bs.len(),
    ensures
        chain_count(bs.update(j, b)) == chain_count(bs) - bs[j]@.len() + b@.len(),
    decreases bs.len(),
{
    let u = bs.update(j, b);
    if j == bs.len() - 1 {
        assert(u.drop_last() =~= bs.drop_last());
    } else {
        assert(u.drop_last() =~= bs.drop_last().update(j, b));
        lemma_chain_count_update(bs.drop_last(), j, b);
    }
}

proof fn lemma_chain_count_at_least_bucket(bs: Seq<Vec<Pair>>, j: int)
    requires
        0 <= j < bs.len(),
    ensures
        chain_count(bs) >= bs[j]@.len(),
    decreases bs.len(),
{
    lemma_chain_count_nonneg(bs.drop_last());
    if j < bs.len() - 1 {
        lemma_chain_count_at_least_bucket(bs.drop_last(), j);
    }
}

/// Taking a bucket out of the slot array and putting one back in its place
/// is the same as updating the slot.
proof fn lemma_remove_insert_is_update(bs: Seq<Vec<Pair>>, j: int, b: Vec<Pair>)
    requires
        0 <= j < bs.len(),
    ensures
        bs.remove(j).insert(j, b) =~= bs.update(j, b),
{
}

/// Overwriting the value of the pair that already holds the key keeps the
/// buckets sound and updates the contents in place.
proof fn lemma_chain_overwrite(bs: Seq<Vec<Pair>>, j: int, i: int, bucket2: Vec<Pair>, pair: Pair)
    requires
        buckets_wf(bs),
        bs.len() > 0,
        0 <= j < bs.len(),
        0 <= i < bs[j]@.len(),
        bs[j]@[i].key == pair.key,
        bucket2@ == bs[j]@.update(i, pair),
    ensures
        buckets_wf(bs.update(j, bucket2)),
        chain_contents(bs.update(j, bucket2)) == chain_contents(bs).insert(pair.key, pair.value@),
        chain_count(bs.update(j, bucket2)) == chain_count(bs),
{
    let bs2 = bs.update(j, bucket2);
    let cap = bs.len() as int;
    lemma_chain_count_update(bs, j, bucket2);
    assert(hash_spec(pair.key as int, cap) == j);

    assert forall|t: int| 0 <= t < bucket2@.len() implies (#[trigger] bucket2@[t]).key
        == bs[j]@[t].key by {}
    assert(bucket_keys_unique(bucket2@));
    assert(bucket_hashes_to(bucket2@, j, cap));
    assert(buckets_wf(bs2));

    assert forall|k: i32|
        #![trigger chain_contents(bs2).contains_key(k)]
        chain_contents(bs2).contains_key(k) == chain_contents(bs).insert(
            pair.key,
            pair.value@,
        ).contains_key(k) && (chain_contents(bs2).contains_key(k) ==> chain_contents(bs2)[k]
        == chain_contents(bs).insert(pair.key, pair.value@)[k]) by {
        let hk = hash_spec(k as int, cap);
        lemma_hash_spec_range(k as int, cap);
        if k == pair.key {
            assert(bucket2@[i].key == k);
            lemma_bucket_key_index_unique(bucket2@, k, i);
            assert(chain_contents(bs2)[k] == pair.value@);
        } else if hk == j {
            if bucket_has_key(bs[j]@, k) {
                let x = bucket_key_index(bs[j]@, k);
                lemma_bucket_key_index_works(bs[j]@, k);
                assert(x != i);
                assert(bucket2@[x] == bs[j]@[x]);
                lemma_bucket_key_index_unique(bucket2@, k, x);
            }
            if bucket_has_key(bucket2@, k) {
                let x = bucket_key_index(bucket2@, k);
                lemma_bucket_key_index_works(bucket2@, k);
                assert(x != i);
                assert(bucket2@[x] == bs[j]@[x]);
                lemma_bucket_key_index_unique(bs[j]@, k, x);
            }
        } else {
            assert(bs2[hk] == bs[hk]);
        }
    }
    assert(chain_contents(bs2) =~= chain_contents(bs).insert(pair.key, pair.value@));
}

/// Appending a pair whose key is fresh to the bucket its hash selects keeps
/// the buckets sound and inserts the pair into the contents.
proof fn lemma_chain_append(bs: Seq<Vec<Pair>>, j: int, bucket2: Vec<Pair>, pair: Pair)
    requires
        buckets_wf(bs),
        bs.len() > 0,
        0 <= j < bs.len(),
        !bucket_has_key(bs[j]@, pair.key),
        hash_spec(pair.key as int, bs.len() as int) == j,
        bucket2@ == bs[j]@.push(pair),
    ensures
        buckets_wf(bs.update(j, bucket2)),
        chain_contents(bs.update(j, bucket2)) == chain_contents(bs).insert(pair.key, pair.value@),
        chain_count(bs.update(j, bucket2)) == chain_count(bs) + 1,
{
    let bs2 = bs.update(j, bucket2);
    let cap = bs.len() as int;
    let old_len = bs[j]@.len() as int;
    lemma_chain_count_update(bs, j, bucket2);

    assert(bucket_keys_unique(bucket2@));
    assert(bucket_hashes_to(bucket2@, j, cap));
    assert(buckets_wf(bs2));

    assert forall|k: i32|
        #![trigger chain_contents(bs2).contains_key(k)]
        chain_contents(bs2).contains_key(k) == chain_contents(bs).insert(
            pair.key,
            pair.value@,
        ).contains_key(k) && (chain_contents(bs2).contains_key(k) ==> chain_contents(bs2)[k]
        == chain_contents(bs).insert(pair.key, pair.value@)[k]) by {
        let hk = hash_spec(k as int, cap);
        lemma_hash_spec_range(k as int, cap);
        if k == pair.key {
            assert(bucket2@[old_len].key == k);
            lemma_bucket_key_index_unique(bucket2@, k, old_len);
            assert(chain_contents(bs2)[k] == pair.value@);
        } else if hk == j {
            if bucket_has_key(bs[j]@, k) {
                let x = bucket_key_index(bs[j]@, k);
                lemma_bucket_key_index_works(bs[j]@, k);
                assert(bucket2@[x] == bs[j]@[x]);
                lemma_bucket_key_index_unique(bucket2@, k, x);
            }
            if bucket_has_key(bucket2@, k) {
                let x = bucket_key_index(bucket2@, k);
                lemma_bucket_key_index_works(bucket2@, k);
                assert(x != old_len);
                assert(bucket2@[x] == bs[j]@[x]);
                lemma_bucket_key_index_unique(bs[j]@, k, x);
            }
        } else {
            assert(bs2[hk] == bs[hk]);
        }
    }
    assert(chain_contents(bs2) =~= chain_contents(bs).insert(pair.key, pair.value@));
}

/// Removing a pair from its bucket keeps the buckets sound and removes
/// exactly that key from the contents.
proof fn lemma_chain_remove_pair(bs: Seq<Vec<Pair>>, j: int, i: int, bucket2: Vec<Pair>)
    requires
        buckets_wf(bs),
        bs.len() > 0,
        0 <= j < bs.len(),
        0 <= i < bs[j]@.len(),
        bucket2@ == bs[j]@.remove(i),
    ensures
        buckets_wf(bs.update(j, bucket2)),
        chain_contents(bs.update(j, bucket2)) == chain_contents(bs).remove(bs[j]@[i].key),
        chain_count(bs.update(j, bucket2)) == chain_count(bs) - 1,
{
    let bs2 = bs.update(j, bucket2);
    let cap = bs.len() as int;
    let b = bs[j]@;
    let key = b[i].key;
    lemma_chain_count_update(bs, j, bucket2);

    // Positions after the removed one shift down by one.
    assert forall|t: int| 0 <= t < bucket2@.len() implies (#[trigger] bucket2@[t]) == (if t < i {
        b[t]
    } else {
        b[t + 1]
    }) by {}

    assert forall|t1: int, t2: int|
        #![trigger bucket2@[t1], bucket2@[t2]]
        0 <= t1 < bucket2@.len() && 0 <= t2 < bucket2@.len() && t1 != t2 implies bucket2@[t1].key
        != bucket2@[t2].key by {
        let u1 = if t1 < i { t1 } else { t1 + 1 };
        let u2 = if t2 < i { t2 } else { t2 + 1 };
        assert(b[u1].key != b[u2].key);
    }
    assert(bucket_hashes_to(bucket2@, j, cap));
    assert(buckets_wf(bs2));

    assert forall|k: i32|
        #![trigger chain_contents(bs2).contains_key(k)]
        chain_contents(bs2).contains_key(k) == (chain_contents(bs).contains_key(k) && k != key) && (
        chain_contents(bs2).contains_key(k) ==> chain_contents(bs2)[k] == chain_contents(
            bs,
        )[k]) by {
        let hk = hash_spec(k as int, cap);
        lemma_hash_spec_range(k as int, cap);
        if hk == j {
            if bucket_has_key(bucket2@, k) {
                let x = bucket_key_index(bucket2@, k);
                lemma_bucket_key_index_works(bucket2@, k);
                let u = if x < i { x } else { x + 1 };
                assert(b[u].key == k);
                assert(u != i);
                assert(k != key);
                lemma_bucket_key_index_unique(b, k, u);
                lemma_bucket_key_index_unique(bucket2@, k, x);
            }
            if bucket_has_key(b, k) && k != key {
                let x = bucket_key_index(b, k);
                lemma_bucket_key_index_works(b, k);
                assert(x != i);
                let u = if x < i { x } else { x - 1 };
                assert(bucket2@[u].key == k);
                assert(bucket_has_key(bucket2@, k));
            }
            if bucket_has_key(b, k) && k == key {
                lemma_bucket_key_index_unique(b, k, i);
            }
        } else {
            assert(bs2[hk] == bs[hk]);
        }
    }
    assert(chain_contents(bs2) =~= chain_contents(bs).remove(key));
}

/// Finds the position of `key` in one bucket by a linear scan.
fn bucket_position(bucket: &Vec<Pair>, key: i32) -> (position: Option<usize>)
    ensures
        match position {
            Some(i) => i < bucket@.len() && bucket@[i as int].key == key,
            None => forall|t: int| 0 <= t < bucket@.len() ==> (#[trigger] bucket@[t]).key != key,
        },
{
    let mut i: usize = 0;
    while i < bucket.len()
        invariant
            i <= bucket@.len(),
            forall|t: int| 0 <= t < i ==> (#[trigger] bucket@[t]).key != key,
        decreases bucket@.len() - i,
    {
        if bucket[i].key == key {
            return Some(i);
        }
        i += 1;
    }
    None
}

/// Copies one bucket pair by pair.
fn clone_bucket(bucket: &Vec<Pair>) -> (copy: Vec<Pair>)
    ensures
        copy@ == bucket@,
{
    let mut copy: Vec<Pair> = Vec::new();
    let mut i: usize = 0;
    while i < bucket.len()
        invariant
            i <= bucket@.len(),
            copy@ =~= bucket@.subrange(0, i as int),
        decreases bucket@.len() - i,
    {
        copy.push(bucket[i].clone());
        i += 1;
        proof {
            assert(copy@ =~= bucket@.subrange(0, i as int));
        }
    }
    proof {
        assert(bucket@.subrange(0, bucket@.len() as int) =~= bucket@);
    }
    copy
}

/// A key-value table that resolves collisions by separate chaining: every
/// slot owns an ordered bucket of pairs, and the table doubles its capacity
/// once the load factor passes the 2/3 threshold.
pub struct HashMapChaining {
    size: usize,
    capacity: usize,
    load_thres_num: usize,
    load_thres_den: usize,
    extend_ratio: usize,
    buckets: Vec<Vec<Pair>>,
}

impl View for HashMapChaining {
    type V = Map<i32, Seq<char>>;

    closed spec fn view(&self) -> Map<i32, Seq<char>> {
        chain_contents(self.buckets@)
    }
}

impl HashMapChaining {
    /// The buckets, in slot order.
    pub closed spec fn spec_buckets(self) -> Seq<Vec<Pair>> {
        self.buckets@
    }

    /// How many pairs the table holds.
    pub closed spec fn spec_size(self) -> usize {
        self.size
    }

    /// How many buckets the table has.
    pub closed spec fn spec_capacity(self) -> usize {
        self.capacity
    }

    /// Internal soundness: the bucket array matches the capacity, the size
    /// counts all stored pairs, every pair sits in the bucket its hash
    /// selects, keys are unique, and the size stays within one insertion of
    /// the 2/3 load threshold.
    pub closed spec fn wf(self) -> bool {
        &&& self.buckets@.len() == self.capacity as int
        &&& self.capacity >= 4
        &&& self.size as int == chain_count(self.buckets@)
        &&& self.load_thres_num == 2usize
        &&& self.load_thres_den == 3usize
        &&& self.extend_ratio == 2usize
        &&& 3 * self.size as int <= 2 * self.capacity as int + 3
        &&& buckets_wf(self.buckets@)
    }

    /// Creates an empty table with four buckets and a 2/3 load threshold.
    pub fn new() -> (table: Self)
        ensures
            table.wf(),
            table@ == Map::<i32, Seq<char>>::empty(),
            table.spec_size() == 0,
            table.spec_capacity() == 4,
            table.spec_buckets().len() == 4,
            forall|j: int| 0 <= j < 4 ==> (#[trigger] table.spec_buckets()[j])@.len() == 0,
    {
        let mut buckets: Vec<Vec<Pair>> = Vec::new();
        buckets.push(Vec::new());
        buckets.push(Vec::new());
        buckets.push(Vec::new());
        buckets.push(Vec::new());
        let table = HashMapChaining {
            size: 0,
            capacity: 4,
            load_thres_num: 2,
            load_thres_den: 3,
            extend_ratio: 2,
            buckets,
        };
        proof {
            assert(forall|j: int|
                0 <= j < table.buckets@.len() ==> (#[trigger] table.buckets@[j])@.len() == 0);
            lemma_chain_count_empty(table.buckets@);
            assert(table@ =~= Map::<i32, Seq<char>>::empty());
        }
        table
    }

    /// The slot index of `key` under the current capacity.
    fn hash_func(&self, key: i32) -> (index: usize)
        requires
            self.wf(),
        ensures
            index as int == hash_spec(key as int, self.spec_capacity() as int),
            index < self.spec_capacity(),
    {
        proof {
            lemma_hash_spec_range(key as int, self.capacity as int);
        }
        hash_index(key, self.capacity)
    }

    /// Inserts or overwrites without checking the load factor; callers have
    /// already made room for one more pair.
    fn put_no_grow(&mut self, key: i32, value: String)
        requires
            old(self).wf(),
            3 * old(self).size as int <= 2 * old(self).capacity as int,
        ensures
            final(self).wf(),
            final(self)@ == old(self)@.insert(key, value@),
            final(self).capacity == old(self).capacity,
            final(self).size as int == old(self).size as int + (if old(
                self,
            )@.contains_key(key) {
                0int
            } else {
                1int
            }),
            !old(self)@.contains_key(key) ==> ({
                let slot = hash_spec(key as int, old(self).spec_capacity() as int);
                &&& final(self).spec_buckets().len() == old(self).spec_buckets().len()
                &&& forall|j: int|
                    0 <= j < old(self).spec_buckets().len() && j != slot ==> (#[trigger] final(self).spec_buckets()[j])@ == old(self).spec_buckets()[j]@
                &&& final(self).spec_buckets()[slot]@.len() == old(self).spec_buckets()[slot]@.len()
                    + 1
                &&& forall|i: int|
                    0 <= i < old(self).spec_buckets()[slot]@.len() ==> (#[trigger] final(self).spec_buckets()[slot]@[i]) == old(self).spec_buckets()[slot]@[i]
                &&& final(self).spec_buckets()[slot]@.last().key == key
                &&& final(self).spec_buckets()[slot]@.last().value@ == value@
            }),
            old(self)@.contains_key(key) ==> ({
                let slot = hash_spec(key as int, old(self).spec_capacity() as int);
                let position = bucket_key_index(old(self).spec_buckets()[slot]@, key);
                &&& final(self).spec_buckets().len() == old(self).spec_buckets().len()
                &&& forall|j: int|
                    0 <= j < old(self).spec_buckets().len() && j != slot ==> (#[trigger] final(self).spec_buckets()[j])@ == old(self).spec_buckets()[j]@
                &&& final(self).spec_buckets()[slot]@.len() == old(self).spec_buckets()[slot]@.len()
                &&& forall|i: int|
                    0 <= i < old(self).spec_buckets()[slot]@.len() && i != position ==> (
                    #[trigger] final(self).spec_buckets()[slot]@[i]) == old(
                        self,
                    ).spec_buckets()[slot]@[i]
                &&& final(self).spec_buckets()[slot]@[position].key == key
                &&& final(self).spec_buckets()[slot]@[position].value@ == value@
            }),
    {
        let index = self.hash_func(key);
        let ghost bs: Seq<Vec<Pair>> = self.buckets@;
        let mut bucket = self.buckets.remove(index);
        match bucket_position(&bucket, key) {
            Some(i) => {
                bucket[i] = Pair { key, value };
                proof {
                    lemma_chain_overwrite(bs, index as int, i as int, bucket, bucket@[i as int]);
                    lemma_remove_insert_is_update(bs, index as int, bucket);
                    lemma_bucket_key_index_unique(bs[index as int]@, key, i as int);
                }
                self.buckets.insert(index, bucket);
                proof {
                    assert(old(self).spec_buckets() == bs);
                    assert(self.spec_buckets() =~= bs.update(index as int, bucket));
                    assert(self.spec_buckets()[index as int]@ == bucket@);
                    assert forall|j: int|
                        0 <= j < bs.len() && j != index as int implies (#[trigger] self
                        .spec_buckets()[j])@ == bs[j]@ by {}
                }
            },
            None => {
                proof {
                    assert(!bucket_has_key(bs[index as int]@, key));
                }
                bucket.push(Pair { key, value });
                proof {
                    lemma_chain_append(
                        bs,
                        index as int,
                        bucket,
                        bucket@[bucket@.len() - 1],
                    );
                    lemma_remove_insert_is_update(bs, index as int, bucket);
                }
                self.buckets.insert(index, bucket);
                self.size = self.size + 1;
                proof {
                    assert(old(self).spec_buckets() == bs);
                    assert(self.spec_buckets() =~= bs.update(index as int, bucket));
                    assert(self.spec_buckets()[index as int]@ == bucket@);
                    assert forall|j: int|
                        0 <= j < bs.len() && j != index as int implies (#[trigger] self
                        .spec_buckets()[j])@ == bs[j]@ by {}
                }
            },
        }
    }

    /// Stores `value` under `key`. When the load factor already exceeds the
    /// 2/3 threshold the table first doubles its capacity and rehashes; the
    /// pair then either overwrites the entry holding `key` in its bucket, or
    /// is appended to that bucket, growing the size by one. Callers keep the
    /// capacity within half the index range so that doubling cannot overflow.
    pub fn put(&mut self, key: i32, value: String)
        requires
            old(self).wf(),
            old(self).spec_capacity() <= usize::MAX / 2,
        ensures
            final(self).wf(),
            final(self)@ == old(self)@.insert(key, value@),
            final(self).spec_size() as int == old(self).spec_size() as int + (if old(
                self,
            )@.contains_key(key) {
                0int
            } else {
                1int
            }),
            final(self).spec_capacity() as int == (if 3 * old(self).spec_size() as int > 2 * old(
                self,
            ).spec_capacity() as int {
                2 * old(self).spec_capacity() as int
            } else {
                old(self).spec_capacity() as int
            }),
            (3 * old(self).spec_size() as int <= 2 * old(self).spec_capacity() as int && !old(
                self,
            )@.contains_key(key)) ==> ({
                let slot = hash_spec(key as int, old(self).spec_capacity() as int);
                &&& final(self).spec_buckets().len() == old(self).spec_buckets().len()
                &&& forall|j: int|
                    0 <= j < old(self).spec_buckets().len() && j != slot ==> (#[trigger] final(self).spec_buckets()[j])@ == old(self).spec_buckets()[j]@
                &&& final(self).spec_buckets()[slot]@.len() == old(self).spec_buckets()[slot]@.len()
                    + 1
                &&& forall|i: int|
                    0 <= i < old(self).spec_buckets()[slot]@.len() ==> (#[trigger] final(self).spec_buckets()[slot]@[i]) == old(self).spec_buckets()[slot]@[i]
                &&& final(self).spec_buckets()[slot]@.last().key == key
                &&& final(self).spec_buckets()[slot]@.last().value@ == value@
            }),
            (3 * old(self).spec_size() as int <= 2 * old(self).spec_capacity() as int && old(
                self,
            )@.contains_key(key)) ==> ({
                let slot = hash_spec(key as int, old(self).spec_capacity() as int);
                let position = bucket_key_index(old(self).spec_buckets()[slot]@, key);
                &&& final(self).spec_buckets().len() == old(self).spec_buckets().len()
                &&& forall|j: int|
                    0 <= j < old(self).spec_buckets().len() && j != slot ==> (#[trigger] final(self).spec_buckets()[j])@ == old(self).spec_buckets()[j]@
                &&& final(self).spec_buckets()[slot]@.len() == old(self).spec_buckets()[slot]@.len()
                &&& forall|i: int|
                    0 <= i < old(self).spec_buckets()[slot]@.len() && i != position ==> (
                    #[trigger] final(self).spec_buckets()[slot]@[i]) == old(
                        self,
                    ).spec_buckets()[slot]@[i]
                &&& final(self).spec_buckets()[slot]@[position].key == key
                &&& final(self).spec_buckets()[slot]@[position].value@ == value@
            }),
    {
        let over_threshold = (self.size as u128) * (self.load_thres_den as u128) > (self.capacity
            as u128) * (self.load_thres_num as u128);
        if over_threshold {
            self.extend();
        }
        self.put_no_grow(key, value);
    }

    /// Looks `key` up in the bucket its hash selects and returns a copy of
    /// its value, or nothing when the key is absent. No mutation.
    pub fn get(&self, key: i32) -> (value: Option<String>)
        requires
            self.wf(),
        ensures
            match value {
                Some(v) => self@.contains_key(key) && v@ == self@[key],
                None => !self@.contains_key(key),
            },
    {
        let index = self.hash_func(key);
        let bucket = &self.buckets[index];
        match bucket_position(bucket, key) {
            Some(i) => {
                proof {
                    lemma_bucket_key_index_unique(bucket@, key, i as int);
                }
                Some(bucket[i].value.clone())
            },
            None => {
                proof {
                    assert(!bucket_has_key(self.buckets@[index as int]@, key));
                }
                None
            },
        }
    }

    /// Deletes `key` from its bucket, returning its value when it was
    /// present and shrinking the size by one; the order of the remaining
    /// pairs in that bucket is preserved. An absent key leaves the table
    /// unchanged and returns nothing.
    pub fn remove(&mut self, key: i32) -> (removed: Option<String>)
        requires
            old(self).wf(),
        ensures
            final(self).wf(),
            final(self)@ == old(self)@.remove(key),
            final(self).spec_capacity() == old(self).spec_capacity(),
            final(self).spec_size() as int == old(self).spec_size() as int - (if old(
                self,
            )@.contains_key(key) {
                1int
            } else {
                0int
            }),
            old(self)@.contains_key(key) ==> ({
                let slot = hash_spec(key as int, old(self).spec_capacity() as int);
                &&& final(self).spec_buckets().len() == old(self).spec_buckets().len()
                &&& forall|j: int|
                    0 <= j < old(self).spec_buckets().len() && j != slot ==> (#[trigger] final(self).spec_buckets()[j])@ == old(self).spec_buckets()[j]@
                &&& final(self).spec_buckets()[slot]@ == old(self).spec_buckets()[slot]@.remove(
                    bucket_key_index(old(self).spec_buckets()[slot]@, key),
                )
            }),
            !old(self)@.contains_key(key) ==> final(self).spec_buckets() == old(
                self,
            ).spec_buckets(),
            match removed {
                Some(v) => old(self)@.contains_key(key) && v@ == old(self)@[key],
                None => !old(self)@.contains_key(key),
            },
    {
        let index = self.hash_func(key);
        let ghost bs: Seq<Vec<Pair>> = self.buckets@;
        let mut bucket = self.buckets.remove(index);
        match bucket_position(&bucket, key) {
            Some(i) => {
                proof {
                    lemma_bucket_key_index_unique(bs[index as int]@, key, i as int);
                    lemma_chain_count_at_least_bucket(bs, index as int);
                }
                let pair = bucket.remove(i);
                proof {
                    lemma_chain_remove_pair(bs, index as int, i as int, bucket);
                    lemma_remove_insert_is_update(bs, index as int, bucket);
                }
                self.buckets.insert(index, bucket);
                self.size = self.size - 1;
                proof {
                    assert(old(self).spec_buckets() == bs);
                    assert(self.spec_buckets() =~= bs.update(index as int, bucket));
                    assert(self.spec_buckets()[index as int]@ == bucket@);
                    assert forall|j: int|
                        0 <= j < bs.len() && j != index as int implies (#[trigger] self
                        .spec_buckets()[j])@ == bs[j]@ by {}
                }
                Some(pair.value)
            },
            None => {
                proof {
                    assert(!bucket_has_key(bs[index as int]@, key));
                    lemma_remove_insert_is_update(bs, index as int, bucket);
                    assert(bs.update(index as int, bucket) =~= bs);
                    assert(old(self)@.remove(key) =~= old(self)@);
                }
                self.buckets.insert(index, bucket);
                proof {
                    assert(self.spec_buckets() == old(self).spec_buckets());
                }
                None
            },
        }
    }

    /// Doubles the capacity and rehashes every stored pair into fresh
    /// buckets, preserving the contents.
    fn extend(&mut self)
        requires
            old(self).wf(),
            old(self).capacity <= usize::MAX / 2,
        ensures
            final(self).wf(),
            final(self)@ == old(self)@,
            final(self).size == old(self).size,
            final(self).capacity == 2 * old(self).capacity,
            3 * final(self).size as int <= 2 * final(self).capacity as int,
    {
        let ghost orig: Seq<Vec<Pair>> = self.buckets@;
        let ghost old_map: Map<i32, Seq<char>> = chain_contents(orig);
        let new_capacity = self.capacity * 2;
        let mut fresh: Vec<Vec<Pair>> = Vec::new();
        let mut i: usize = 0;
        while i < new_capacity
            invariant
                i <= new_capacity,
                fresh@.len() == i as int,
                forall|j: int| 0 <= j < i ==> (#[trigger] fresh@[j])@.len() == 0,
            decreases new_capacity - i,
        {
            fresh.push(Vec::new());
            i += 1;
        }
        core::mem::swap(&mut self.buckets, &mut fresh);
        let old_buckets = fresh;
        self.capacity = new_capacity;
        self.size = 0;
        proof {
            lemma_chain_count_empty(self.buckets@);
            assert(self.wf());
            assert forall|k: i32| !(#[trigger] self@.contains_key(k)) by {
                assert(forall|j: int|
                    0 <= j < self.buckets@.len() ==> !bucket_has_key(
                        (#[trigger] self.buckets@[j])@,
                        k,
                    ));
                lemma_hash_spec_range(k as int, self.buckets@.len() as int);
            }
        }
        let mut rest = old_buckets;
        proof {
            assert(rest@ =~= orig.subrange(0, rest@.len() as int));
        }
        while rest.len() > 0
            invariant
                self.wf(),
                buckets_wf(orig),
                old_map == chain_contents(orig),
                orig.len() >= 4,
                3 * chain_count(orig) <= 2 * orig.len() + 3,
                self.capacity as int == 2 * orig.len(),
                rest@.len() <= orig.len(),
                rest@ == orig.subrange(0, rest@.len() as int),
                self.size as int + chain_count(rest@) == chain_count(orig),
                forall|k: i32|
                    #![trigger self@.contains_key(k)]
                    self@.contains_key(k) == (old_map.contains_key(k) && !chain_has_key(rest@, k)),
                forall|k: i32|
                    #![trigger self@.contains_key(k)]
                    self@.contains_key(k) ==> self@[k] == old_map[k],
            decreases rest@.len(),
        {
            let ghost rest_pre: Seq<Vec<Pair>> = rest@;
            let ghost m: int = rest@.len() as int;
            let mut bucket = rest.pop().unwrap();
            let ghost whole_bucket: Seq<Pair> = bucket@;
            proof {
                assert(rest@ =~= rest_pre.drop_last());
                assert(rest@ =~= orig.subrange(0, rest@.len() as int));
                assert(bucket == orig[m - 1]);
                lemma_chain_count_nonneg(rest@);
                assert(chain_count(rest_pre) == chain_count(rest@) + whole_bucket.len());
                assert(bucket@ =~= whole_bucket.subrange(0, bucket@.len() as int));
                assert forall|k: i32| #[trigger]
                    chain_has_key(rest_pre, k) == (chain_has_key(rest@, k) || bucket_has_key(
                        whole_bucket,
                        k,
                    )) by {
                    if chain_has_key(rest@, k) {
                        let jj = choose|jj: int|
                            0 <= jj < rest@.len() && bucket_has_key((#[trigger] rest@[jj])@, k);
                        assert(bucket_has_key((rest_pre[jj])@, k));
                        assert(chain_has_key(rest_pre, k));
                    }
                    if bucket_has_key(whole_bucket, k) {
                        assert(bucket_has_key((rest_pre[m - 1])@, k));
                        assert(chain_has_key(rest_pre, k));
                    }
                    if chain_has_key(rest_pre, k) {
                        let jj = choose|jj: int|
                            0 <= jj < rest_pre.len() && bucket_has_key(
                                (#[trigger] rest_pre[jj])@,
                                k,
                            );
                        if jj == m - 1 {
                            assert(bucket_has_key(whole_bucket, k));
                        } else {
                            assert(bucket_has_key((rest@[jj])@, k));
                            assert(chain_has_key(rest@, k));
                        }
                    }
                }
            }
            while bucket.len() > 0
                invariant
                    self.wf(),
                    buckets_wf(orig),
                    old_map == chain_contents(orig),
                    orig.len() >= 4,
                    3 * chain_count(orig) <= 2 * orig.len() + 3,
                    self.capacity as int == 2 * orig.len(),
                    0 <= m - 1 < orig.len(),
                    rest@.len() == m - 1,
                    rest@ == orig.subrange(0, m - 1),
                    whole_bucket == orig[m - 1]@,
                    bucket@.len() <= whole_bucket.len(),
                    bucket@ == whole_bucket.subrange(0, bucket@.len() as int),
                    self.size as int + chain_count(rest@) + bucket@.len() == chain_count(orig),
                    forall|k: i32|
                        #![trigger self@.contains_key(k)]
                        self@.contains_key(k) == (old_map.contains_key(k) && !chain_has_key(
                            rest@,
                            k,
                        ) && !bucket_has_key(bucket@, k)),
                    forall|k: i32|
                        #![trigger self@.contains_key(k)]
                        self@.contains_key(k) ==> self@[k] == old_map[k],
                decreases bucket@.len(),
            {
                let ghost bucket_pre: Seq<Pair> = bucket@;
                let ghost n: int = bucket@.len() as int;
                let ghost table_pre: Map<i32, Seq<char>> = self@;
                let pair = bucket.pop().unwrap();
                proof {
                    assert(bucket@ =~= bucket_pre.drop_last());
                    assert(bucket@ =~= whole_bucket.subrange(0, bucket@.len() as int));
                    assert(pair == whole_bucket[n - 1]);
                    lemma_chain_count_nonneg(rest@);
                    // The key sits in the current bucket, so it is not yet in
                    // the new table, not in the unprocessed prefix, and not in
                    // the rest of this bucket.
                    assert(bucket_has_key(bucket_pre, pair.key));
                    assert(hash_spec(pair.key as int, orig.len() as int) == m - 1);
                    assert(old_map.contains_key(pair.key)) by {
                        lemma_hash_spec_range(pair.key as int, orig.len() as int);
                        assert(bucket_has_key(orig[m - 1]@, pair.key));
                    }
                    assert(old_map[pair.key] == pair.value@) by {
                        lemma_bucket_key_index_unique(orig[m - 1]@, pair.key, n - 1);
                    }
                    assert(!bucket_has_key(bucket@, pair.key)) by {
                        if bucket_has_key(bucket@, pair.key) {
                            let x = bucket_key_index(bucket@, pair.key);
                            lemma_bucket_key_index_works(bucket@, pair.key);
                            assert(whole_bucket[x].key == pair.key);
                            assert(false);
                        }
                    }
                    assert(!chain_has_key(rest@, pair.key)) by {
                        if chain_has_key(rest@, pair.key) {
                            let jj = choose|jj: int|
                                0 <= jj < rest@.len() && bucket_has_key(
                                    (#[trigger] rest@[jj])@,
                                    pair.key,
                                );
                            let x = bucket_key_index(rest@[jj]@, pair.key);
                            lemma_bucket_key_index_works(rest@[jj]@, pair.key);
                            assert(orig[jj]@[x].key == pair.key);
                            assert(hash_spec(pair.key as int, orig.len() as int) == jj);
                            assert(false);
                        }
                    }
                    assert(!table_pre.contains_key(pair.key));
                    assert(3 * self.size as int <= 2 * self.capacity as int);
                }
                self.put_no_grow(pair.key, pair.value);
                proof {
                    assert forall|k: i32| #![trigger self@.contains_key(k)]
                        self@.contains_key(k) == (old_map.contains_key(k) && !chain_has_key(
                            rest@,
                            k,
                        ) && !bucket_has_key(bucket@, k)) by {
                        if k != pair.key {
                            assert(bucket_has_key(bucket@, k) == bucket_has_key(
                                bucket_pre,
                                k,
                            )) by {
                                if bucket_has_key(bucket@, k) {
                                    let x = bucket_key_index(bucket@, k);
                                    lemma_bucket_key_index_works(bucket@, k);
                                    assert(bucket_pre[x].key == k);
                                }
                                if bucket_has_key(bucket_pre, k) {
                                    let x = bucket_key_index(bucket_pre, k);
                                    lemma_bucket_key_index_works(bucket_pre, k);
                                    assert(x != n - 1);
                                    assert(bucket@[x].key == k);
                                }
                            }
                        }
                    }
                }
            }
            proof {
                assert(bucket@.len() == 0);
                assert(forall|k: i32| !bucket_has_key(bucket@, k));
            }
        }
        proof {
            assert(rest@.len() == 0);
            assert(forall|k: i32| !chain_has_key(rest@, k));
            assert(chain_count(rest@) == 0);
            assert forall|k: i32| #[trigger]
                self@.contains_key(k) == old_map.contains_key(k) by {}
            assert(self@ =~= old_map);
        }
    }

    /// The bucket listing that `dump` returns always has exactly one bucket
    /// per unit of capacity.
    pub proof fn lemma_bucket_count_matches_capacity(self)
        requires
            self.wf(),
        ensures
            self.spec_buckets().len() == self.spec_capacity() as int,
    {
    }

    /// Load-factor bound: a sound table always stays within one insertion of
    /// the 2/3 threshold, so a store that did not grow the table found the
    /// threshold respected before it ran.
    pub proof fn lemma_load_factor_bound(self)
        requires
            self.wf(),
        ensures
            3 * self.spec_size() as int <= 2 * self.spec_capacity() as int + 3,
            self.spec_size() < self.spec_capacity(),
    {
    }

    /// The stored-pair count and the capacity, whose quotient is the load
    /// factor.
    pub fn load_factor(&self) -> (ratio: (usize, usize))
        requires
            self.wf(),
        ensures
            ratio.0 == self.spec_size(),
            ratio.1 == self.spec_capacity(),
            0 < ratio.1,
    {
        (self.size, self.capacity)
    }

    /// An ordered copy of every bucket for diagnostics: one inner listing per
    /// slot, pairs in bucket order.
    pub fn dump(&self) -> (listing: Vec<Vec<Pair>>)
        requires
            self.wf(),
        ensures
            listing@.len() == self.spec_capacity(),
            forall|j: int|
                0 <= j < listing@.len() ==> (#[trigger] listing@[j])@ == self.spec_buckets()[j]@,
    {
        let mut listing: Vec<Vec<Pair>> = Vec::new();
        let mut i: usize = 0;
        while i < self.buckets.len()
            invariant
                i <= self.buckets@.len(),
                listing@.len() == i as int,
                forall|j: int|
                    0 <= j < i ==> (#[trigger] listing@[j])@ == self.buckets@[j]@,
            decreases self.buckets@.len() - i,
        {
            listing.push(clone_bucket(&self.buckets[i]));
            i += 1;
        }
        listing
    }
}

proof fn lemma_chain_count_empty(bs: Seq<Vec<Pair>>)
    requires
        forall|j: int| 0 <= j < bs.len() ==> (#[trigger] bs[j])@.len() == 0,
    ensures
        chain_count(bs) == 0,
    decreases bs.len(),
{
    if bs.len() > 0 {
        lemma_chain_count_empty(bs.drop_last());
    }
}

} // verus!
