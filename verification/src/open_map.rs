//! Open-addressing hash table with linear probing and lazy deletion.
//!
//! Each slot holds at most one pair. A colliding key walks forward from its
//! hash index with stride one, wrapping at the capacity. Deletion leaves a
//! tombstone rather than clearing the slot, so that probe walks for keys
//! stored further along are not cut short; the mutating operations relocate a
//! found pair into the first tombstone met on its walk, shortening later
//! walks, while plain lookups leave the slots untouched.
//!
//! The table is specified against a mathematical `Map<i32, Seq<char>>` view.

use crate::hashing::{hash_index, hash_spec, lemma_hash_spec_range};
use crate::pair::Pair;
use vstd::arithmetic::div_mod::{
    lemma_add_mod_noop_right, lemma_mod_division_less_than_divisor, lemma_mod_self_0,
    lemma_small_mod, lemma_sub_mod_noop,
};
use vstd::prelude::*;

verus! {

/// The state of one slot: never written to, deleted, or holding a pair.
pub enum Slot {
    Empty,
    Tombstone,
    Occupied(Pair),
}

impl Slot {
    /// The key of an occupied slot.
    pub open spec fn key(self) -> i32
        recommends
            self is Occupied,
    {
        self->Occupied_0.key
    }

    /// The value of an occupied slot, as a sequence of characters.
    pub open spec fn value_view(self) -> Seq<char>
        recommends
            self is Occupied,
    {
        self->Occupied_0.value@
    }
}

impl Clone for Slot {
    fn clone(&self) -> (res: Self)
        ensures
            res == *self,
    {
        match self {
            Slot::Empty => Slot::Empty,
            Slot::Tombstone => Slot::Tombstone,
            Slot::Occupied(pair) => Slot::Occupied(pair.clone()),
        }
    }
}

/// The slot reached after `t` steps of a probe walk that starts at `h`.
pub open spec fn probe(h: int, t: int, capacity: int) -> int {
    (h + t) % capacity
}

/// How many steps a probe walk from `h` takes to reach slot `j`.
pub open spec fn dist(h: int, j: int, capacity: int) -> int {
    (j - h) % capacity
}

/// Some occupied slot holds key `k`.
pub open spec fn has_key(s: Seq<Slot>, k: i32) -> bool {
    exists|j: int| 0 <= j < s.len() && (#[trigger] s[j]) is Occupied && s[j].key() == k
}

/// The index of the occupied slot that holds key `k`.
pub open spec fn key_index(s: Seq<Slot>, k: i32) -> int {
    choose|j: int| 0 <= j < s.len() && (#[trigger] s[j]) is Occupied && s[j].key() == k
}

/// The slots read as a mathematical map from keys to values.
pub open spec fn slots_map(s: Seq<Slot>) -> Map<i32, Seq<char>> {
    Map::new(|k: i32| has_key(s, k), |k: i32| s[key_index(s, k)].value_view())
}

/// No two occupied slots share a key.
pub open spec fn keys_unique(s: Seq<Slot>) -> bool {
    forall|i: int, j: int|
        #![trigger s[i], s[j]]
        0 <= i < s.len() && 0 <= j < s.len() && i != j && s[i] is Occupied && s[j] is Occupied
            ==> s[i].key() != s[j].key()
}

/// Every slot strictly before `j` on the probe walk from `h` is non-empty,
/// so a walk from `h` cannot stop at an empty slot before reaching `j`.
pub open spec fn path_nonempty(s: Seq<Slot>, h: int, j: int) -> bool {
    forall|t: int|
        #![trigger probe(h, t, s.len() as int)]
        0 <= t < dist(h, j, s.len() as int) ==> !(s[probe(h, t, s.len() as int)] is Empty)
}

/// Every stored key is reachable from its hash index without meeting an
/// empty slot first.
pub open spec fn probes_reach(s: Seq<Slot>) -> bool {
    forall|j: int|
        #![trigger s[j]]
        0 <= j < s.len() && s[j] is Occupied ==> path_nonempty(
            s,
            hash_spec(s[j].key() as int, s.len() as int),
            j,
        )
}

/// Slot `j` is the first tombstone on the probe walk from `h`: it is a
/// tombstone and no earlier step of the walk passes one.
pub open spec fn first_tombstone_on_walk(s: Seq<Slot>, h: int, j: int) -> bool {
    &&& 0 <= j < s.len()
    &&& s[j] is Tombstone
    &&& forall|t: int|
        #![trigger probe(h, t, s.len() as int)]
        0 <= t < dist(h, j, s.len() as int) ==> !(s[probe(h, t, s.len() as int)] is Tombstone)
}

/// Slot `j` is the first empty slot on the probe walk from `h`.
pub open spec fn first_empty_on_walk(s: Seq<Slot>, h: int, j: int) -> bool {
    &&& 0 <= j < s.len()
    &&& s[j] is Empty
    &&& forall|t: int|
        #![trigger probe(h, t, s.len() as int)]
        0 <= t < dist(h, j, s.len() as int) ==> !(s[probe(h, t, s.len() as int)] is Empty)
}

/// No step of the probe walk from `h` strictly before slot `j` passes a
/// tombstone.
pub open spec fn no_tombstone_before(s: Seq<Slot>, h: int, j: int) -> bool {
    forall|t: int|
        #![trigger probe(h, t, s.len() as int)]
        0 <= t < dist(h, j, s.len() as int) ==> !(s[probe(h, t, s.len() as int)] is Tombstone)
}

/// The slot every operation acts on for an absent key: the first tombstone
/// of the key's probe walk when one precedes the walk's first empty slot —
/// so deleted slots are reused — and otherwise that first empty slot.
pub open spec fn reuse_slot_on_walk(s: Seq<Slot>, h: int, j: int) -> bool {
    ||| first_tombstone_on_walk(s, h, j)
    ||| (first_empty_on_walk(s, h, j) && no_tombstone_before(s, h, j))
}

/// Structural soundness of the slot array.
pub open spec fn slots_wf(s: Seq<Slot>) -> bool {
    keys_unique(s) && probes_reach(s)
}

/// How many slots are tombstones.
pub open spec fn tombstone_count(s: Seq<Slot>) -> int
    decreases s.len(),
{
    if s.len() == 0 {
        0
    } else {
        tombstone_count(s.drop_last()) + if s.last() is Tombstone {
            1int
        } else {
            0int
        }
    }
}

proof fn lemma_tombstone_count_update(s: Seq<Slot>, j: int, x: Slot)
    requires
        0 <= j < s.len(),
    ensures
        tombstone_count(s.update(j, x)) == tombstone_count(s) - (if s[j] is Tombstone {
            1int
        } else {
            0int
        }) + (if x is Tombstone {
            1int
        } else {
            0int
        }),
    decreases s.len(),
{
    let u = s.update(j, x);
    if j == s.len() - 1 {
        assert(u.drop_last() =~= s.drop_last());
    } else {
        assert(u.drop_last() =~= s.drop_last().update(j, x));
        lemma_tombstone_count_update(s.drop_last(), j, x);
    }
}

/// How many slots are occupied.
pub open spec fn occupied_count(s: Seq<Slot>) -> int
    decreases s.len(),
{
    if s.len() == 0 {
        0
    } else {
        occupied_count(s.drop_last()) + if s.last() is Occupied {
            1int
        } else {
            0int
        }
    }
}

proof fn lemma_occupied_count_none(s: Seq<Slot>)
    requires
        forall|j: int| 0 <= j < s.len() ==> !((#[trigger] s[j]) is Occupied),
    ensures
        occupied_count(s) == 0,
    decreases s.len(),
{
    if s.len() > 0 {
        lemma_occupied_count_none(s.drop_last());
    }
}

proof fn lemma_occupied_count_full(s: Seq<Slot>)
    requires
        forall|j: int| 0 <= j < s.len() ==> ((#[trigger] s[j]) is Occupied),
    ensures
        occupied_count(s) == s.len(),
    decreases s.len(),
{
    if s.len() > 0 {
        lemma_occupied_count_full(s.drop_last());
    }
}

proof fn lemma_occupied_count_update(s: Seq<Slot>, j: int, x: Slot)
    requires
        0 <= j < s.len(),
    ensures
        occupied_count(s.update(j, x)) == occupied_count(s) - (if s[j] is Occupied {
            1int
        } else {
            0int
        }) + (if x is Occupied {
            1int
        } else {
            0int
        }),
    decreases s.len(),
{
    let u = s.update(j, x);
    if j == s.len() - 1 {
        assert(u.drop_last() =~= s.drop_last());
    } else {
        assert(u.drop_last() =~= s.drop_last().update(j, x));
        lemma_occupied_count_update(s.drop_last(), j, x);
    }
}

proof fn lemma_occupied_count_bounds(s: Seq<Slot>)
    ensures
        0 <= occupied_count(s) <= s.len(),
    decreases s.len(),
{
    if s.len() > 0 {
        lemma_occupied_count_bounds(s.drop_last());
    }
}

proof fn lemma_occupied_count_positive(s: Seq<Slot>, j: int)
    requires
        0 <= j < s.len(),
        s[j] is Occupied,
    ensures
        occupied_count(s) >= 1,
    decreases s.len(),
{
    lemma_occupied_count_bounds(s.drop_last());
    if j < s.len() - 1 {
        lemma_occupied_count_positive(s.drop_last(), j);
    }
}

proof fn lemma_probe_range(h: int, t: int, capacity: int)
    requires
        capacity > 0,
    ensures
        0 <= probe(h, t, capacity) < capacity,
{
    lemma_mod_division_less_than_divisor(h + t, capacity);
}

proof fn lemma_dist_range(h: int, j: int, capacity: int)
    requires
        capacity > 0,
    ensures
        0 <= dist(h, j, capacity) < capacity,
{
    lemma_mod_division_less_than_divisor(j - h, capacity);
}

/// Walking `t < capacity` steps from `h` lands at distance `t` from `h`.
proof fn lemma_probe_dist(h: int, t: int, capacity: int)
    requires
        0 <= h < capacity,
        0 <= t < capacity,
    ensures
        dist(h, probe(h, t, capacity), capacity) == t,
{
    lemma_small_mod(h as nat, capacity as nat);
    lemma_sub_mod_noop(h + t, h, capacity);
    lemma_small_mod(t as nat, capacity as nat);
}

/// The walk from `h` reaches any slot `j` after exactly `dist(h, j)` steps.
proof fn lemma_dist_probe(h: int, j: int, capacity: int)
    requires
        0 <= h < capacity,
        0 <= j < capacity,
    ensures
        probe(h, dist(h, j, capacity), capacity) == j,
{
    lemma_mod_division_less_than_divisor(j - h, capacity);
    lemma_add_mod_noop_right(h, j - h, capacity);
    lemma_small_mod(j as nat, capacity as nat);
}

/// One step of the walk increments the slot index, wrapping at the capacity.
proof fn lemma_probe_step(h: int, t: int, capacity: int)
    requires
        0 <= h < capacity,
        0 <= t,
        capacity >= 2,
    ensures
        probe(h, t + 1, capacity) == if probe(h, t, capacity) + 1 == capacity {
            0int
        } else {
            probe(h, t, capacity) + 1
        },
{
    let i = probe(h, t, capacity);
    lemma_mod_division_less_than_divisor(h + t, capacity);
    lemma_add_mod_noop_right(1, h + t, capacity);
    if i + 1 == capacity {
        lemma_mod_self_0(capacity);
    } else {
        lemma_small_mod((i + 1) as nat, capacity as nat);
    }
}

proof fn lemma_key_index_works(s: Seq<Slot>, k: i32)
    requires
        has_key(s, k),
    ensures
        0 <= key_index(s, k) < s.len(),
        s[key_index(s, k)] is Occupied,
        s[key_index(s, k)].key() == k,
{
}

proof fn lemma_key_index_unique(s: Seq<Slot>, k: i32, j: int)
    requires
        keys_unique(s),
        0 <= j < s.len(),
        s[j] is Occupied,
        s[j].key() == k,
    ensures
        has_key(s, k),
        key_index(s, k) == j,
{
    assert(has_key(s, k));
    lemma_key_index_works(s, k);
}

/// A slot update that never blanks a slot keeps every probe path intact.
proof fn lemma_path_nonempty_mono(s: Seq<Slot>, s2: Seq<Slot>, h: int, j: int)
    requires
        s.len() > 0,
        s.len() == s2.len(),
        forall|x: int| 0 <= x < s2.len() && (#[trigger] s2[x]) is Empty ==> s[x] is Empty,
        path_nonempty(s, h, j),
    ensures
        path_nonempty(s2, h, j),
{
    let cap = s.len() as int;
    assert forall|t: int| 0 <= t < dist(h, j, cap) implies !(s2[#[trigger] probe(h, t, cap)]
        is Empty) by {
        lemma_probe_range(h, t, cap);
        assert(!(s[probe(h, t, cap)] is Empty));
    }
}

/// A probe walk from the hash index of `key` that met no empty slot and no
/// slot holding `key` over its first `steps` slots, and then stopped at an
/// empty slot or visited the whole table, shows the key absent.
proof fn lemma_walk_misses_key(s: Seq<Slot>, h: int, key: i32, steps: int)
    requires
        slots_wf(s),
        s.len() > 0,
        0 <= h < s.len(),
        h == hash_spec(key as int, s.len() as int),
        0 <= steps <= s.len(),
        forall|t: int| 0 <= t < steps ==> !((#[trigger] s[probe(h, t, s.len() as int)]) is Empty),
        forall|t: int|
            0 <= t < steps ==> ((#[trigger] s[probe(h, t, s.len() as int)]) is Occupied ==> s[probe(
                h,
                t,
                s.len() as int,
            )].key() != key),
        steps == s.len() || s[probe(h, steps, s.len() as int)] is Empty,
    ensures
        !has_key(s, key),
{
    let cap = s.len() as int;
    if has_key(s, key) {
        let j = key_index(s, key);
        lemma_key_index_works(s, key);
        let d = dist(h, j, cap);
        lemma_dist_range(h, j, cap);
        lemma_dist_probe(h, j, cap);
        if d < steps {
            assert(s[probe(h, d, cap)] is Occupied);
            assert(false);
        } else if d == steps {
            assert(probe(h, steps, cap) == j);
            assert(false);
        } else {
            // steps < d < cap, so the walk stopped at an empty slot that lies
            // strictly before j on the path the invariant keeps clear.
            assert(s[probe(h, steps, cap)] is Empty);
            assert(path_nonempty(s, h, j));
            assert(!(s[probe(h, steps, cap)] is Empty));
            assert(false);
        }
    }
}

/// Moving a found pair from slot `j` into an earlier tombstone `ft` on its
/// own probe path keeps the table sound and leaves its contents unchanged.
proof fn lemma_relocate(s: Seq<Slot>, h: int, ft: int, j: int, key: i32)
    requires
        slots_wf(s),
        0 <= h < s.len(),
        0 <= ft < s.len(),
        0 <= j < s.len(),
        ft != j,
        s[ft] is Tombstone,
        s[j] is Occupied,
        s[j].key() == key,
        h == hash_spec(key as int, s.len() as int),
        path_nonempty(s, h, ft),
    ensures
        slots_wf(s.update(ft, s[j]).update(j, Slot::Tombstone)),
        slots_map(s.update(ft, s[j]).update(j, Slot::Tombstone)) == slots_map(s),
        occupied_count(s.update(ft, s[j]).update(j, Slot::Tombstone)) == occupied_count(s),
{
    let s2 = s.update(ft, s[j]).update(j, Slot::Tombstone);
    let cap = s.len() as int;
    lemma_occupied_count_update(s, ft, s[j]);
    lemma_occupied_count_update(s.update(ft, s[j]), j, Slot::Tombstone);

    assert(keys_unique(s2));

    assert forall|x: int| 0 <= x < s2.len() && (#[trigger] s2[x]) is Empty implies s[x]
        is Empty by {}

    assert forall|jj: int| 0 <= jj < s2.len() && (#[trigger] s2[jj]) is Occupied implies
        path_nonempty(s2, hash_spec(s2[jj].key() as int, cap), jj) by {
        if jj == ft {
            lemma_path_nonempty_mono(s, s2, h, ft);
        } else {
            assert(s2[jj] == s[jj]);
            assert(path_nonempty(s, hash_spec(s[jj].key() as int, cap), jj));
            lemma_path_nonempty_mono(s, s2, hash_spec(s[jj].key() as int, cap), jj);
        }
    }

    assert forall|k: i32| has_key(s2, k) == has_key(s, k) && (has_key(s, k) ==> slots_map(s2)[k]
        == slots_map(s)[k]) by {
        if k == key {
            assert(s2[ft] is Occupied && s2[ft].key() == k);
            assert(has_key(s2, k));
            assert(has_key(s, k));
            lemma_key_index_unique(s, k, j);
            lemma_key_index_unique(s2, k, ft);
            assert(slots_map(s2)[k] == slots_map(s)[k]);
        } else {
            if has_key(s, k) {
                let x = key_index(s, k);
                lemma_key_index_works(s, k);
                assert(x != j && x != ft);
                assert(s2[x] == s[x]);
                lemma_key_index_unique(s2, k, x);
                assert(slots_map(s2)[k] == slots_map(s)[k]);
            }
            if has_key(s2, k) {
                let x = key_index(s2, k);
                lemma_key_index_works(s2, k);
                assert(x != j && x != ft);
                assert(s2[x] == s[x]);
                assert(has_key(s, k));
            }
        }
    }
    assert(slots_map(s2) =~= slots_map(s));
}

/// Writing a fresh key into a non-occupied slot whose probe path is clear
/// keeps the table sound and inserts the pair into its contents.
proof fn lemma_insert_fresh(s: Seq<Slot>, h: int, j: int, pair: Pair)
    requires
        slots_wf(s),
        s.len() > 0,
        0 <= j < s.len(),
        !(s[j] is Occupied),
        !has_key(s, pair.key),
        h == hash_spec(pair.key as int, s.len() as int),
        path_nonempty(s, h, j),
    ensures
        slots_wf(s.update(j, Slot::Occupied(pair))),
        slots_map(s.update(j, Slot::Occupied(pair))) == slots_map(s).insert(pair.key, pair.value@),
        occupied_count(s.update(j, Slot::Occupied(pair))) == occupied_count(s) + 1,
{
    let s2 = s.update(j, Slot::Occupied(pair));
    let cap = s.len() as int;
    lemma_occupied_count_update(s, j, Slot::Occupied(pair));

    assert(keys_unique(s2));

    assert forall|x: int| 0 <= x < s2.len() && (#[trigger] s2[x]) is Empty implies s[x]
        is Empty by {}

    assert forall|jj: int| 0 <= jj < s2.len() && (#[trigger] s2[jj]) is Occupied implies
        path_nonempty(s2, hash_spec(s2[jj].key() as int, cap), jj) by {
        if jj == j {
            lemma_path_nonempty_mono(s, s2, h, j);
        } else {
            assert(s2[jj] == s[jj]);
            assert(path_nonempty(s, hash_spec(s[jj].key() as int, cap), jj));
            lemma_path_nonempty_mono(s, s2, hash_spec(s[jj].key() as int, cap), jj);
        }
    }

    assert forall|k: i32|
        has_key(s2, k) == (has_key(s, k) || k == pair.key) && (has_key(s2, k)
            ==> slots_map(s2)[k] == slots_map(s).insert(pair.key, pair.value@)[k]) by {
        if k == pair.key {
            assert(s2[j] is Occupied && s2[j].key() == k);
            assert(has_key(s2, k));
            lemma_key_index_unique(s2, k, j);
        } else {
            if has_key(s, k) {
                let x = key_index(s, k);
                lemma_key_index_works(s, k);
                assert(x != j);
                assert(s2[x] == s[x]);
                lemma_key_index_unique(s2, k, x);
            }
            if has_key(s2, k) {
                let x = key_index(s2, k);
                lemma_key_index_works(s2, k);
                assert(x != j);
                assert(s2[x] == s[x]);
                assert(has_key(s, k));
            }
        }
    }
    assert(slots_map(s2) =~= slots_map(s).insert(pair.key, pair.value@));
}

/// Overwriting the value of the occupied slot that already holds the key
/// keeps the table sound and updates its contents in place.
proof fn lemma_overwrite(s: Seq<Slot>, j: int, pair: Pair)
    requires
        slots_wf(s),
        s.len() > 0,
        0 <= j < s.len(),
        s[j] is Occupied,
        s[j].key() == pair.key,
    ensures
        slots_wf(s.update(j, Slot::Occupied(pair))),
        slots_map(s.update(j, Slot::Occupied(pair))) == slots_map(s).insert(pair.key, pair.value@),
        occupied_count(s.update(j, Slot::Occupied(pair))) == occupied_count(s),
{
    let s2 = s.update(j, Slot::Occupied(pair));
    let cap = s.len() as int;
    lemma_occupied_count_update(s, j, Slot::Occupied(pair));

    assert(keys_unique(s2));

    assert forall|x: int| 0 <= x < s2.len() && (#[trigger] s2[x]) is Empty implies s[x]
        is Empty by {}

    assert forall|jj: int| 0 <= jj < s2.len() && (#[trigger] s2[jj]) is Occupied implies
        path_nonempty(s2, hash_spec(s2[jj].key() as int, cap), jj) by {
        if jj == j {
            assert(path_nonempty(s, hash_spec(s[j].key() as int, cap), j));
            lemma_path_nonempty_mono(s, s2, hash_spec(s2[j].key() as int, cap), j);
        } else {
            assert(s2[jj] == s[jj]);
            assert(path_nonempty(s, hash_spec(s[jj].key() as int, cap), jj));
            lemma_path_nonempty_mono(s, s2, hash_spec(s[jj].key() as int, cap), jj);
        }
    }

    assert forall|k: i32|
        has_key(s2, k) == (has_key(s, k) || k == pair.key) && (has_key(s2, k)
            ==> slots_map(s2)[k] == slots_map(s).insert(pair.key, pair.value@)[k]) by {
        if k == pair.key {
            assert(s2[j] is Occupied && s2[j].key() == k);
            assert(has_key(s2, k));
            lemma_key_index_unique(s2, k, j);
        } else {
            if has_key(s, k) {
                let x = key_index(s, k);
                lemma_key_index_works(s, k);
                assert(x != j);
                assert(s2[x] == s[x]);
                lemma_key_index_unique(s2, k, x);
                lemma_key_index_unique(s, k, x);
            }
            if has_key(s2, k) {
                let x = key_index(s2, k);
                lemma_key_index_works(s2, k);
                assert(x != j);
                assert(s2[x] == s[x]);
                assert(has_key(s, k));
            }
        }
    }
    assert(slots_map(s2) =~= slots_map(s).insert(pair.key, pair.value@));
}

/// Replacing an occupied slot with a tombstone keeps the table sound and
/// removes exactly that key from its contents.
proof fn lemma_make_tombstone(s: Seq<Slot>, j: int)
    requires
        slots_wf(s),
        s.len() > 0,
        0 <= j < s.len(),
        s[j] is Occupied,
    ensures
        slots_wf(s.update(j, Slot::Tombstone)),
        slots_map(s.update(j, Slot::Tombstone)) == slots_map(s).remove(s[j].key()),
        occupied_count(s.update(j, Slot::Tombstone)) == occupied_count(s) - 1,
{
    let s2 = s.update(j, Slot::Tombstone);
    let cap = s.len() as int;
    let key = s[j].key();
    lemma_occupied_count_update(s, j, Slot::Tombstone);

    assert(keys_unique(s2));

    assert forall|x: int| 0 <= x < s2.len() && (#[trigger] s2[x]) is Empty implies s[x]
        is Empty by {}

    assert forall|jj: int| 0 <= jj < s2.len() && (#[trigger] s2[jj]) is Occupied implies
        path_nonempty(s2, hash_spec(s2[jj].key() as int, cap), jj) by {
        assert(s2[jj] == s[jj]);
        assert(path_nonempty(s, hash_spec(s[jj].key() as int, cap), jj));
        lemma_path_nonempty_mono(s, s2, hash_spec(s[jj].key() as int, cap), jj);
    }

    assert forall|k: i32|
        has_key(s2, k) == (has_key(s, k) && k != key) && (has_key(s2, k) ==> slots_map(s2)[k]
            == slots_map(s)[k]) by {
        if has_key(s2, k) {
            let x = key_index(s2, k);
            lemma_key_index_works(s2, k);
            assert(x != j);
            assert(s2[x] == s[x]);
            assert(has_key(s, k));
            lemma_key_index_unique(s, k, x);
            assert(k != key);
        }
        if has_key(s, k) && k != key {
            let x = key_index(s, k);
            lemma_key_index_works(s, k);
            assert(x != j);
            assert(s2[x] == s[x]);
            assert(has_key(s2, k));
        }
    }
    assert(slots_map(s2) =~= slots_map(s).remove(key));
}

/// A key-value table resolving collisions by linear probing, with lazy
/// deletion through tombstones and capacity doubling past the load threshold.
pub struct HashMapOpenAddressing {
    size: usize,
    capacity: usize,
    load_thres_num: usize,
    load_thres_den: usize,
    extend_ratio: usize,
    buckets: Vec<Slot>,
}

impl View for HashMapOpenAddressing {
    type V = Map<i32, Seq<char>>;

    closed spec fn view(&self) -> Map<i32, Seq<char>> {
        slots_map(self.buckets@)
    }
}

impl HashMapOpenAddressing {
    /// The slot array, in slot order.
    pub closed spec fn spec_slots(self) -> Seq<Slot> {
        self.buckets@
    }

    /// How many pairs the table holds.
    pub closed spec fn spec_size(self) -> usize {
        self.size
    }

    /// How many slots the table has.
    pub closed spec fn spec_capacity(self) -> usize {
        self.capacity
    }

    /// Internal soundness: the slot array matches the capacity, the size
    /// counts the occupied slots, keys are unique, every stored key is
    /// reachable by its probe walk, and the size stays within one insertion
    /// of the 2/3 load threshold.
    pub closed spec fn wf(self) -> bool {
        &&& self.buckets@.len() == self.capacity as int
        &&& self.capacity >= 4
        &&& self.size as int == occupied_count(self.buckets@)
        &&& self.load_thres_num == 2usize
        &&& self.load_thres_den == 3usize
        &&& self.extend_ratio == 2usize
        &&& 3 * self.size as int <= 2 * self.capacity as int + 3
        &&& slots_wf(self.buckets@)
    }

    /// Creates an empty table with four slots and a 2/3 load threshold.
    pub fn new() -> (table: Self)
        ensures
            table.wf(),
            table@ == Map::<i32, Seq<char>>::empty(),
            table.spec_size() == 0,
            table.spec_capacity() == 4,
            table.spec_slots().len() == 4,
            forall|j: int| 0 <= j < 4 ==> (#[trigger] table.spec_slots()[j]) is Empty,
    {
        let mut buckets: Vec<Slot> = Vec::new();
        buckets.push(Slot::Empty);
        buckets.push(Slot::Empty);
        buckets.push(Slot::Empty);
        buckets.push(Slot::Empty);
        let table = HashMapOpenAddressing {
            size: 0,
            capacity: 4,
            load_thres_num: 2,
            load_thres_den: 3,
            extend_ratio: 2,
            buckets,
        };
        proof {
            assert(forall|j: int|
                0 <= j < table.buckets@.len() ==> !((#[trigger] table.buckets@[j]) is Occupied));
            lemma_occupied_count_none(table.buckets@);
            assert(table@ =~= Map::<i32, Seq<char>>::empty());
        }
        table
    }

    /// Walks the probe sequence of `key` and returns the slot index every
    /// operation acts on. When the key is present, the returned slot holds
    /// it (moved into the first tombstone met on the walk, when one was met,
    /// which shortens later walks for this key). When the key is absent, the
    /// returned slot is a reusable tombstone or the empty slot that ended the
    /// walk, and the probe path up to it is free of empty slots, so a caller
    /// may insert the key there.
    fn find_bucket(&mut self, key: i32) -> (index: usize)
        requires
            old(self).wf(),
        ensures
            final(self).wf(),
            final(self)@ == old(self)@,
            final(self).size == old(self).size,
            final(self).capacity == old(self).capacity,
            index < final(self).capacity,
            old(self)@.contains_key(key) ==> {
                &&& final(self).buckets@[index as int] is Occupied
                &&& final(self).buckets@[index as int].key() == key
                &&& final(self).buckets@[index as int].value_view() == old(self)@[key]
                &&& tombstone_count(final(self).buckets@) == tombstone_count(old(self).buckets@)
                &&& ({
                    ||| (*final(self) == *old(self) && index as int == key_index(
                        old(self).buckets@,
                        key,
                    ))
                    ||| (first_tombstone_on_walk(
                        old(self).buckets@,
                        hash_spec(key as int, old(self).capacity as int),
                        index as int,
                    ) && final(self).buckets@ == old(self).buckets@.update(
                        index as int,
                        old(self).buckets@[key_index(old(self).buckets@, key)],
                    ).update(key_index(old(self).buckets@, key), Slot::Tombstone))
                })
            },
            !old(self)@.contains_key(key) ==> {
                &&& *final(self) == *old(self)
                &&& !(final(self).buckets@[index as int] is Occupied)
                &&& path_nonempty(
                    final(self).buckets@,
                    hash_spec(key as int, final(self).capacity as int),
                    index as int,
                )
                &&& reuse_slot_on_walk(
                    old(self).buckets@,
                    hash_spec(key as int, old(self).capacity as int),
                    index as int,
                )
            },
    {
        let capacity = self.capacity;
        let h = hash_index(key, capacity);
        proof {
            lemma_hash_spec_range(key as int, capacity as int);
        }
        let ghost hh: int = h as int;
        let ghost cap: int = capacity as int;
        let ghost s: Seq<Slot> = self.buckets@;
        let mut index = h;
        let mut steps: usize = 0;
        // `capacity` stands for "no tombstone met yet": it is never a slot.
        let mut first_tomb: usize = capacity;
        let ghost mut ft_step: int = 0;
        let mut found = false;
        let mut cycled = false;
        proof {
            lemma_small_mod(hh as nat, cap as nat);
        }
        loop
            invariant_except_break
                steps < capacity,
                !found,
                !cycled,
            invariant
                s == self.buckets@,
                self.buckets@.len() == capacity as int,
                cap == capacity as int,
                capacity >= 4,
                0 <= hh < cap,
                steps <= capacity,
                index < capacity,
                index as int == probe(hh, steps as int, cap),
                forall|t: int|
                    0 <= t < steps ==> !((#[trigger] s[probe(hh, t, cap)]) is Empty),
                forall|t: int|
                    0 <= t < steps ==> ((#[trigger] s[probe(hh, t, cap)]) is Occupied ==> s[probe(
                        hh,
                        t,
                        cap,
                    )].key() != key),
                first_tomb == capacity ==> forall|t: int|
                    0 <= t < steps ==> !((#[trigger] s[probe(hh, t, cap)]) is Tombstone),
                first_tomb != capacity ==> {
                    &&& first_tomb < capacity
                    &&& s[first_tomb as int] is Tombstone
                    &&& 0 <= ft_step < steps
                    &&& probe(hh, ft_step, cap) == first_tomb as int
                    &&& forall|t: int|
                        0 <= t < ft_step ==> !((#[trigger] s[probe(hh, t, cap)]) is Tombstone)
                },
            ensures
                found ==> s[index as int] is Occupied && s[index as int].key() == key && steps
                    < capacity,
                cycled ==> steps == capacity,
                !found && !cycled ==> s[index as int] is Empty && steps < capacity,
            decreases capacity - steps,
        {
            match &self.buckets[index] {
                Slot::Empty => {
                    break ;
                },
                Slot::Occupied(pair) => {
                    if pair.key == key {
                        found = true;
                        break ;
                    }
                },
                Slot::Tombstone => {
                    if first_tomb == capacity {
                        first_tomb = index;
                        proof {
                            ft_step = steps as int;
                        }
                    }
                },
            }
            proof {
                lemma_probe_step(hh, steps as int, cap);
            }
            index = if index + 1 == capacity {
                0
            } else {
                index + 1
            };
            steps = steps + 1;
            if steps == capacity {
                cycled = true;
                break ;
            }
        }
        proof {
            assert(old(self)@.contains_key(key) == has_key(s, key));
        }
        if cycled {
            proof {
                lemma_walk_misses_key(s, hh, key, steps as int);
                if first_tomb == capacity {
                    // No tombstone and no empty slot on a full cycle would
                    // mean every slot is occupied, which the load threshold
                    // rules out.
                    assert forall|jj: int| 0 <= jj < cap implies (#[trigger] s[jj])
                        is Occupied by {
                        lemma_dist_range(hh, jj, cap);
                        lemma_dist_probe(hh, jj, cap);
                        assert(!(s[probe(hh, dist(hh, jj, cap), cap)] is Empty));
                        assert(!(s[probe(hh, dist(hh, jj, cap), cap)] is Tombstone));
                    }
                    lemma_occupied_count_full(s);
                    assert(false);
                }
                lemma_probe_dist(hh, ft_step, cap);
                assert(path_nonempty(s, hh, first_tomb as int));
                assert(first_tombstone_on_walk(s, hh, first_tomb as int));
            }
            first_tomb
        } else if found {
            proof {
                lemma_key_index_unique(s, key, index as int);
            }
            if first_tomb == capacity {
                index
            } else {
                proof {
                    lemma_probe_dist(hh, ft_step, cap);
                    assert(path_nonempty(s, hh, first_tomb as int));
                    assert(first_tombstone_on_walk(s, hh, first_tomb as int));
                    lemma_relocate(s, hh, first_tomb as int, index as int, key);
                    lemma_tombstone_count_update(s, first_tomb as int, s[index as int]);
                    lemma_tombstone_count_update(
                        s.update(first_tomb as int, s[index as int]),
                        index as int,
                        Slot::Tombstone,
                    );
                }
                let moved = self.buckets[index].clone();
                self.buckets[first_tomb] = moved;
                self.buckets[index] = Slot::Tombstone;
                proof {
                    assert(self.buckets@ == s.update(first_tomb as int, s[index as int]).update(
                        index as int,
                        Slot::Tombstone,
                    ));
                    lemma_key_index_unique(self.buckets@, key, first_tomb as int);
                }
                first_tomb
            }
        } else {
            proof {
                lemma_walk_misses_key(s, hh, key, steps as int);
                if first_tomb != capacity {
                    lemma_probe_dist(hh, ft_step, cap);
                    assert(path_nonempty(s, hh, first_tomb as int));
                    assert(first_tombstone_on_walk(s, hh, first_tomb as int));
                } else {
                    lemma_probe_dist(hh, steps as int, cap);
                    assert(path_nonempty(s, hh, index as int));
                    assert(first_empty_on_walk(s, hh, index as int));
                    assert(no_tombstone_before(s, hh, index as int));
                }
            }
            if first_tomb == capacity {
                index
            } else {
                first_tomb
            }
        }
    }

    /// Inserts or overwrites without checking the load factor; callers have
    /// already made room for one more pair.
    fn put_no_grow(&mut self, key: i32, value: String)
        requires
            old(self).wf(),
            3 * old(self).size as int <= 2 * old(self).capacity as int,
        ensures
            final(self).wf(),
            final(self)@ == old(self)@.insert(key, value@),
            final(self).capacity == old(self).capacity,
            final(self).size as int == old(self).size as int + (if old(
                self,
            )@.contains_key(key) {
                0int
            } else {
                1int
            }),
            !old(self)@.contains_key(key) ==> (exists|j: int|
                {
                    &&& 0 <= j < old(self).spec_slots().len()
                    &&& reuse_slot_on_walk(
                        old(self).spec_slots(),
                        hash_spec(key as int, old(self).spec_capacity() as int),
                        j,
                    )
                    &&& final(self).spec_slots() == old(self).spec_slots().update(
                        j,
                        #[trigger] final(self).spec_slots()[j],
                    )
                    &&& final(self).spec_slots()[j] is Occupied
                    &&& final(self).spec_slots()[j].key() == key
                    &&& final(self).spec_slots()[j].value_view() == value@
                }),
            old(self)@.contains_key(key) ==> (exists|j: int|
                {
                    &&& 0 <= j < old(self).spec_slots().len()
                    &&& (#[trigger] final(self).spec_slots()[j]) is Occupied
                    &&& final(self).spec_slots()[j].key() == key
                    &&& final(self).spec_slots()[j].value_view() == value@
                    &&& ({
                        ||| (j == key_index(old(self).spec_slots(), key) && final(self).spec_slots()
                            == old(self).spec_slots().update(j, final(self).spec_slots()[j]))
                        ||| (first_tombstone_on_walk(
                            old(self).spec_slots(),
                            hash_spec(key as int, old(self).spec_capacity() as int),
                            j,
                        ) && final(self).spec_slots() == old(self).spec_slots().update(
                            j,
                            final(self).spec_slots()[j],
                        ).update(key_index(old(self).spec_slots(), key), Slot::Tombstone))
                    })
                }),
    {
        let ghost s0: Seq<Slot> = self.buckets@;
        let index = self.find_bucket(key);
        let ghost s: Seq<Slot> = self.buckets@;
        let ghost pre = *self;
        let is_hit = match &self.buckets[index] {
            Slot::Occupied(_) => true,
            _ => false,
        };
        self.buckets[index] = Slot::Occupied(Pair { key, value });
        if is_hit {
            proof {
                lemma_overwrite(s, index as int, self.buckets@[index as int]->Occupied_0);
                let kj = key_index(s0, key);
                let newslot = self.spec_slots()[index as int];
                assert(old(self).spec_slots() == s0);
                assert(self.spec_slots()[index as int] is Occupied);
                if s == s0 && index as int == kj {
                    assert(self.spec_slots() =~= s0.update(index as int, newslot));
                } else {
                    // The walk moved the pair into the first tombstone before
                    // the value was overwritten there.
                    assert(s == s0.update(index as int, s0[kj]).update(kj, Slot::Tombstone));
                    assert(s0[index as int] is Tombstone);
                    assert(self.spec_slots() =~= s0.update(index as int, newslot).update(
                        kj,
                        Slot::Tombstone,
                    ));
                }
            }
        } else {
            proof {
                assert(!has_key(s, key)) by {
                    assert(pre@.contains_key(key) == has_key(s, key));
                }
                lemma_hash_spec_range(key as int, s.len() as int);
                lemma_insert_fresh(
                    s,
                    hash_spec(key as int, s.len() as int),
                    index as int,
                    self.buckets@[index as int]->Occupied_0,
                );
                assert(s == s0);
            }
            self.size = self.size + 1;
            proof {
                assert(old(self).spec_slots() == s0);
                assert(self.spec_slots()[index as int] is Occupied);
                assert(self.spec_slots() =~= s0.update(
                    index as int,
                    self.spec_slots()[index as int],
                ));
            }
        }
    }

    /// Stores `value` under `key`. When the load factor already exceeds the
    /// 2/3 threshold the table first doubles its capacity and rehashes; the
    /// pair then either overwrites the entry holding `key`, or fills the
    /// non-occupied slot its probe walk ends at, growing the size by one.
    /// Callers keep the capacity within half the index range so that doubling
    /// cannot overflow.
    pub fn put(&mut self, key: i32, value: String)
        requires
            old(self).wf(),
            old(self).spec_capacity() <= usize::MAX / 2,
        ensures
            final(self).wf(),
            final(self)@ == old(self)@.insert(key, value@),
            final(self).spec_size() as int == old(self).spec_size() as int + (if old(
                self,
            )@.contains_key(key) {
                0int
            } else {
                1int
            }),
            final(self).spec_capacity() as int == (if 3 * old(self).spec_size() as int > 2 * old(
                self,
            ).spec_capacity() as int {
                2 * old(self).spec_capacity() as int
            } else {
                old(self).spec_capacity() as int
            }),
            (3 * old(self).spec_size() as int <= 2 * old(self).spec_capacity() as int && !old(
                self,
            )@.contains_key(key)) ==> (exists|j: int|
                {
                    &&& 0 <= j < old(self).spec_slots().len()
                    &&& reuse_slot_on_walk(
                        old(self).spec_slots(),
                        hash_spec(key as int, old(self).spec_capacity() as int),
                        j,
                    )
                    &&& final(self).spec_slots() == old(self).spec_slots().update(
                        j,
                        #[trigger] final(self).spec_slots()[j],
                    )
                    &&& final(self).spec_slots()[j] is Occupied
                    &&& final(self).spec_slots()[j].key() == key
                    &&& final(self).spec_slots()[j].value_view() == value@
                }),
            (3 * old(self).spec_size() as int <= 2 * old(self).spec_capacity() as int && old(
                self,
            )@.contains_key(key)) ==> (exists|j: int|
                {
                    &&& 0 <= j < old(self).spec_slots().len()
                    &&& (#[trigger] final(self).spec_slots()[j]) is Occupied
                    &&& final(self).spec_slots()[j].key() == key
                    &&& final(self).spec_slots()[j].value_view() == value@
                    &&& ({
                        ||| (j == key_index(old(self).spec_slots(), key) && final(self).spec_slots()
                            == old(self).spec_slots().update(j, final(self).spec_slots()[j]))
                        ||| (first_tombstone_on_walk(
                            old(self).spec_slots(),
                            hash_spec(key as int, old(self).spec_capacity() as int),
                            j,
                        ) && final(self).spec_slots() == old(self).spec_slots().update(
                            j,
                            final(self).spec_slots()[j],
                        ).update(key_index(old(self).spec_slots(), key), Slot::Tombstone))
                    })
                }),
    {
        let over_threshold = (self.size as u128) * (self.load_thres_den as u128) > (self.capacity
            as u128) * (self.load_thres_num as u128);
        if over_threshold {
            self.extend();
        }
        self.put_no_grow(key, value);
    }

    /// Doubles the capacity and rehashes every stored pair into a fresh slot
    /// array; tombstones are dropped on the way, and the contents are
    /// preserved.
    fn extend(&mut self)
        requires
            old(self).wf(),
            old(self).capacity <= usize::MAX / 2,
        ensures
            final(self).wf(),
            final(self)@ == old(self)@,
            final(self).size == old(self).size,
            final(self).capacity == 2 * old(self).capacity,
            3 * final(self).size as int <= 2 * final(self).capacity as int,
    {
        let ghost orig: Seq<Slot> = self.buckets@;
        let ghost old_map: Map<i32, Seq<char>> = slots_map(orig);
        let new_capacity = self.capacity * 2;
        let mut fresh: Vec<Slot> = Vec::new();
        let mut i: usize = 0;
        while i < new_capacity
            invariant
                i <= new_capacity,
                fresh@.len() == i as int,
                forall|j: int| 0 <= j < i ==> (#[trigger] fresh@[j]) is Empty,
            decreases new_capacity - i,
        {
            fresh.push(Slot::Empty);
            i += 1;
        }
        core::mem::swap(&mut self.buckets, &mut fresh);
        let old_buckets = fresh;
        self.capacity = new_capacity;
        self.size = 0;
        proof {
            assert(forall|j: int|
                0 <= j < self.buckets@.len() ==> !((#[trigger] self.buckets@[j]) is Occupied));
            lemma_occupied_count_none(self.buckets@);
            assert(self.wf());
            assert(forall|k: i32| !has_key(self.buckets@, k));
        }
        let mut rest = old_buckets;
        proof {
            assert(rest@ =~= orig.subrange(0, rest@.len() as int));
        }
        while rest.len() > 0
            invariant
                self.wf(),
                slots_wf(orig),
                old_map == slots_map(orig),
                orig.len() >= 4,
                3 * occupied_count(orig) <= 2 * orig.len() + 3,
                self.capacity as int == 2 * orig.len(),
                rest@.len() <= orig.len(),
                rest@ == orig.subrange(0, rest@.len() as int),
                self.size as int + occupied_count(rest@) == occupied_count(orig),
                forall|k: i32|
                    #![trigger has_key(orig, k)]
                    self@.contains_key(k) == (has_key(orig, k) && !has_key(rest@, k)),
                forall|k: i32|
                    #![trigger has_key(orig, k)]
                    self@.contains_key(k) ==> self@[k] == old_map[k],
            decreases rest@.len(),
        {
            let ghost rest_pre: Seq<Slot> = rest@;
            let ghost m: int = rest@.len() as int;
            let ghost table_pre: Map<i32, Seq<char>> = self@;
            let slot = rest.pop().unwrap();
            proof {
                assert(rest@ =~= rest_pre.drop_last());
                assert(rest@ =~= orig.subrange(0, rest@.len() as int));
                assert(slot == orig[m - 1]);
                lemma_occupied_count_bounds(rest@);
            }
            match slot {
                Slot::Occupied(pair) => {
                    proof {
                        assert(orig[m - 1] is Occupied && orig[m - 1].key() == pair.key);
                        assert(has_key(orig, pair.key));
                        assert(has_key(rest_pre, pair.key));
                        assert(!has_key(rest@, pair.key)) by {
                            if has_key(rest@, pair.key) {
                                let x = key_index(rest@, pair.key);
                                lemma_key_index_works(rest@, pair.key);
                                assert(orig[x] is Occupied && orig[x].key() == pair.key);
                                assert(false);
                            }
                        }
                        assert(!table_pre.contains_key(pair.key));
                        lemma_key_index_unique(orig, pair.key, m - 1);
                        assert(old_map.contains_key(pair.key));
                        assert(old_map[pair.key] == orig[key_index(orig, pair.key)].value_view());
                        assert(old_map[pair.key] == pair.value@);
                        assert(3 * self.size as int <= 2 * self.capacity as int);
                    }
                    self.put_no_grow(pair.key, pair.value);
                    proof {
                        assert forall|k: i32| #![trigger has_key(orig, k)]
                            self@.contains_key(k) == (has_key(orig, k) && !has_key(rest@, k)) by {
                            if k == pair.key {
                                assert(self@.contains_key(k));
                            } else {
                                assert(has_key(rest@, k) == has_key(rest_pre, k)) by {
                                    if has_key(rest@, k) {
                                        let x = key_index(rest@, k);
                                        lemma_key_index_works(rest@, k);
                                        assert(rest_pre[x] is Occupied && rest_pre[x].key() == k);
                                        assert(has_key(rest_pre, k));
                                    }
                                    if has_key(rest_pre, k) {
                                        let x = key_index(rest_pre, k);
                                        lemma_key_index_works(rest_pre, k);
                                        assert(x != m - 1);
                                        assert(rest@[x] is Occupied && rest@[x].key() == k);
                                        assert(has_key(rest@, k));
                                    }
                                }
                            }
                        }
                        assert forall|k: i32| #![trigger has_key(orig, k)]
                            self@.contains_key(k) implies self@[k] == old_map[k] by {
                            if k != pair.key {
                                assert(self@[k] == table_pre[k]);
                            }
                        }
                    }
                },
                _ => {
                    proof {
                        assert forall|k: i32| #![trigger has_key(orig, k)]
                            has_key(rest@, k) == has_key(rest_pre, k) by {
                            if has_key(rest@, k) {
                                let x = key_index(rest@, k);
                                lemma_key_index_works(rest@, k);
                                assert(rest_pre[x] is Occupied && rest_pre[x].key() == k);
                                assert(has_key(rest_pre, k));
                            }
                            if has_key(rest_pre, k) {
                                let x = key_index(rest_pre, k);
                                lemma_key_index_works(rest_pre, k);
                                assert(x != m - 1);
                                assert(rest@[x] is Occupied && rest@[x].key() == k);
                                assert(has_key(rest@, k));
                            }
                        }
                    }
                },
            }
        }
        proof {
            assert(rest@.len() == 0);
            assert(forall|k: i32| !has_key(rest@, k));
            assert(occupied_count(rest@) == 0);
            assert forall|k: i32| #[trigger] self@.contains_key(k) == old_map.contains_key(k) by {
                assert(old_map.contains_key(k) == has_key(orig, k));
            }
            assert(self@ =~= old_map);
        }
    }

    /// Looks `key` up and returns a copy of its value, or nothing when the
    /// key is absent. A lookup never mutates the table: the probe-path
    /// compaction that the mutating operations perform is deliberately kept
    /// off the read path, so a tombstone met on the walk is only skipped.
    pub fn get(&self, key: i32) -> (value: Option<String>)
        requires
            self.wf(),
        ensures
            match value {
                Some(v) => self@.contains_key(key) && v@ == self@[key],
                None => !self@.contains_key(key),
            },
    {
        let capacity = self.capacity;
        let h = hash_index(key, capacity);
        proof {
            lemma_hash_spec_range(key as int, capacity as int);
            lemma_small_mod(h as nat, capacity as nat);
        }
        let ghost hh: int = h as int;
        let ghost cap: int = capacity as int;
        let ghost s: Seq<Slot> = self.buckets@;
        let mut index = h;
        let mut steps: usize = 0;
        loop
            invariant_except_break
                steps < capacity,
            invariant
                s == self.buckets@,
                self.buckets@.len() == capacity as int,
                cap == capacity as int,
                capacity >= 4,
                0 <= hh < cap,
                hh == hash_spec(key as int, cap),
                self.wf(),
                steps <= capacity,
                index < capacity,
                index as int == probe(hh, steps as int, cap),
                forall|t: int|
                    0 <= t < steps ==> !((#[trigger] s[probe(hh, t, cap)]) is Empty),
                forall|t: int|
                    0 <= t < steps ==> ((#[trigger] s[probe(hh, t, cap)]) is Occupied ==> s[probe(
                        hh,
                        t,
                        cap,
                    )].key() != key),
            ensures
                steps == capacity || (steps < capacity && index as int == probe(hh, steps as int, cap)
                    && s[index as int] is Empty),
            decreases capacity - steps,
        {
            match &self.buckets[index] {
                Slot::Empty => {
                    break ;
                },
                Slot::Occupied(pair) => {
                    if pair.key == key {
                        proof {
                            lemma_key_index_unique(s, key, index as int);
                        }
                        return Some(pair.value.clone());
                    }
                },
                Slot::Tombstone => {},
            }
            proof {
                lemma_probe_step(hh, steps as int, cap);
            }
            index = if index + 1 == capacity {
                0
            } else {
                index + 1
            };
            steps = steps + 1;
            if steps == capacity {
                break ;
            }
        }
        proof {
            lemma_walk_misses_key(s, hh, key, steps as int);
        }
        None
    }

    /// Deletes `key`, returning its value when it was present: the slot
    /// holding it becomes a tombstone — never empty, so probe walks that pass
    /// it continue — the size shrinks by one, and no other slot changes. An
    /// absent key leaves the table entirely unchanged and returns nothing.
    pub fn remove(&mut self, key: i32) -> (removed: Option<String>)
        requires
            old(self).wf(),
        ensures
            final(self).wf(),
            final(self)@ == old(self)@.remove(key),
            final(self).spec_capacity() == old(self).spec_capacity(),
            final(self).spec_size() as int == old(self).spec_size() as int - (if old(
                self,
            )@.contains_key(key) {
                1int
            } else {
                0int
            }),
            old(self)@.contains_key(key) ==> final(self).spec_slots() == old(
                self,
            ).spec_slots().update(key_index(old(self).spec_slots(), key), Slot::Tombstone),
            !old(self)@.contains_key(key) ==> *final(self) == *old(self),
            match removed {
                Some(v) => old(self)@.contains_key(key) && v@ == old(self)@[key],
                None => !old(self)@.contains_key(key),
            },
    {
        let ghost s0: Seq<Slot> = self.buckets@;
        let index = self.find_bucket(key);
        let ghost s: Seq<Slot> = self.buckets@;
        let found_value = match &self.buckets[index] {
            Slot::Occupied(pair) => Some(pair.value.clone()),
            _ => None,
        };
        match found_value {
            Some(v) => {
                proof {
                    assert(s[index as int] is Occupied);
                    lemma_occupied_count_positive(s, index as int);
                }
                self.buckets[index] = Slot::Tombstone;
                self.size = self.size - 1;
                proof {
                    lemma_make_tombstone(s, index as int);
                    // Whether or not the walk relocated the pair, the net
                    // effect is exactly one slot turned into a tombstone.
                    let kj = key_index(s0, key);
                    if s == s0 && index as int == kj {
                        assert(self.buckets@ =~= s0.update(kj, Slot::Tombstone));
                    } else {
                        assert(s == s0.update(index as int, s0[kj]).update(kj, Slot::Tombstone));
                        assert(s0[index as int] is Tombstone);
                        assert(self.buckets@ =~= s0.update(kj, Slot::Tombstone));
                    }
                }
                Some(v)
            },
            None => {
                proof {
                    assert(old(self)@.remove(key) =~= old(self)@);
                }
                None
            },
        }
    }

    /// The slot listing that `dump` returns always has exactly one slot per
    /// unit of capacity.
    pub proof fn lemma_slot_count_matches_capacity(self)
        requires
            self.wf(),
        ensures
            self.spec_slots().len() == self.spec_capacity() as int,
    {
    }

    /// Load-factor bound: a sound table always stays within one insertion of
    /// the 2/3 threshold — so a store that did not grow the table found the
    /// threshold respected before it ran — and it keeps strictly fewer pairs
    /// than slots, which is what makes every probe walk terminate.
    pub proof fn lemma_load_factor_bound(self)
        requires
            self.wf(),
        ensures
            3 * self.spec_size() as int <= 2 * self.spec_capacity() as int + 3,
            self.spec_size() < self.spec_capacity(),
    {
    }

    /// The stored-pair count and the capacity, whose quotient is the load
    /// factor.
    pub fn load_factor(&self) -> (ratio: (usize, usize))
        requires
            self.wf(),
        ensures
            ratio.0 == self.spec_size(),
            ratio.1 == self.spec_capacity(),
            0 < ratio.1,
    {
        (self.size, self.capacity)
    }

    /// An ordered copy of the slot array for diagnostics, telling empty,
    /// tombstoned and occupied slots apart.
    pub fn dump(&self) -> (listing: Vec<Slot>)
        requires
            self.wf(),
        ensures
            listing@ == self.spec_slots(),
            listing@.len() == self.spec_capacity(),
    {
        let mut listing: Vec<Slot> = Vec::new();
        let mut i: usize = 0;
        while i < self.buckets.len()
            invariant
                i <= self.buckets.len(),
                listing@ =~= self.buckets@.subrange(0, i as int),
            decreases self.buckets.len() - i,
        {
            listing.push(self.buckets[i].clone());
            i += 1;
            proof {
                assert(listing@ =~= self.buckets@.subrange(0, i as int));
            }
        }
        proof {
            assert(self.buckets@.subrange(0, self.buckets@.len() as int) =~= self.buckets@);
        }
        listing
    }
}

} // verus!
