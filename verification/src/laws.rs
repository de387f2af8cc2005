//! Laws that both collision-resolving tables obey, stated over the
//! mathematical `Map<i32, Seq<char>>` view that their contracts use. Each
//! table operation's own contract reduces the operation to `Map::insert`,
//! `Map::remove` and `Map::index`; these lemmas pin down what those reduced
//! forms guarantee.

use vstd::prelude::*;

verus! {

/// Round trip: storing a value under a key and then looking the key up,
/// with no intervening mutation of that key, yields exactly that value.
pub proof fn lemma_round_trip(m: Map<i32, Seq<char>>, key: i32, value: Seq<char>)
    ensures
        m.insert(key, value).contains_key(key),
        m.insert(key, value)[key] == value,
{
}

/// A store to one key leaves every other key's presence and value unchanged,
/// so a round trip survives later stores to other keys.
pub proof fn lemma_put_preserves_other_keys(
    m: Map<i32, Seq<char>>,
    key: i32,
    value: Seq<char>,
    other: i32,
)
    requires
        other != key,
    ensures
        m.insert(key, value).contains_key(other) == m.contains_key(other),
        m.contains_key(other) ==> m.insert(key, value)[other] == m[other],
{
}

/// Deletion correctness: after a key is removed it is absent, and every
/// other key's presence and value are unaffected — a deletion marker must
/// not hide other keys.
pub proof fn lemma_deletion_correctness(m: Map<i32, Seq<char>>, key: i32, other: i32)
    requires
        other != key,
    ensures
        !m.remove(key).contains_key(key),
        m.remove(key).contains_key(other) == m.contains_key(other),
        m.contains_key(other) ==> m.remove(key)[other] == m[other],
{
}

/// Resize preserves content: a store maps the stored key to the new value
/// and leaves every previously stored key bound to its old value — also when
/// the store made the table grow and rehash, since the tables promise the
/// same `insert` relation between the old and new views either way.
pub proof fn lemma_resize_preserves_content(
    pre: Map<i32, Seq<char>>,
    post: Map<i32, Seq<char>>,
    key: i32,
    value: Seq<char>,
)
    requires
        post == pre.insert(key, value),
    ensures
        post.contains_key(key) && post[key] == value,
        forall|k: i32|
            #![trigger pre.contains_key(k)]
            pre.contains_key(k) && k != key ==> post.contains_key(k) && post[k] == pre[k],
{
}

/// No lost updates: storing `v1` and then `v2` under one key is the same as
/// storing `v2` alone — one entry for the key, holding `v2`, and the key set
/// is unchanged between the two stores, so the second store leaves the size
/// as it was.
pub proof fn lemma_no_lost_updates(m: Map<i32, Seq<char>>, key: i32, v1: Seq<char>, v2: Seq<char>)
    ensures
        m.insert(key, v1).insert(key, v2) == m.insert(key, v2),
        m.insert(key, v1).insert(key, v2)[key] == v2,
        m.insert(key, v1).contains_key(key),
        m.insert(key, v1).insert(key, v2).dom() == m.insert(key, v1).dom(),
{
    assert(m.insert(key, v1).insert(key, v2) =~= m.insert(key, v2));
    assert(m.insert(key, v1).insert(key, v2).dom() =~= m.insert(key, v1).dom());
}

/// A resize at the 2/3 load threshold with growth factor 2 lands the table
/// back under the threshold, with room for the insertion that triggered it.
pub proof fn lemma_resize_restores_threshold(size: int, capacity: int)
    requires
        capacity >= 4,
        3 * size <= 2 * capacity + 3,
        3 * size > 2 * capacity,
    ensures
        3 * size <= 2 * (2 * capacity),
        3 * (size + 1) <= 2 * (2 * capacity) + 3,
{
}

} // verus!
