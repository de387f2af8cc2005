//! The slot-index function that both collision-resolving tables share: a key
//! is mapped to the non-negative remainder of the key modulo the current
//! capacity. The mapping depends on the capacity, so it is recomputed — never
//! cached — whenever a table grows.

use vstd::arithmetic::div_mod::{
    lemma_fundamental_div_mod, lemma_mod_division_less_than_divisor, lemma_mod_multiples_vanish,
    lemma_small_mod,
};
use vstd::prelude::*;

verus! {

/// The slot index of `key` in a table of `capacity` slots: the non-negative
/// remainder of `key` modulo `capacity`.
pub open spec fn hash_spec(key: int, capacity: int) -> int {
    key % capacity
}

/// The hash index always lands inside the table.
pub proof fn lemma_hash_spec_range(key: int, capacity: int)
    requires
        capacity > 0,
    ensures
        0 <= hash_spec(key, capacity) < capacity,
{
    lemma_mod_division_less_than_divisor(key, capacity);
}

/// Computes the non-negative remainder of `key` modulo `capacity`, also for
/// negative keys.
pub fn hash_index(key: i32, capacity: usize) -> (index: usize)
    requires
        capacity > 0,
    ensures
        index == hash_spec(key as int, capacity as int),
{
    if key >= 0 {
        (key as usize) % capacity
    } else {
        // |key| fits in 32 unsigned bits even when key is i32::MIN.
        let magnitude = (-(key as i64)) as usize;
        let m = magnitude % capacity;
        proof {
            let n = magnitude as int;
            let c = capacity as int;
            lemma_fundamental_div_mod(n, c);
            lemma_mod_division_less_than_divisor(n, c);
            // key == c * (-(n / c)) + (-(n % c)), so key % c == (-(n % c)) % c.
            assert(key as int == c * (-(n / c)) + (-(n % c))) by {
                assert(n == c * (n / c) + n % c);
                assert(c * (-(n / c)) == -(c * (n / c))) by (nonlinear_arith);
            }
            lemma_mod_multiples_vanish(-(n / c), -(n % c), c);
            if m == 0 {
                lemma_small_mod(0nat, c as nat);
            } else {
                // (-m) % c == (c * 1 + (-m)) % c == c - m, which is in [1, c).
                lemma_mod_multiples_vanish(1, -(m as int), c);
                lemma_small_mod((c - m) as nat, c as nat);
            }
        }
        if m == 0 {
            0
        } else {
            capacity - m
        }
    }
}

} // verus!
