//! The key-value record stored by the hash tables: a 32-bit signed integer
//! key and a text value.

use vstd::prelude::*;

verus! {

/// One key-value entry of a table.
pub struct Pair {
    pub key: i32,
    pub value: String,
}

impl Clone for Pair {
    fn clone(&self) -> (res: Self)
        ensures
            res == *self,
    {
        Pair { key: self.key, value: self.value.clone() }
    }
}

} // verus!
