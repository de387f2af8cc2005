//! In-memory key-value tables with two collision-resolution strategies —
//! separate chaining and open addressing with lazy deletion — together with
//! the small array- and arena-backed containers that accompany them.
//!
//! Every table maps 32-bit signed integer keys to text values and is
//! specified against a mathematical `Map<i32, Seq<char>>` view.

pub mod array_map;
pub mod chain_map;
pub mod hashing;
pub mod laws;
pub mod list;
pub mod open_map;
pub mod pair;
pub mod queue;
pub mod stack;
pub mod tree;
