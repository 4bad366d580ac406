//! A map that can be looked up by either of two independent keys.
//!
//! `MultiMap<K1, K2, V>` stores each value `V` under a primary key `K1`
//! together with a secondary key `K2`; lookups, removals and in-place
//! mutation are available through either key, and the structure keeps
//! both key spaces consistent: no two stored elements ever share a
//! primary key or a secondary key.

pub mod map;
pub mod model;

pub use map::IntoIter;
pub use map::Iter;
pub use map::MultiMap;
