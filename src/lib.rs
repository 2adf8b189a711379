//! A bounded least-recently-used cache kept in a slot arena, with a hash
//! index from keys to slots and a doubly linked recency chain through them.
pub mod cache;
pub mod laws;
pub mod load;
pub mod model;
pub mod read_state;
