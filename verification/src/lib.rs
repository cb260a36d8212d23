//! A fixed-capacity associative store for string keys and 64-bit values.
//!
//! The table uses open addressing with linear probing. Removal is soft: a
//! removed entry stays in its slot as a dead node so that keys placed further
//! along the same probe chain remain reachable, and the slot can be reclaimed
//! by a later insertion. A modification history of slot indices records write
//! recency and answers queries for the oldest and newest live entries.

pub mod counter;
pub mod laws;
pub mod table;
pub mod tokenizer;

pub use table::HashNode;
pub use table::HashTable;
pub use table::remove_key;
