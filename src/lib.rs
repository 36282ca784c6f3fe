//! An open-addressing hash table with linear probing and doubling growth,
//! verified against a map model of its contents.

pub mod hashing;
pub mod table;
pub mod laws;
