//! A bloom filter over text items, with a compact binary file encoding.

pub mod bit_store;
pub mod bloom_filter;
pub mod digest;
pub mod format;
pub mod laws;
pub mod model;
