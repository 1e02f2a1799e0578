//! Perfect hash function maps and sets, with the hashing, the table
//! generation and the lookups verified.
pub mod siphasher;
pub mod shared;
pub mod generator;
pub mod ordered_map;
pub mod ordered_set;
pub mod map;
pub mod set;
pub mod builder;
pub mod codegen;
pub mod bi_map;
pub mod rng;
pub mod utils;
pub mod ptrhash;
pub mod macros;
pub mod ptrhash_generator;
pub mod foldhash;
pub mod hasher;
pub mod sip24;
pub mod sorted_map;
