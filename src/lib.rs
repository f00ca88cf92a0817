pub mod bit_map;
pub mod bloom_filter;
pub mod codec;
pub mod counting_bloom_filter;
pub mod hashing;
pub mod lex;
pub mod lsm_tree;
pub mod manifest;
pub mod memtable;
pub mod sstable;
