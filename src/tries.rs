pub mod arena;
pub mod binary_trie;
pub mod bits;
pub mod hash_table;
pub mod laws;
pub mod links;
pub mod x_fast_trie;
