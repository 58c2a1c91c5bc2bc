pub mod chaned_hash_table;
pub mod hash_gen;
