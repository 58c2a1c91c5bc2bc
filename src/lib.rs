pub mod arrays;
pub mod binary_easy;
pub mod binary_tree;
pub mod block_store;
pub mod graphs;
pub mod hash_tables;
pub mod heap;
pub mod interfaces;
pub mod linked_lists;
pub mod tries;
