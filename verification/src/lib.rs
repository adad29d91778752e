//! Classic in-memory containers with machine-checked contracts.
//!
//! The centre of the crate is an open-addressing hash table with linear
//! probing, parameterised over an interchangeable hash function.

pub mod powers;
mod storage;

pub mod adjacency_matrix;
pub mod array_stack;

pub mod circular_vec;
pub mod array_queue;
pub mod array_deque;
pub mod singly_linked_list;
pub mod doubly_linked_list;

pub mod hashers;
pub mod chained_hash_table;
pub mod linear_hash_table;
