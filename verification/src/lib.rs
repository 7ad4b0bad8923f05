//! A self-balancing binary search tree (AVL tree) over totally ordered keys.

pub mod balance;
pub mod balance_proofs;
pub mod delete;
pub mod height_proofs;
pub mod insert;
pub mod node;
pub mod node_proofs;
pub mod order;
pub mod sequence;
pub mod traverse_proofs;
pub mod tree;
