//! Binary search trees over integer keys: a plain (unbalanced) engine and a
//! height-balanced (AVL) engine, with an instrumented search that counts the
//! nodes it visits.

pub mod avl;
pub mod bst;
pub mod tree;
