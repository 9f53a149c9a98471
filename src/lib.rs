pub mod binary_operations;
pub mod error;
pub mod expression;
pub mod grammar;
pub mod theorems;
pub mod token;
pub mod token_set;
pub mod token_tree;
pub mod unary_operations;
