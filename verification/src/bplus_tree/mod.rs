mod node;
mod arena;
pub mod shape;
pub mod leaves;
mod tree;

mod search;
mod remove;
mod insert;

pub use tree::BPlusTree;
