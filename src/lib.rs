pub mod example;
pub mod graph;
pub mod tree;
