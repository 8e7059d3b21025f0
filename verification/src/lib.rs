pub mod catalog;
pub mod graph;
pub mod stack;
pub mod symbolic;
pub mod op;
pub mod program;
pub mod word;
