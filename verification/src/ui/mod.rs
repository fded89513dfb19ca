//! The process table's interaction logic.

pub mod engine;
