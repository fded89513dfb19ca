//! The process table.

pub mod manager;
