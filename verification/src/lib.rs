//! Parsing and bookkeeping for a Linux system monitor: the text of the
//! kernel's `/proc` files goes in, counters, rates and per-process records
//! come out, and the interactive process table is driven by a verified state
//! machine.

pub mod collectors;
pub mod models;
pub mod process;
pub mod text;
pub mod ui;
pub mod utils;
