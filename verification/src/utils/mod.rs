//! Support for the program around the monitor.

pub mod logger;
