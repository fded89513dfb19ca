//! Readers of the kernel's system-wide counters.

pub mod cpu;
pub mod disk;
pub mod memory;
pub mod network;
pub mod system;
