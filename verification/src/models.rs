//! The statistics that the collectors produce.

use vstd::prelude::*;

verus! {

/// Memory and swap sizes, in bytes.
#[derive(Clone, Copy, Debug, PartialEq, Eq, Structural)]
pub struct MemoryStats {
    pub total: u64,
    pub used: u64,
    pub free: u64,
    pub shared: u64,
    pub buffers: u64,
    pub cached: u64,
    pub swap_total: u64,
    pub swap_used: u64,
    pub swap_free: u64,
}

impl Default for MemoryStats {
    fn default() -> (s: Self)
        ensures
            s == (MemoryStats {
                total: 0,
                used: 0,
                free: 0,
                shared: 0,
                buffers: 0,
                cached: 0,
                swap_total: 0,
                swap_used: 0,
                swap_free: 0,
            }),
    {
        MemoryStats {
            total: 0,
            used: 0,
            free: 0,
            shared: 0,
            buffers: 0,
            cached: 0,
            swap_total: 0,
            swap_used: 0,
            swap_free: 0,
        }
    }
}

/// Space of the root file system and block device traffic, in bytes and
/// bytes per reading.
#[derive(Clone, Copy, Debug, PartialEq, Eq, Structural)]
pub struct DiskStats {
    pub total: u64,
    pub used: u64,
    pub free: u64,
    pub read_bytes: u64,
    pub write_bytes: u64,
    pub read_speed: u64,
    pub write_speed: u64,
}

impl Default for DiskStats {
    fn default() -> (s: Self)
        ensures
            s == (DiskStats {
                total: 0,
                used: 0,
                free: 0,
                read_bytes: 0,
                write_bytes: 0,
                read_speed: 0,
                write_speed: 0,
            }),
    {
        DiskStats {
            total: 0,
            used: 0,
            free: 0,
            read_bytes: 0,
            write_bytes: 0,
            read_speed: 0,
            write_speed: 0,
        }
    }
}

/// The byte counters of one network interface.
#[derive(Clone, Debug)]
pub struct InterfaceStats {
    pub name: String,
    pub rx_bytes: u64,
    pub tx_bytes: u64,
}

/// Network traffic over all interfaces but loopback, in bytes and bytes per
/// reading.
#[derive(Clone, Debug)]
pub struct NetworkStats {
    pub upload_bytes: u64,
    pub download_bytes: u64,
    pub upload_speed: u64,
    pub download_speed: u64,
    pub interfaces: Vec<InterfaceStats>,
}

impl Default for NetworkStats {
    fn default() -> (s: Self)
        ensures
            s.upload_bytes == 0,
            s.download_bytes == 0,
            s.upload_speed == 0,
            s.download_speed == 0,
            s.interfaces@.len() == 0,
    {
        NetworkStats {
            upload_bytes: 0,
            download_bytes: 0,
            upload_speed: 0,
            download_speed: 0,
            interfaces: Vec::new(),
        }
    }
}

} // verus!
