use lynx_monitor::collectors::memory::{get_memory_usage, meminfo_ok};
use lynx_monitor::models::MemoryStats;

const MEMINFO: &str = "MemTotal:       16000 kB\n\
MemFree:         4000 kB\n\
MemAvailable:    9000 kB\n\
Buffers:          500 kB\n\
Cached:          3000 kB\n\
SwapCached:         0 kB\n\
SwapTotal:       2000 kB\n\
SwapFree:        1500 kB\n\
Shmem:            200 kB\n\
SReclaimable:     700 kB\n";

#[test]
fn meminfo_figures() {
    assert!(meminfo_ok(MEMINFO));
    let m = get_memory_usage(MEMINFO);
    assert_eq!(
        m,
        MemoryStats {
            total: 16000 * 1024,
            used: (16000 - 4000 - 500 - 3500) * 1024,
            free: 4000 * 1024,
            shared: 200 * 1024,
            buffers: 500 * 1024,
            cached: 3500 * 1024,
            swap_total: 2000 * 1024,
            swap_used: 500 * 1024,
            swap_free: 1500 * 1024,
        }
    );
}

#[test]
fn used_memory_saturates_at_zero() {
    let m = get_memory_usage("MemTotal: 100 kB\nMemFree: 90 kB\nBuffers: 20 kB\n");
    assert_eq!(m.used, 0);
    let m = get_memory_usage("SwapTotal: 10 kB\nSwapFree: 20 kB\n");
    assert_eq!(m.swap_used, 0);
}

#[test]
fn last_value_of_a_key_counts() {
    let m = get_memory_usage("MemTotal: 1 kB\nMemTotal: 2 kB\nMemFree: x kB\nBad\n");
    assert_eq!(m.total, 2048);
    assert_eq!(m.free, 0);
}

#[test]
fn empty_meminfo_gives_zeros() {
    assert!(meminfo_ok(""));
    assert_eq!(get_memory_usage(""), MemoryStats::default());
}

#[test]
fn out_of_range_meminfo_is_refused() {
    assert!(!meminfo_ok("Shmem: 10 kB\nCached: 5 kB\n"));
    assert!(!meminfo_ok("Whatever: 18014398509481984 kB\n"));
    assert!(meminfo_ok("Whatever: 18014398509481983 kB\n"));
    assert!(!meminfo_ok("Cached: 18014398509481983 kB\nSReclaimable: 1 kB\n"));
}
