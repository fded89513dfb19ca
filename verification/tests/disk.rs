use lynx_monitor::collectors::disk::{disk_ok, DiskCollector, FsSpace};

const DISK1: &str = "   7       0 loop0 10 0 999 0 0 0 999 0 0 0 0 0 0\n\
   1       0 ram0 10 0 999 0 0 0 999 0 0 0 0 0 0\n\
   8       0 sda 100 0 2000 0 50 0 1000 0 0 0 0 0 0\n\
   8       1 sda1 100 0 6 0 50 0 4 0 0 0 0\n\
   8       2 short 1 2 3\n";

const DISK2: &str = "   8       0 sda 100 0 3000 0 50 0 1500 0 0 0 0 0 0\n\
   8       1 sda1 100 0 6 0 50 0 4 0 0 0 0\n";

#[test]
fn first_reading_has_no_rates() {
    let mut d = DiskCollector::new();
    let fs = Some(FsSpace { blocks: 1000, blocks_available: 250, fragment_size: 4096 });
    assert!(disk_ok(fs, DISK1));
    let s = d.get_disk_usage(fs, DISK1);
    assert_eq!(s.total, 4_096_000);
    assert_eq!(s.free, 1_024_000);
    assert_eq!(s.used, 3_072_000);
    assert_eq!(s.read_bytes, 2006 * 512);
    assert_eq!(s.write_bytes, 1004 * 512);
    assert_eq!(s.read_speed, 0);
    assert_eq!(s.write_speed, 0);
}

#[test]
fn second_reading_gives_rates() {
    let mut d = DiskCollector::new();
    d.get_disk_usage(None, DISK1);
    let s = d.get_disk_usage(None, DISK2);
    assert_eq!(s.total, 0);
    assert_eq!(s.used, 0);
    assert_eq!(s.read_speed, 1000 * 512);
    assert_eq!(s.write_speed, 500 * 512);
}

#[test]
fn no_rates_while_nothing_was_read() {
    let mut d = DiskCollector::new();
    d.get_disk_usage(None, "");
    let s = d.get_disk_usage(None, DISK2);
    assert_eq!(s.read_speed, 0);
    assert_eq!(s.write_speed, 0);
    let s = d.get_disk_usage(None, DISK1);
    assert_eq!(s.read_speed, 0);
    assert_eq!(s.write_speed, 0);
}

#[test]
fn out_of_range_disk_figures_are_refused() {
    assert!(!disk_ok(Some(FsSpace { blocks: u64::MAX, blocks_available: 0, fragment_size: 2 }), ""));
    assert!(!disk_ok(Some(FsSpace { blocks: 1, blocks_available: u64::MAX, fragment_size: 2 }), ""));
    assert!(!disk_ok(None, "8 0 sda 0 0 36028797018963968 0 0 0 0 0 0 0 0\n"));
    assert!(disk_ok(None, "8 0 sda 0 0 36028797018963967 0 0 0 0 0 0 0 0\n"));
}
