use lynx_monitor::collectors::network::{net_dev_ok, NetworkCollector};

const NET1: &str = "Inter-|   Receive                                                |  Transmit\n \
face |bytes    packets errs drop fifo frame compressed multicast|bytes    packets errs drop fifo colls carrier compressed\n    \
lo: 5000 10 0 0 0 0 0 0 5000 10 0 0 0 0 0 0\n  \
eth0: 1000 10 0 0 0 0 0 0 300 5 0 0 0 0 0 0\n \
wlan0:: 200 1 0 0 0 0 0 0 100 1 0 0 0 0 0 0\n \
bad: 1 2 3\n";

const NET2: &str = "h1\nh2\n  eth0: 1600 10 0 0 0 0 0 0 500 5 0 0 0 0 0 0\n wlan0: 300 1 0 0 0 0 0 0 150 1 0 0 0 0 0 0\n";

#[test]
fn interfaces_but_loopback_are_listed() {
    let mut n = NetworkCollector::new();
    assert!(net_dev_ok(NET1));
    let s = n.get_network_usage(NET1);
    assert_eq!(s.interfaces.len(), 2);
    assert_eq!(s.interfaces[0].name, "eth0");
    assert_eq!(s.interfaces[0].rx_bytes, 1000);
    assert_eq!(s.interfaces[0].tx_bytes, 300);
    assert_eq!(s.interfaces[1].name, "wlan0");
    assert_eq!(s.download_bytes, 1200);
    assert_eq!(s.upload_bytes, 400);
    assert_eq!(s.download_speed, 0);
    assert_eq!(s.upload_speed, 0);
}

#[test]
fn rates_after_the_first_reading() {
    let mut n = NetworkCollector::new();
    n.get_network_usage(NET1);
    let s = n.get_network_usage(NET2);
    assert_eq!(s.download_speed, 700);
    assert_eq!(s.upload_speed, 250);
}

#[test]
fn header_lines_are_skipped() {
    let mut n = NetworkCollector::new();
    let s = n.get_network_usage("eth0: 1 0 0 0 0 0 0 0 1 0 0 0 0 0 0 0\n");
    assert!(s.interfaces.is_empty());
    assert_eq!(s.download_bytes, 0);
}

#[test]
fn totals_out_of_range_are_refused() {
    let big = "h\nh\na: 18446744073709551615 0 0 0 0 0 0 0 0 0 0 0 0 0 0 0\nb: 1 0 0 0 0 0 0 0 0 0 0 0 0 0 0 0\n";
    assert!(!net_dev_ok(big));
    let fine = "h\nh\na: 18446744073709551615 0 0 0 0 0 0 0 0 0 0 0 0 0 0 0\n";
    assert!(net_dev_ok(fine));
}
