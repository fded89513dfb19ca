use lynx_monitor::process::manager::{
    find_uid, get_username, stat_ok, user_of, CpuTime, ProcEntry, ProcessManager,
};

/// A `stat` line: the fields after the command are numbered from 0 (the
/// state), with the given values at utime (11), stime (12), priority (15),
/// nice (16), threads (17) and rss (21).
fn stat_line(pid: u32, comm: &str, utime: u64, stime: u64, rss: u64) -> String {
    let mut f: Vec<String> = (0..50).map(|i| i.to_string()).collect();
    f[0] = "S".to_string();
    f[1] = "1".to_string();
    f[11] = utime.to_string();
    f[12] = stime.to_string();
    f[15] = "20".to_string();
    f[16] = "-5".to_string();
    f[17] = "3".to_string();
    f[21] = rss.to_string();
    format!("{} ({}) {}", pid, comm, f.join(" "))
}

const PASSWD: &str = "root:x:0:0:root:/root:/bin/bash\nalice:x:1000:1000::/home/alice:/bin/sh\n";

#[test]
fn parse_process_reads_stat_fields() {
    let mut pm = ProcessManager::new(100);
    let stat = stat_line(42, "my (odd) proc", 70, 30, 10);
    assert!(stat_ok(&stat));
    let p = pm.parse_process(42, 1000, &stat, Some("Name: x\nUid:\t1000\t1000\n"), PASSWD).unwrap();
    assert_eq!(p.pid, 42);
    assert_eq!(p.ppid, 1);
    assert_eq!(p.command, "my (odd) proc");
    assert_eq!(p.state, 'S');
    assert_eq!(p.priority, 20);
    assert_eq!(p.nice, -5);
    assert_eq!(p.threads, 3);
    assert_eq!(p.memory_usage, 40960);
    assert_eq!(p.user, "alice");
    assert_eq!(p.cpu, None);
}

#[test]
fn cpu_time_between_listings() {
    let mut pm = ProcessManager::new(100);
    pm.parse_process(7, 1000, &stat_line(7, "a", 70, 30, 1), None, "");
    let p = pm.parse_process(7, 1100, &stat_line(7, "a", 120, 40, 1), None, "").unwrap();
    assert_eq!(p.cpu, Some(CpuTime { busy: 60, elapsed: 100 }));
    assert_eq!(p.user, "unknown");
}

#[test]
fn malformed_stat_gives_no_record() {
    let mut pm = ProcessManager::new(100);
    assert!(pm.parse_process(1, 0, "1 x S", None, "").is_none());
    assert!(pm.parse_process(1, 0, "1 )x( S 1 2", None, "").is_none());
    assert!(pm.parse_process(1, 0, "1 (x) S 1 2 3", None, "").is_none());
    let p = pm.parse_process(1, 50, &stat_line(1, "x", 5, 5, 1), None, "").unwrap();
    assert_eq!(p.cpu, None);
}

#[test]
fn stat_that_would_panic_is_refused() {
    assert!(!stat_ok("1 (x)"));
    assert!(!stat_ok("1 (x)é 1 2"));
    assert!(stat_ok("1 (x) S"));
    assert!(stat_ok("no parens"));
    assert!(!stat_ok(&stat_line(1, "x", 1, 1, u64::MAX / 4096 + 1)));
    assert!(!stat_ok(&stat_line(1, "x", u64::MAX, 1, 1)));
    assert!(stat_ok(&stat_line(1, "x", u64::MAX - 1, 1, u64::MAX / 4096)));
}

#[test]
fn unparsable_numbers_read_as_zero() {
    let mut pm = ProcessManager::new(100);
    let stat = stat_line(9, "z", 1, 1, 1).replace(" 20 -5 3 ", " x -y 3.5 ");
    let p = pm.parse_process(9, 0, &stat, None, "").unwrap();
    assert_eq!(p.priority, 0);
    assert_eq!(p.nice, 0);
    assert_eq!(p.threads, 0);
}

#[test]
fn listing_remembers_exactly_the_listed_processes() {
    let mut pm = ProcessManager::new(100);
    let e = |pid: u32, t: u64| ProcEntry { pid, stat: Some(stat_line(pid, "p", t, 0, 1)), status: None };
    let first = vec![e(1, 10), e(2, 10), e(3, 10)];
    let l = pm.get_process_list(100, &first, "");
    assert_eq!(l.iter().map(|p| p.pid).collect::<Vec<_>>(), vec![1, 2, 3]);
    assert!(l.iter().all(|p| p.cpu.is_none()));
    let second = vec![
        e(2, 30),
        ProcEntry { pid: 3, stat: None, status: None },
        ProcEntry { pid: 4, stat: Some("garbage".to_string()), status: None },
    ];
    let l = pm.get_process_list(200, &second, "");
    assert_eq!(l.len(), 1);
    assert_eq!(l[0].cpu, Some(CpuTime { busy: 20, elapsed: 100 }));
    let third = vec![e(1, 50), e(2, 40), e(3, 50)];
    let l = pm.get_process_list(300, &third, "");
    assert_eq!(l[0].cpu, None);
    assert_eq!(l[1].cpu, Some(CpuTime { busy: 10, elapsed: 100 }));
    assert_eq!(l[2].cpu, None);
}

#[test]
fn ticks_per_second_default() {
    assert_eq!(ProcessManager::new(100).ticks_per_sec(), 100);
    assert_eq!(ProcessManager::new(0).ticks_per_sec(), 100);
    assert_eq!(ProcessManager::new(-1).ticks_per_sec(), u64::MAX);
    assert_eq!(ProcessManager::new(250).ticks_per_sec(), 250);
}

#[test]
fn uid_from_first_uid_line() {
    assert_eq!(find_uid("Name:\tbash\nUid:\t1000\t1000\t1000\t1000\nUid: 5\n"), Some(1000));
    assert_eq!(find_uid("Uid:\nUid: 5\n"), None);
    assert_eq!(find_uid("Uid: x\n"), None);
    assert_eq!(find_uid("Name: a\n"), None);
}

#[test]
fn user_names_from_passwd() {
    assert_eq!(get_username(0, PASSWD), "root");
    assert_eq!(get_username(1000, PASSWD), "alice");
    assert_eq!(get_username(1234, PASSWD), "1234");
    assert_eq!(get_username(5, "a:x\nb:x:+5:0\nc:x:5:0\n"), "b");
    assert_eq!(user_of(None, PASSWD), "unknown");
    assert_eq!(user_of(Some("Uid: 0\n"), PASSWD), "root");
    assert_eq!(user_of(Some("Gid: 0\n"), PASSWD), "unknown");
}

#[test]
fn distinct_entries_give_distinct_records() {
    let mut pm = ProcessManager::new(100);
    let entries: Vec<ProcEntry> = (1..6)
        .map(|pid| ProcEntry { pid, stat: Some(stat_line(pid, "p", 1, 1, 1)), status: None })
        .collect();
    let l = pm.get_process_list(10, &entries, "");
    let mut pids: Vec<u32> = l.iter().map(|p| p.pid).collect();
    pids.dedup();
    assert_eq!(pids, vec![1, 2, 3, 4, 5]);
}
