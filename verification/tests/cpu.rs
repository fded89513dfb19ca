use lynx_monitor::collectors::cpu::{
    cpu_mhz_fields, parse_proc_stat, ticks_fit_exec, CoreData, CpuCollector, TickDelta,
};

const STAT1: &str = "cpu  10 0 5 80 5 0 0 0 0 0\n\
cpu0 4 0 2 40 2 0 0 0 0 0\n\
cpu1 6 0 3 40 3 0 0 0 0 0\n\
intr 1 2 3\n\
ctxt 99\n";

const STAT2: &str = "cpu  30 0 15 140 15 0 0 0 0 0\n\
cpu0 14 0 7 70 7 0 0 0 0 0\n\
cpu1 16 0 8 70 8 0 0 0 0 0\n\
intr 1 2 3\n";

#[test]
fn proc_stat_first_reading_counts_from_zero() {
    let text = "cpu  10 0 5 80 5 0 0 0 0 0\ncpu0 4 0 2 40 2 0 0 0 0 0\nintr 1\n";
    let snap = parse_proc_stat(text);
    let mut c = CpuCollector::new();
    assert!(c.accepts(&snap));
    let u = c.get_cpu_usage(&snap);
    let t = u.total.unwrap();
    assert_eq!(t.total, 100);
    assert_eq!(t.idle, 85);
    assert!(u.cores.is_empty());
}

#[test]
fn parse_proc_stat_reads_total_and_cores() {
    let s = parse_proc_stat(STAT1);
    let t = s.total.unwrap();
    assert_eq!(
        t,
        CoreData { user: 10, nice: 0, system: 5, idle: 80, iowait: 5, irq: 0, softirq: 0, steal: 0 }
    );
    assert_eq!(s.cores.len(), 2);
    assert_eq!(s.cores[1].user, 6);
    assert_eq!(s.cores[1].iowait, 3);
}

#[test]
fn second_reading_gives_ticks_per_core() {
    let mut c = CpuCollector::new();
    let u1 = c.get_cpu_usage(&parse_proc_stat(STAT1));
    assert!(u1.cores.is_empty());
    let s2 = parse_proc_stat(STAT2);
    assert!(c.accepts(&s2));
    let u2 = c.get_cpu_usage(&s2);
    assert_eq!(u2.total, Some(TickDelta { total: 100, idle: 70 }));
    assert_eq!(u2.cores, vec![TickDelta { total: 50, idle: 35 }, TickDelta { total: 50, idle: 35 }]);
}

#[test]
fn same_reading_twice_gives_no_ticks() {
    let mut c = CpuCollector::new();
    let s = parse_proc_stat(STAT1);
    c.get_cpu_usage(&s);
    let u = c.get_cpu_usage(&s);
    assert_eq!(u.total, Some(TickDelta { total: 0, idle: 0 }));
    assert_eq!(u.cores, vec![TickDelta { total: 0, idle: 0 }; 2]);
}

#[test]
fn idle_never_exceeds_total_when_counters_grow() {
    let mut c = CpuCollector::new();
    c.get_cpu_usage(&parse_proc_stat(STAT1));
    let u = c.get_cpu_usage(&parse_proc_stat(STAT2));
    let t = u.total.unwrap();
    assert!(t.idle <= t.total);
    for d in u.cores {
        assert!(d.idle <= d.total);
    }
}

#[test]
fn counters_running_backwards_saturate_at_zero() {
    let mut c = CpuCollector::new();
    c.get_cpu_usage(&parse_proc_stat(STAT2));
    let u = c.get_cpu_usage(&parse_proc_stat(STAT1));
    assert_eq!(u.total, Some(TickDelta { total: 0, idle: 0 }));
}

#[test]
fn missing_total_line_keeps_previous_counters() {
    let mut c = CpuCollector::new();
    c.get_cpu_usage(&parse_proc_stat(STAT1));
    let odd = parse_proc_stat("intr 5\ncpu0 4 0 2 40 2 0 0 0 0 0\n");
    assert_eq!(odd.total, None);
    let u = c.get_cpu_usage(&odd);
    assert_eq!(u.total, None);
    assert!(u.cores.is_empty());
    let u = c.get_cpu_usage(&parse_proc_stat(STAT2));
    assert_eq!(u.total, Some(TickDelta { total: 100, idle: 70 }));
}

#[test]
fn short_or_odd_lines_are_not_counters() {
    let s = parse_proc_stat("cpu 1 2 3\ncpu0 1 2 3 4 5 6 7 8\ncpu 1 2 3 4 5 6 7 8\ncpux 1 x 3 4 5 6 7 8\n");
    assert_eq!(s.total, None);
    assert_eq!(s.cores.len(), 2);
    assert_eq!(s.cores[0].user, 1);
    assert_eq!(s.cores[1].nice, 0);
    assert_eq!(s.cores[1].system, 3);
    let empty = parse_proc_stat("");
    assert_eq!(empty.total, None);
    assert!(empty.cores.is_empty());
}

#[test]
fn crlf_lines_are_read() {
    let s = parse_proc_stat("cpu 1 2 3 4 5 6 7 8\r\ncpu0 1 2 3 4 5 6 7 8\r\n");
    assert_eq!(s.total.unwrap().steal, 8);
    assert_eq!(s.cores.len(), 1);
}

#[test]
fn counters_that_overflow_are_refused() {
    let c = CpuCollector::new();
    let s = parse_proc_stat("cpu 18446744073709551615 1 0 0 0 0 0 0\n");
    assert!(!ticks_fit_exec(&s.total.unwrap()));
    assert!(!c.accepts(&s));
    let ok = parse_proc_stat("cpu 18446744073709551615 0 0 0 0 0 0 0\n");
    assert!(c.accepts(&ok));
}

#[test]
fn core_counters_checked_only_when_core_count_matches() {
    let mut c = CpuCollector::new();
    let big = parse_proc_stat("cpu 1 1 1 1 1 1 1 1\ncpu0 18446744073709551615 1 0 0 0 0 0 0\n");
    assert!(c.accepts(&big));
    c.get_cpu_usage(&big);
    assert!(!c.accepts(&parse_proc_stat("cpu 1 1 1 1 1 1 1 1\ncpu0 1 1 1 1 1 1 1 1\n")));
}

#[test]
fn cpu_mhz_fields_in_line_order() {
    let info = "processor\t: 0\ncpu MHz\t\t: 2400.000\nprocessor\t: 1\ncpu MHz\t\t:  1800.5 \ncpu MHz without colon\n";
    assert_eq!(cpu_mhz_fields(info), vec!["2400.000", "1800.5"]);
    assert_eq!(cpu_mhz_fields("cpu MHz: a: b\n"), vec!["a"]);
    assert!(cpu_mhz_fields("").is_empty());
}
