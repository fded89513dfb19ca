use lynx_monitor::utils::logger::{stamp_of, LogLevel, Logger, MAX_ENTRIES};

#[test]
fn entries_are_appended_with_their_level() {
    let mut l = Logger::new();
    assert!(l.entries.is_empty());
    l.info("main", "Starting");
    l.warn("cpu", "hot");
    l.error("disk", "full");
    assert_eq!(l.entries.len(), 3);
    assert_eq!(l.entries[0].module, "main");
    assert_eq!(l.entries[0].message, "Starting");
    assert_eq!(l.entries[0].severity, LogLevel::INFO);
    assert_eq!(l.entries[1].severity, LogLevel::WARN);
    assert_eq!(l.entries[2].severity, LogLevel::ERROR);
    assert_eq!(l.entries[2].module, "disk");
}

#[test]
fn timestamps_are_rfc3339_in_utc() {
    let mut l = Logger::new();
    l.log("m", LogLevel::INFO, "x");
    let ts = &l.entries[0].timestamp;
    assert!(ts.ends_with("+00:00"));
    assert!(ts.contains('T'));
    assert!(chrono::DateTime::parse_from_rfc3339(ts).is_ok());
}

#[test]
fn log_keeps_the_latest_thousand() {
    let mut l = Logger::new();
    for i in 0..(MAX_ENTRIES + 5) {
        l.info("m", &i.to_string());
        assert!(l.entries.len() <= MAX_ENTRIES);
    }
    assert_eq!(l.entries.len(), MAX_ENTRIES);
    assert_eq!(l.entries[0].message, "5");
    assert_eq!(l.entries[MAX_ENTRIES - 1].message, (MAX_ENTRIES + 4).to_string());
}

#[test]
fn level_names() {
    assert_eq!(LogLevel::INFO.as_str(), "INFO");
    assert_eq!(LogLevel::WARN.as_str(), "WARN");
    assert_eq!(LogLevel::ERROR.as_str(), "ERROR");
}

#[test]
fn every_entry_is_stamped_in_utc() {
    let mut l = Logger::new();
    l.info("a", "1");
    l.warn("b", "2");
    l.error("c", "3");
    assert!(l.entries.iter().all(|e| e.timestamp.ends_with("+00:00")));
}

#[test]
fn short_log_keeps_every_call_in_order() {
    let mut l = Logger::new();
    for i in 0..7 {
        l.info("m", &i.to_string());
    }
    let msgs: Vec<String> = l.entries.iter().map(|e| e.message.clone()).collect();
    assert_eq!(msgs, (0..7).map(|i| i.to_string()).collect::<Vec<_>>());
}

#[test]
fn timestamps_have_the_rfc3339_shape() {
    let mut l = Logger::new();
    l.warn("m", "x");
    let ts = &l.entries[0].timestamp;
    assert!(ts.chars().count() >= 25);
    assert_eq!(ts.chars().nth(10), Some('T'));
    let parsed = chrono::DateTime::parse_from_rfc3339(ts).unwrap();
    let now = chrono::Utc::now().timestamp();
    assert!((parsed.timestamp() - now).abs() < 60);
}

#[test]
fn stamp_of_clock_readings() {
    assert_eq!(stamp_of(Some((0, 0))), "1970-01-01T00:00:00+00:00");
    assert_eq!(stamp_of(Some((1431648000, 500_000_000))), "2015-05-15T00:00:00.500+00:00");
    assert_eq!(stamp_of(Some((1431648000, 1_000))), "2015-05-15T00:00:00.000001+00:00");
    assert_eq!(stamp_of(None), "");
    assert_eq!(stamp_of(Some((u64::MAX, 0))), "");
    assert_eq!(stamp_of(Some((i64::MAX as u64, 0))), "");
}
