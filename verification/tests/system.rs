use lynx_monitor::collectors::system::get_running_services;

#[test]
fn one_service_per_line() {
    assert_eq!(get_running_services(""), 0);
    assert_eq!(get_running_services("a.service loaded active running A\n"), 1);
    assert_eq!(get_running_services("a\nb\n"), 2);
    assert_eq!(get_running_services("a\nb"), 2);
    assert_eq!(get_running_services("\n\n"), 2);
    for s in ["", "x", "x\n", "x\r\ny", "\n"] {
        assert_eq!(get_running_services(s), s.lines().count() as u32);
    }
}
