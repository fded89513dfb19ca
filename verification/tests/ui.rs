use lynx_monitor::ui::engine::{
    byte_unit, fmt_uptime, mem_color, row_window, selected_info, table_order, ByteUnit, GaugeColor,
    InputResult, Key, ProcRow, SortMode, UiState,
};

fn row(pid: u32, mem: u64, cpu: f32, user: &str, command: &str) -> ProcRow {
    ProcRow { pid, memory_usage: mem, cpu_key: cpu.to_bits(), user: user.to_string(), command: command.to_string() }
}

fn rows() -> Vec<ProcRow> {
    vec![
        row(30, 100, 5.0, "root", "init"),
        row(10, 300, 50.0, "alice", "firefox"),
        row(20, 300, 5.0, "alice", "bash"),
        row(40, 200, 0.0, "bob", "vim"),
    ]
}

#[test]
fn sort_mode_labels_and_cycle() {
    assert_eq!(SortMode::Cpu.label(), "CPU");
    assert_eq!(SortMode::Mem.label(), "MEM");
    assert_eq!(SortMode::Pid.label(), "PID");
    assert_eq!(SortMode::Cpu.next(), SortMode::Mem);
    assert_eq!(SortMode::Mem.next(), SortMode::Pid);
    assert_eq!(SortMode::Pid.next(), SortMode::Cpu);
    for m in [SortMode::Cpu, SortMode::Mem, SortMode::Pid] {
        assert_eq!(m.next().next().next(), m);
    }
}

#[test]
fn sort_mode_from_command_line() {
    assert_eq!(UiState::new(true, "mem", String::new()).sort_mode(), SortMode::Mem);
    assert_eq!(UiState::new(true, "pid", String::new()).sort_mode(), SortMode::Pid);
    assert_eq!(UiState::new(true, "cpu", String::new()).sort_mode(), SortMode::Cpu);
    assert_eq!(UiState::new(true, "MEM", String::new()).sort_mode(), SortMode::Cpu);
    let s = UiState::new(false, "", String::new());
    assert!(!s.show_gpu());
    assert_eq!(s.selected(), 0);
    assert_eq!(s.scroll(), 0);
}

#[test]
fn table_orders_are_stable() {
    let r = rows();
    let none = String::new();
    assert_eq!(table_order(SortMode::Cpu, &none, &r), vec![1, 0, 2, 3]);
    assert_eq!(table_order(SortMode::Mem, &none, &r), vec![1, 2, 3, 0]);
    assert_eq!(table_order(SortMode::Pid, &none, &r), vec![1, 2, 0, 3]);
}

#[test]
fn filter_matches_user_or_command() {
    let r = rows();
    assert_eq!(table_order(SortMode::Pid, &"alice".to_string(), &r), vec![1, 2]);
    assert_eq!(table_order(SortMode::Pid, &"i".to_string(), &r), vec![1, 2, 0, 3]);
    assert_eq!(table_order(SortMode::Pid, &"vi".to_string(), &r), vec![3]);
    assert!(table_order(SortMode::Pid, &"zzz".to_string(), &r).is_empty());
    let s = UiState::new(true, "pid", "bash".to_string());
    assert_eq!(s.sorted_procs(&r), vec![2]);
}

#[test]
fn navigation_stays_in_the_table() {
    let r = rows();
    let mut s = UiState::new(true, "pid", String::new());
    assert_eq!(s.handle_input(&r, Some(Key::Up)), InputResult::Continue);
    assert_eq!(s.selected(), 0);
    s.handle_input(&r, Some(Key::Down));
    s.handle_input(&r, Some(Key::Char('j')));
    assert_eq!(s.selected(), 2);
    s.handle_input(&r, Some(Key::End));
    assert_eq!(s.selected(), 3);
    s.handle_input(&r, Some(Key::Down));
    assert_eq!(s.selected(), 3);
    s.handle_input(&r, Some(Key::Char('l')));
    assert_eq!(s.selected(), 2);
    s.handle_input(&r, Some(Key::Home));
    assert_eq!(s.selected(), 0);
    assert_eq!(s.scroll(), 0);
}

#[test]
fn paging_moves_by_a_page_then_by_one_after_drawing() {
    let r: Vec<ProcRow> = (0..50).map(|i| row(i, 0, 0.0, "u", "c")).collect();
    let mut s = UiState::new(true, "pid", String::new());
    s.handle_input(&r, Some(Key::PageDown));
    assert_eq!(s.selected(), 20);
    assert_eq!(s.scroll(), 1);
    s.handle_input(&r, Some(Key::PageDown));
    s.handle_input(&r, Some(Key::PageDown));
    assert_eq!(s.selected(), 49);
    assert_eq!(s.scroll(), 30);
    s.handle_input(&r, Some(Key::PageUp));
    assert_eq!(s.selected(), 29);
    assert_eq!(s.scroll(), 29);
    let order = s.prepare_draw(&r);
    assert_eq!(order.len(), 50);
    s.handle_input(&r, Some(Key::PageDown));
    assert_eq!(s.selected(), 30);
    assert_eq!(s.scroll(), 30);
    s.handle_input(&r, Some(Key::PageUp));
    assert_eq!(s.selected(), 29);
    assert_eq!(s.scroll(), 29);
}

#[test]
fn selection_follows_a_shrinking_table() {
    let mut r: Vec<ProcRow> = (0..10).map(|i| row(i, 0, 0.0, "u", "c")).collect();
    let mut s = UiState::new(true, "pid", String::new());
    s.handle_input(&r, Some(Key::End));
    assert_eq!(s.selected(), 9);
    r.truncate(3);
    assert_eq!(s.handle_input(&r, None), InputResult::Continue);
    assert_eq!(s.selected(), 2);
    assert_eq!(s.handle_input(&r, Some(Key::Char('K'))), InputResult::Kill(2));
}

#[test]
fn quit_kill_and_sort_keys() {
    let r = rows();
    let mut s = UiState::new(true, "cpu", String::new());
    assert_eq!(s.handle_input(&r, Some(Key::Char('q'))), InputResult::Quit);
    assert_eq!(s.handle_input(&r, Some(Key::Esc)), InputResult::Quit);
    assert_eq!(s.handle_input(&r, Some(Key::Char('K'))), InputResult::Kill(10));
    s.handle_input(&r, Some(Key::Down));
    assert_eq!(s.handle_input(&r, Some(Key::Char('K'))), InputResult::Kill(30));
    assert_eq!(s.handle_input(&r, Some(Key::Char('s'))), InputResult::Continue);
    assert_eq!(s.sort_mode(), SortMode::Mem);
    assert_eq!(s.selected(), 0);
    assert_eq!(s.handle_input(&r, Some(Key::Char('x'))), InputResult::Continue);
    assert_eq!(s.handle_input(&r, Some(Key::Other)), InputResult::Continue);
    assert_eq!(s.handle_input(&Vec::new(), Some(Key::Char('K'))), InputResult::Continue);
}

#[test]
fn drawing_helpers() {
    assert_eq!(row_window(0, 10, 24), (0, 10));
    assert_eq!(row_window(5, 100, 14), (5, 15));
    assert_eq!(row_window(5, 3, 14), (3, 3));
    assert_eq!(row_window(0, 10, 3), (0, 0));
    assert_eq!(selected_info(0, 4), " [1/4] ");
    assert_eq!(selected_info(5, 0), " [0/0] ");
    let s = UiState::new(true, "cpu", String::new());
    assert_eq!(s.filter_label(), "—");
    let s = UiState::new(true, "cpu", "fire".to_string());
    assert_eq!(s.filter_label(), "fire");
}

#[test]
fn uptime_text() {
    assert_eq!(fmt_uptime(0), "00:00:00");
    assert_eq!(fmt_uptime(59), "00:00:59");
    assert_eq!(fmt_uptime(3661), "01:01:01");
    assert_eq!(fmt_uptime(86399), "23:59:59");
    assert_eq!(fmt_uptime(86400), "1d 00:00:00");
    assert_eq!(fmt_uptime(90061), "1d 01:01:01");
    assert_eq!(fmt_uptime(1_000_000), "11d 13:46:40");
}

#[test]
fn byte_units_and_gauge_colors() {
    assert_eq!(byte_unit(1023), ByteUnit::B);
    assert_eq!(byte_unit(1024), ByteUnit::KB);
    assert_eq!(byte_unit(1024 * 1024 - 1), ByteUnit::KB);
    assert_eq!(byte_unit(1024 * 1024), ByteUnit::MB);
    assert_eq!(byte_unit(1024 * 1024 * 1024), ByteUnit::GB);
    assert_eq!(mem_color(59), GaugeColor::Cyan);
    assert_eq!(mem_color(60), GaugeColor::Yellow);
    assert_eq!(mem_color(84), GaugeColor::Yellow);
    assert_eq!(mem_color(85), GaugeColor::Red);
}

#[test]
fn selection_past_the_end_clamps_to_the_last_page() {
    let r: Vec<ProcRow> = (0..30).map(|i| row(i, 0, 0.0, "u", "c")).collect();
    let mut s = UiState::new(true, "pid", String::new());
    s.handle_input(&r, Some(Key::End));
    assert_eq!(s.selected(), 29);
    assert_eq!(s.scroll(), 10);
    s.handle_input(&r, Some(Key::End));
    assert_eq!(s.scroll(), 10);
}
