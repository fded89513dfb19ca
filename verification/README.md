# lynx_monitor

A terminal system monitor for Linux. The library (`src/`) is written in
Verus: it turns the text of the kernel's `/proc` files into counters, rates
and per-process records, and drives the process table's sorting, filtering
and keyboard navigation. Every function there carries a contract that Verus
proves, but for the clock in `src/utils/logger.rs`: `system_now` and
`since_unix_epoch` read the time through `std::time`, and `rfc3339_at`
writes it through `chrono`; Verus takes their contracts as given. The program (`app/`) reads the files, draws the dashboard with
ratatui and reads keys with crossterm.

- `src/text.rs`: characters, lines, white-space tokens, fields, trimming and
  integer parsing, each tied to a specification of the `str` operation.
- `src/collectors/`: `/proc/stat`, `/proc/cpuinfo`, `/proc/meminfo`,
  `/proc/diskstats`, `/proc/net/dev` and `systemctl` output.
- `src/process/manager.rs`: `/proc/<pid>/stat`, `/proc/<pid>/status` and
  `/etc/passwd`; CPU time between two listings.
- `src/ui/engine.rs`: the table's order, the key handling and the formats of
  the dashboard.
- `src/utils/logger.rs`: an in-memory log of bounded length.

Where a reading would make an integer leave its range, the library's
functions do not accept it; each such function has a companion (`accepts`,
`meminfo_ok`, `disk_ok`, `net_dev_ok`, `stat_ok`) that tells beforehand.
