//! Per-process records from `/proc/<pid>/stat` and `/proc/<pid>/status`,
//! with CPU time measured between two listings.

use crate::collectors::cpu::sat_sub;
use crate::text::{
    chars_of, decimal, decimal_string, i32_or_zero, i32_or_zero_range, line_ranges,
    parse_u32_range, parse_unsigned, pick, range_starts_with, range_string, ranges_within,
    split_lines, split_on, split_ranges, split_ws, starts_with, u32_or_zero, u32_or_zero_range,
    u64_or_zero, u64_or_zero_range, ws_tokens,
};
use std::collections::HashMap;
use vstd::prelude::*;

verus! {

broadcast use vstd::std_specs::hash::group_hash_axioms;

/// The index of the first `c` in `s`.
pub open spec fn first_index_of(s: Seq<char>, c: char) -> Option<int>
    decreases s.len(),
{
    if s.len() == 0 {
        None
    } else if s[0] == c {
        Some(0)
    } else {
        match first_index_of(s.drop_first(), c) {
            Some(i) => Some(i + 1),
            None => None,
        }
    }
}

/// The index of the last `c` in `s`.
pub open spec fn last_index_of(s: Seq<char>, c: char) -> Option<int>
    decreases s.len(),
{
    if s.len() == 0 {
        None
    } else if s.last() == c {
        Some(s.len() - 1)
    } else {
        last_index_of(s.drop_last(), c)
    }
}

fn find_first(cs: &Vec<char>, c: char) -> (r: Option<usize>)
    ensures
        match r {
            Some(i) => i < cs.len() && first_index_of(cs@, c) == Some(i as int),
            None => first_index_of(cs@, c) is None,
        },
{
    let n = cs.len();
    let mut i: usize = 0;
    assert(cs@.subrange(0, n as int) =~= cs@);
    while i < n
        invariant
            n == cs.len(),
            i <= n,
            first_index_of(cs@, c) == match first_index_of(cs@.subrange(i as int, n as int), c) {
                Some(k) => Some(k + i),
                None => None,
            },
        decreases n - i,
    {
        assert(cs@.subrange(i as int, n as int).drop_first() =~= cs@.subrange(i + 1, n as int));
        if cs[i] == c {
            return Some(i);
        }
        i = i + 1;
    }
    None
}

fn find_last(cs: &Vec<char>, c: char) -> (r: Option<usize>)
    ensures
        match r {
            Some(i) => i < cs.len() && last_index_of(cs@, c) == Some(i as int),
            None => last_index_of(cs@, c) is None,
        },
{
    let mut j: usize = cs.len();
    assert(cs@.subrange(0, j as int) =~= cs@);
    while j > 0
        invariant
            j <= cs.len(),
            last_index_of(cs@, c) == last_index_of(cs@.subrange(0, j as int), c),
        decreases j,
    {
        assert(cs@.subrange(0, j as int).drop_last() =~= cs@.subrange(0, j - 1));
        if cs[j - 1] == c {
            return Some(j - 1);
        }
        j = j - 1;
    }
    None
}

/// The positions of the first `(` and the last `)` of a `stat` line, where
/// both occur and the `)` comes after the `(`.
pub open spec fn stat_parens(s: Seq<char>) -> Option<(int, int)> {
    match (first_index_of(s, '('), last_index_of(s, ')')) {
        (Some(a), Some(b)) => if b > a {
            Some((a, b))
        } else {
            None
        },
        _ => None,
    }
}

/// The fields after the command of a `stat` line can be cut out: the `)`
/// is followed by a one-byte character, so that the text two bytes after
/// it starts on a character boundary.
pub open spec fn stat_cut_ok(s: Seq<char>) -> bool {
    stat_parens(s) matches Some((a, b)) ==> b + 1 < s.len() && (s[b + 1] as u32) < 0x80
}

/// What a `stat` line says of a process.
pub struct StatRecord {
    pub command: Seq<char>,
    pub state: char,
    pub ppid: u32,
    pub utime: u64,
    pub stime: u64,
    pub priority: i32,
    pub nice: i32,
    pub threads: u32,
    pub rss: u64,
}

/// The record of a `stat` line: the command between the first `(` and the
/// last `)`, then fields counted from two characters after the `)`, of
/// which there must be at least 39.
pub open spec fn stat_record(s: Seq<char>) -> Option<StatRecord> {
    match stat_parens(s) {
        None => None,
        Some((a, b)) => {
            let t = split_ws(s.subrange(b + 2, s.len() as int));
            if b + 2 > s.len() || t.len() < 39 {
                None
            } else {
                Some(
                    StatRecord {
                        command: s.subrange(a + 1, b),
                        state: if t[0].len() > 0 {
                            t[0][0]
                        } else {
                            '?'
                        },
                        ppid: u32_or_zero(t[1]),
                        utime: u64_or_zero(t[11]),
                        stime: u64_or_zero(t[12]),
                        priority: i32_or_zero(t[15]),
                        nice: i32_or_zero(t[16]),
                        threads: u32_or_zero(t[17]),
                        rss: u64_or_zero(t[21]),
                    },
                )
            }
        },
    }
}

/// Size of a memory page, in bytes.
pub const PAGE_SIZE: u64 = 4096;

/// A `stat` line can be read without slicing off a character boundary and
/// without the resident size in bytes or the CPU time leaving `u64`.
pub open spec fn stat_in_range(s: Seq<char>) -> bool {
    &&& stat_cut_ok(s)
    &&& (stat_record(s) matches Some(r) ==> r.rss * PAGE_SIZE <= u64::MAX && r.utime + r.stime
        <= u64::MAX)
}

/// Whether a `stat` line can be read without a panic of the slice or of
/// the arithmetic.
pub fn stat_ok(stat: &str) -> (b: bool)
    ensures
        b == stat_in_range(stat@),
{
    let cs = chars_of(stat);
    let a = match find_first(&cs, '(') {
        Some(a) => a,
        None => return true,
    };
    let b = match find_last(&cs, ')') {
        Some(b) => b,
        None => return true,
    };
    if b <= a {
        return true;
    }
    if b + 1 >= cs.len() || (cs[b + 1] as u32) >= 0x80 {
        return false;
    }
    let t = ws_tokens(&cs, b + 2, cs.len());
    if t.len() < 39 {
        return true;
    }
    let utime = u64_or_zero_range(&cs, t[11].0, t[11].1);
    let stime = u64_or_zero_range(&cs, t[12].0, t[12].1);
    let rss = u64_or_zero_range(&cs, t[21].0, t[21].1);
    rss <= u64::MAX / PAGE_SIZE && utime <= u64::MAX - stime
}

/// The first line among `lines` that starts with `Uid:`.
pub open spec fn uid_line(lines: Seq<Seq<char>>) -> Option<Seq<char>>
    decreases lines.len(),
{
    if lines.len() == 0 {
        None
    } else {
        match uid_line(lines.drop_last()) {
            Some(l) => Some(l),
            None => if starts_with(lines.last(), "Uid:"@) {
                Some(lines.last())
            } else {
                None
            },
        }
    }
}

/// The real user id of a `status` text: the second field of its first
/// `Uid:` line, where that reads as a `u32`.
pub open spec fn status_uid(status: Seq<char>) -> Option<u32> {
    match uid_line(split_lines(status)) {
        None => None,
        Some(l) => {
            let t = split_ws(l);
            if t.len() >= 2 {
                match parse_unsigned(t[1], u32::MAX as nat) {
                    Some(v) => Some(v as u32),
                    None => None,
                }
            } else {
                None
            }
        },
    }
}

/// The name of the first line among `lines` of `/etc/passwd` whose third
/// `:`-separated field reads as `uid`.
pub open spec fn passwd_entry(lines: Seq<Seq<char>>, uid: u32) -> Option<Seq<char>>
    decreases lines.len(),
{
    if lines.len() == 0 {
        None
    } else {
        match passwd_entry(lines.drop_last(), uid) {
            Some(n) => Some(n),
            None => {
                let f = split_on(lines.last(), ':');
                if f.len() >= 3 && parse_unsigned(f[2], u32::MAX as nat) == Some(uid as nat) {
                    Some(f[0])
                } else {
                    None
                }
            },
        }
    }
}

/// The user name of `uid` in `/etc/passwd`, or the number itself where no
/// line names it.
pub open spec fn user_name(uid: u32, passwd: Seq<char>) -> Seq<char> {
    match passwd_entry(split_lines(passwd), uid) {
        Some(n) => n,
        None => decimal(uid as nat),
    }
}

/// The owner of a process: the name of the user id in its `status` text,
/// or `unknown` where the text or the id is missing.
pub open spec fn process_user(status: Option<Seq<char>>, passwd: Seq<char>) -> Seq<char> {
    match status {
        Some(st) => match status_uid(st) {
            Some(u) => user_name(u, passwd),
            None => "unknown"@,
        },
        None => "unknown"@,
    }
}

proof fn lemma_uid_line_prefix(lines: Seq<Seq<char>>, k: int)
    requires
        0 <= k <= lines.len(),
        uid_line(lines.take(k)) is Some,
    ensures
        uid_line(lines) == uid_line(lines.take(k)),
    decreases lines.len(),
{
    if k < lines.len() {
        assert(lines.drop_last().take(k) =~= lines.take(k));
        lemma_uid_line_prefix(lines.drop_last(), k);
    } else {
        assert(lines.take(k) =~= lines);
    }
}

proof fn lemma_passwd_entry_prefix(lines: Seq<Seq<char>>, k: int, uid: u32)
    requires
        0 <= k <= lines.len(),
        passwd_entry(lines.take(k), uid) is Some,
    ensures
        passwd_entry(lines, uid) == passwd_entry(lines.take(k), uid),
    decreases lines.len(),
{
    if k < lines.len() {
        assert(lines.drop_last().take(k) =~= lines.take(k));
        lemma_passwd_entry_prefix(lines.drop_last(), k, uid);
    } else {
        assert(lines.take(k) =~= lines);
    }
}

/// The real user id that a `status` text gives.
pub fn find_uid(status: &str) -> (r: Option<u32>)
    ensures
        r == status_uid(status@),
{
    let cs = chars_of(status);
    let lines = line_ranges(&cs);
    let key = chars_of("Uid:");
    let ghost ls = pick(cs@, lines@);
    let mut i: usize = 0;
    while i < lines.len()
        invariant
            i <= lines.len(),
            key@ == "Uid:"@,
            ls == pick(cs@, lines@),
            ls == split_lines(status@),
            ranges_within(lines@, 0, cs.len() as int),
            uid_line(ls.take(i as int)) is None,
        decreases lines.len() - i,
    {
        let (a, b) = lines[i];
        assert(ls.take(i + 1).drop_last() =~= ls.take(i as int));
        assert(ls.take(i + 1).last() == cs@.subrange(a as int, b as int));
        if range_starts_with(&cs, a, b, &key) {
            proof {
                lemma_uid_line_prefix(ls, i + 1);
            }
            let t = ws_tokens(&cs, a, b);
            if t.len() >= 2 {
                return parse_u32_range(&cs, t[1].0, t[1].1);
            }
            return None;
        }
        i = i + 1;
    }
    assert(ls.take(lines.len() as int) =~= ls);
    None
}

/// The user name of `uid` in the text of `/etc/passwd`, or the number
/// itself where no line names it.
pub fn get_username(uid: u32, passwd: &str) -> (name: String)
    ensures
        name@ == user_name(uid, passwd@),
{
    let cs = chars_of(passwd);
    let lines = line_ranges(&cs);
    let ghost ls = pick(cs@, lines@);
    let mut i: usize = 0;
    while i < lines.len()
        invariant
            i <= lines.len(),
            cs@ == passwd@,
            ls == pick(cs@, lines@),
            ls == split_lines(passwd@),
            ranges_within(lines@, 0, cs.len() as int),
            passwd_entry(ls.take(i as int), uid) is None,
        decreases lines.len() - i,
    {
        let (a, b) = lines[i];
        assert(ls.take(i + 1).drop_last() =~= ls.take(i as int));
        assert(ls.take(i + 1).last() == cs@.subrange(a as int, b as int));
        let f = split_ranges(&cs, a, b, ':');
        if f.len() >= 3 {
            if let Some(id) = parse_u32_range(&cs, f[2].0, f[2].1) {
                if id == uid {
                    proof {
                        lemma_passwd_entry_prefix(ls, i + 1, uid);
                    }
                    return range_string(passwd, &cs, f[0].0, f[0].1);
                }
            }
        }
        i = i + 1;
    }
    assert(ls.take(lines.len() as int) =~= ls);
    decimal_string(uid as u64)
}

/// The view of an optional text.
pub open spec fn opt_view(s: Option<&str>) -> Option<Seq<char>> {
    match s {
        Some(t) => Some(t@),
        None => None,
    }
}

/// The owner of a process, from its `status` text and `/etc/passwd`.
pub fn user_of(status: Option<&str>, passwd: &str) -> (user: String)
    ensures
        user@ == process_user(opt_view(status), passwd@),
{
    let found = match status {
        Some(st) => find_uid(st),
        None => None,
    };
    match found {
        Some(uid) => get_username(uid, passwd),
        None => {
            proof {
                reveal_strlit("unknown");
            }
            let u = String::from_str("unknown");
            u
        },
    }
}


/// CPU time a process used between two listings, and the time that passed,
/// both in clock ticks. Its share of one CPU is `busy / elapsed`.
#[derive(Clone, Copy, Debug, PartialEq, Eq, Structural)]
pub struct CpuTime {
    pub busy: u64,
    pub elapsed: u64,
}

/// One process of the table.
#[derive(Clone, Debug)]
pub struct ProcessInfo {
    pub pid: u32,
    pub ppid: u32,
    pub user: String,
    /// CPU time since the previous listing; `None` for a process seen for
    /// the first time.
    pub cpu: Option<CpuTime>,
    /// Resident memory, in bytes.
    pub memory_usage: u64,
    pub command: String,
    pub threads: u32,
    pub nice: i32,
    pub priority: i32,
    pub state: char,
}

/// What a process record says.
pub struct ProcView {
    pub pid: u32,
    pub ppid: u32,
    pub user: Seq<char>,
    pub cpu: Option<CpuTime>,
    pub memory_usage: u64,
    pub command: Seq<char>,
    pub threads: u32,
    pub nice: i32,
    pub priority: i32,
    pub state: char,
}

impl View for ProcessInfo {
    type V = ProcView;

    open spec fn view(&self) -> ProcView {
        ProcView {
            pid: self.pid,
            ppid: self.ppid,
            user: self.user@,
            cpu: self.cpu,
            memory_usage: self.memory_usage,
            command: self.command@,
            threads: self.threads,
            nice: self.nice,
            priority: self.priority,
            state: self.state,
        }
    }
}

/// The CPU time of the process `pid`, given what the previous listing
/// remembered of it: its CPU time and the system's uptime then.
pub open spec fn cpu_since(last: Map<u32, (u64, u64)>, pid: u32, busy: u64, uptime: u64) -> Option<
    CpuTime,
> {
    if last.contains_key(pid) {
        Some(CpuTime { busy: sat_sub(busy as int, last[pid].0 as int), elapsed: sat_sub(uptime as int, last[pid].1 as int) })
    } else {
        None
    }
}

/// The record of process `pid` made from its `stat` and `status` texts.
pub open spec fn process_view(
    pid: u32,
    uptime: u64,
    last: Map<u32, (u64, u64)>,
    stat: Seq<char>,
    status: Option<Seq<char>>,
    passwd: Seq<char>,
) -> Option<ProcView> {
    match stat_record(stat) {
        None => None,
        Some(r) => Some(
            ProcView {
                pid,
                ppid: r.ppid,
                user: process_user(status, passwd),
                cpu: cpu_since(last, pid, (r.utime + r.stime) as u64, uptime),
                memory_usage: (r.rss * PAGE_SIZE) as u64,
                command: r.command,
                threads: r.threads,
                nice: r.nice,
                priority: r.priority,
                state: r.state,
            },
        ),
    }
}

/// What is remembered of process `pid` after a listing that read `stat`:
/// its CPU time and the uptime, where the text is a `stat` line.
pub open spec fn remember(last: Map<u32, (u64, u64)>, pid: u32, uptime: u64, stat: Seq<char>) -> Map<
    u32,
    (u64, u64),
> {
    match stat_record(stat) {
        None => last,
        Some(r) => last.insert(pid, ((r.utime + r.stime) as u64, uptime)),
    }
}

/// Keeps the CPU time of each listed process to measure its usage at the
/// next listing.
pub struct ProcessManager {
    last_cpu_usage: HashMap<u32, (u64, u64)>,
    ticks_per_sec: u64,
}

impl ProcessManager {
    /// For each process of the previous listing: its CPU time and the
    /// system's uptime then, in clock ticks.
    pub closed spec fn remembered(&self) -> Map<u32, (u64, u64)> {
        self.last_cpu_usage@
    }

    /// Clock ticks per second.
    pub closed spec fn spec_ticks_per_sec(&self) -> u64 {
        self.ticks_per_sec
    }

    /// A manager that remembers no process, counting `clk_tck` clock ticks
    /// per second as `sysconf(_SC_CLK_TCK)` reported it (as `u64`), or 100
    /// where that is zero.
    pub fn new(clk_tck: i64) -> (m: Self)
        ensures
            m.remembered() == Map::<u32, (u64, u64)>::empty(),
            m.spec_ticks_per_sec() == if clk_tck as u64 > 0 {
                clk_tck as u64
            } else {
                100
            },
    {
        let t = clk_tck as u64;
        ProcessManager { last_cpu_usage: HashMap::new(), ticks_per_sec: if t > 0 {
            t
        } else {
            100
        } }
    }

    /// Clock ticks per second.
    pub fn ticks_per_sec(&self) -> (t: u64)
        ensures
            t == self.spec_ticks_per_sec(),
    {
        self.ticks_per_sec
    }

    /// The record of process `pid` from its `stat` text, its `status` text
    /// where it could be read, and `/etc/passwd`; `uptime` is the system's
    /// uptime in clock ticks. The process's CPU time is remembered for the
    /// next listing.
    pub fn parse_process(
        &mut self,
        pid: u32,
        uptime: u64,
        stat: &str,
        status: Option<&str>,
        passwd: &str,
    ) -> (r: Option<ProcessInfo>)
        requires
            stat_in_range(stat@),
        ensures
            match r {
                Some(p) => process_view(
                    pid,
                    uptime,
                    old(self).remembered(),
                    stat@,
                    opt_view(status),
                    passwd@,
                ) == Some(p@),
                None => process_view(
                    pid,
                    uptime,
                    old(self).remembered(),
                    stat@,
                    opt_view(status),
                    passwd@,
                ) is None,
            },
            final(self).remembered() == remember(old(self).remembered(), pid, uptime, stat@),
            final(self).spec_ticks_per_sec() == old(self).spec_ticks_per_sec(),
    {
        let cs = chars_of(stat);
        let a = match find_first(&cs, '(') {
            Some(a) => a,
            None => return None,
        };
        let b = match find_last(&cs, ')') {
            Some(b) => b,
            None => return None,
        };
        if b <= a {
            return None;
        }
        let t = ws_tokens(&cs, b + 2, cs.len());
        if t.len() < 39 {
            return None;
        }
        let command = range_string(stat, &cs, a + 1, b);
        let state = if t[0].0 < t[0].1 {
            cs[t[0].0]
        } else {
            '?'
        };
        assert(cs@.subrange(t[0].0 as int, t[0].1 as int).len() > 0 ==> cs@.subrange(
            t[0].0 as int,
            t[0].1 as int,
        )[0] == cs@[t[0].0 as int]);
        let ppid = u32_or_zero_range(&cs, t[1].0, t[1].1);
        let utime = u64_or_zero_range(&cs, t[11].0, t[11].1);
        let stime = u64_or_zero_range(&cs, t[12].0, t[12].1);
        let priority = i32_or_zero_range(&cs, t[15].0, t[15].1);
        let nice = i32_or_zero_range(&cs, t[16].0, t[16].1);
        let threads = u32_or_zero_range(&cs, t[17].0, t[17].1);
        let rss = u64_or_zero_range(&cs, t[21].0, t[21].1);
        let memory_usage = rss * PAGE_SIZE;
        let process_time = utime + stime;
        let cpu = match self.last_cpu_usage.get(&pid) {
            Some(prev) => Some(
                CpuTime {
                    busy: process_time.saturating_sub(prev.0),
                    elapsed: uptime.saturating_sub(prev.1),
                },
            ),
            None => None,
        };
        self.last_cpu_usage.insert(pid, (process_time, uptime));
        let user = user_of(status, passwd);
        Some(
            ProcessInfo {
                pid,
                ppid,
                user,
                cpu,
                memory_usage,
                command,
                threads,
                nice,
                priority,
                state,
            },
        )
    }

    /// Lists the processes of `entries` in their order, each with the
    /// texts read for it (`stat` missing where it could not be read);
    /// `uptime` is the system's uptime in clock ticks. Afterwards exactly
    /// the listed processes are remembered.
    pub fn get_process_list(&mut self, uptime: u64, entries: &Vec<ProcEntry>, passwd: &str) -> (r:
        Vec<ProcessInfo>)
        requires
            entries_in_range(entries@),
        ensures
            r@.map_values(|p: ProcessInfo| p@) == listing(
                entries@,
                uptime,
                passwd@,
                old(self).remembered(),
            ).0,
            final(self).remembered() == listing(
                entries@,
                uptime,
                passwd@,
                old(self).remembered(),
            ).1.restrict(listed_pids(r@.map_values(|p: ProcessInfo| p@))),
            final(self).spec_ticks_per_sec() == old(self).spec_ticks_per_sec(),
    {
        let ghost m0 = self.last_cpu_usage@;
        let mut processes: Vec<ProcessInfo> = Vec::new();
        let mut i: usize = 0;
        while i < entries.len()
            invariant
                i <= entries.len(),
                entries_in_range(entries@),
                self.ticks_per_sec == old(self).ticks_per_sec,
                (processes@.map_values(|p: ProcessInfo| p@), self.last_cpu_usage@) == listing(
                    entries@.take(i as int),
                    uptime,
                    passwd@,
                    m0,
                ),
            decreases entries.len() - i,
        {
            let e = &entries[i];
            assert(entries@.take(i + 1).drop_last() =~= entries@.take(i as int));
            assert(entries@.take(i + 1).last() == *e);
            if let Some(st) = &e.stat {
                assert(stat_in_range(st@));
                let status = match &e.status {
                    Some(t) => Some(t.as_str()),
                    None => None,
                };
                assert(opt_view(status) == string_opt_view(e.status));
                let ghost before = processes@;
                if let Some(info) = self.parse_process(e.pid, uptime, st.as_str(), status, passwd) {
                    processes.push(info);
                    assert(processes@.map_values(|p: ProcessInfo| p@) =~= before.map_values(
                        |p: ProcessInfo| p@,
                    ).push(info@));
                }
            }
            i = i + 1;
        }
        assert(entries@.take(entries.len() as int) =~= entries@);
        let ghost m1 = self.last_cpu_usage@;
        let ghost views = processes@.map_values(|p: ProcessInfo| p@);
        let mut kept: HashMap<u32, (u64, u64)> = HashMap::new();
        let mut j: usize = 0;
        while j < processes.len()
            invariant
                j <= processes.len(),
                views == processes@.map_values(|p: ProcessInfo| p@),
                m1 == self.last_cpu_usage@,
                kept@ == m1.restrict(listed_pids(views.take(j as int))),
            decreases processes.len() - j,
        {
            let pid = processes[j].pid;
            assert(views[j as int].pid == pid);
            if let Some(v) = self.last_cpu_usage.get(&pid) {
                kept.insert(pid, *v);
            }
            assert(kept@ =~= m1.restrict(listed_pids(views.take(j + 1)))) by {
                assert forall|p: u32| #[trigger]
                    listed_pids(views.take(j + 1)).contains(p) <==> (listed_pids(
                        views.take(j as int),
                    ).contains(p) || p == pid) by {
                    if listed_pids(views.take(j + 1)).contains(p) {
                        let k = choose|k: int|
                            0 <= k < views.take(j + 1).len() && (#[trigger] views.take(j + 1)[k]).pid == p;
                        if k < j {
                            assert(views.take(j as int)[k].pid == p);
                        }
                    }
                    if p == pid {
                        assert(views.take(j + 1)[j as int].pid == p);
                    }
                    if listed_pids(views.take(j as int)).contains(p) {
                        let k = choose|k: int|
                            0 <= k < views.take(j as int).len() && (#[trigger] views.take(j as int)[k]).pid == p;
                        assert(views.take(j + 1)[k].pid == p);
                    }
                }
            }
            j = j + 1;
        }
        assert(views.take(processes.len() as int) =~= views);
        self.last_cpu_usage = kept;
        processes
    }

}


/// The pid of a process and the texts read for it: its `stat` file, where
/// it could be read, and its `status` file, where it could be read.
#[derive(Clone, Debug)]
pub struct ProcEntry {
    pub pid: u32,
    pub stat: Option<String>,
    pub status: Option<String>,
}

/// The view of an optional owned text.
pub open spec fn string_opt_view(s: Option<String>) -> Option<Seq<char>> {
    match s {
        Some(t) => Some(t@),
        None => None,
    }
}

/// Every `stat` text read can be read without a panic.
pub open spec fn entries_in_range(entries: Seq<ProcEntry>) -> bool {
    forall|i: int|
        0 <= i < entries.len() ==> ((#[trigger] entries[i]).stat matches Some(st) ==> stat_in_range(
            st@,
        ))
}

/// The records of a listing of `entries`, in order, and what is remembered
/// after reading them: entries whose `stat` text is missing or not a `stat`
/// line are left out.
pub open spec fn listing(
    entries: Seq<ProcEntry>,
    uptime: u64,
    passwd: Seq<char>,
    last: Map<u32, (u64, u64)>,
) -> (Seq<ProcView>, Map<u32, (u64, u64)>)
    decreases entries.len(),
{
    if entries.len() == 0 {
        (seq![], last)
    } else {
        let prev = listing(entries.drop_last(), uptime, passwd, last);
        let e = entries.last();
        match e.stat {
            None => prev,
            Some(st) => match process_view(
                e.pid,
                uptime,
                prev.1,
                st@,
                string_opt_view(e.status),
                passwd,
            ) {
                Some(v) => (prev.0.push(v), remember(prev.1, e.pid, uptime, st@)),
                None => prev,
            },
        }
    }
}

/// The pids of a list of records.
pub open spec fn listed_pids(procs: Seq<ProcView>) -> Set<u32> {
    Set::new(|p: u32| exists|i: int| 0 <= i < procs.len() && procs[i].pid == p)
}

proof fn lemma_listing_remembers(
    entries: Seq<ProcEntry>,
    uptime: u64,
    passwd: Seq<char>,
    last: Map<u32, (u64, u64)>,
)
    ensures
        forall|p: u32|
            #[trigger] listed_pids(listing(entries, uptime, passwd, last).0).contains(p)
                ==> listing(entries, uptime, passwd, last).1.contains_key(p),
    decreases entries.len(),
{
    if entries.len() > 0 {
        let prev = listing(entries.drop_last(), uptime, passwd, last);
        lemma_listing_remembers(entries.drop_last(), uptime, passwd, last);
        let cur = listing(entries, uptime, passwd, last);
        assert forall|p: u32| #[trigger] listed_pids(cur.0).contains(p) implies cur.1.contains_key(
            p,
        ) by {
            let k = choose|k: int| 0 <= k < cur.0.len() && (#[trigger] cur.0[k]).pid == p;
            if k < prev.0.len() && cur.0[k] == prev.0[k] {
                assert(listed_pids(prev.0).contains(p));
            }
        }
    }
}

/// The CPU time of the last entry for `pid` among `entries` whose `stat`
/// text is a `stat` line.
pub open spec fn last_busy(entries: Seq<ProcEntry>, pid: u32) -> Option<u64>
    decreases entries.len(),
{
    if entries.len() == 0 {
        None
    } else {
        let e = entries.last();
        match e.stat {
            Some(st) => match stat_record(st@) {
                Some(r) => if e.pid == pid {
                    Some((r.utime + r.stime) as u64)
                } else {
                    last_busy(entries.drop_last(), pid)
                },
                None => last_busy(entries.drop_last(), pid),
            },
            None => last_busy(entries.drop_last(), pid),
        }
    }
}

proof fn lemma_listing_values(
    entries: Seq<ProcEntry>,
    uptime: u64,
    passwd: Seq<char>,
    last: Map<u32, (u64, u64)>,
)
    ensures
        forall|p: u32|
            #[trigger] listed_pids(listing(entries, uptime, passwd, last).0).contains(p)
                <==> last_busy(entries, p) is Some,
        forall|p: u32|
            #[trigger] last_busy(entries, p) is Some ==> listing(
                entries,
                uptime,
                passwd,
                last,
            ).1.contains_key(p) && listing(entries, uptime, passwd, last).1[p] == (
                last_busy(entries, p)->0,
                uptime,
            ),
    decreases entries.len(),
{
    if entries.len() > 0 {
        let pre = entries.drop_last();
        let prev = listing(pre, uptime, passwd, last);
        lemma_listing_values(pre, uptime, passwd, last);
        let cur = listing(entries, uptime, passwd, last);
        let e = entries.last();
        assert forall|p: u32|
            #[trigger] listed_pids(cur.0).contains(p) <==> last_busy(entries, p) is Some by {
            if listed_pids(cur.0).contains(p) {
                let k = choose|k: int| 0 <= k < cur.0.len() && (#[trigger] cur.0[k]).pid == p;
                if k < prev.0.len() && cur.0[k] == prev.0[k] {
                    assert(listed_pids(prev.0).contains(p));
                }
            }
            if last_busy(entries, p) is Some {
                if last_busy(pre, p) is Some && !(cur.0.len() == prev.0.len() + 1 && e.pid == p) {
                    assert(listed_pids(prev.0).contains(p));
                    let k = choose|k: int| 0 <= k < prev.0.len() && (#[trigger] prev.0[k]).pid == p;
                    assert(cur.0[k] == prev.0[k]);
                } else {
                    assert(cur.0[cur.0.len() - 1].pid == p);
                }
            }
        }
        assert forall|p: u32| #[trigger] last_busy(entries, p) is Some implies cur.1.contains_key(p)
            && cur.1[p] == (last_busy(entries, p)->0, uptime) by {
            match e.stat {
                Some(st) => match stat_record(st@) {
                    Some(r) => {
                        assert(cur.1 == prev.1.insert(e.pid, ((r.utime + r.stime) as u64, uptime)));
                        if p != e.pid {
                            assert(last_busy(entries, p) == last_busy(pre, p));
                            assert(last_busy(pre, p) is Some);
                        }
                    },
                    None => {
                        assert(cur == prev);
                        assert(last_busy(entries, p) == last_busy(pre, p));
                        assert(last_busy(pre, p) is Some);
                    },
                },
                None => {
                    assert(cur == prev);
                    assert(last_busy(entries, p) == last_busy(pre, p));
                    assert(last_busy(pre, p) is Some);
                },
            }
        }
    }
}

/// After a listing, the manager remembers exactly the processes it listed,
/// and for each the CPU time its last `stat` text of the listing gave,
/// with the uptime of the listing.
pub proof fn lemma_remembers_exactly_listed(
    entries: Seq<ProcEntry>,
    uptime: u64,
    passwd: Seq<char>,
    last: Map<u32, (u64, u64)>,
)
    ensures
        ({
            let l = listing(entries, uptime, passwd, last);
            let kept = l.1.restrict(listed_pids(l.0));
            &&& kept.dom() == listed_pids(l.0)
            &&& forall|p: u32| #[trigger]
                kept.contains_key(p) ==> last_busy(entries, p) is Some && kept[p] == (
                    last_busy(entries, p)->0,
                    uptime,
                )
        }),
{
    lemma_listing_remembers(entries, uptime, passwd, last);
    lemma_listing_values(entries, uptime, passwd, last);
    let l = listing(entries, uptime, passwd, last);
    assert(l.1.restrict(listed_pids(l.0)).dom() =~= listed_pids(l.0));
}


proof fn lemma_last_busy_entry(entries: Seq<ProcEntry>, p: u32)
    requires
        last_busy(entries, p) is Some,
    ensures
        exists|k: int| 0 <= k < entries.len() && (#[trigger] entries[k]).pid == p,
    decreases entries.len(),
{
    let e = entries.last();
    let found = match e.stat {
        Some(st) => stat_record(st@) is Some && e.pid == p,
        None => false,
    };
    if found {
        assert(entries[entries.len() - 1].pid == p);
    } else {
        lemma_last_busy_entry(entries.drop_last(), p);
        let k = choose|k: int|
            0 <= k < entries.drop_last().len() && (#[trigger] entries.drop_last()[k]).pid == p;
        assert(entries[k].pid == p);
    }
}

/// Where the entries name distinct pids, so do the records of the listing.
pub proof fn lemma_listed_pids_distinct(
    entries: Seq<ProcEntry>,
    uptime: u64,
    passwd: Seq<char>,
    last: Map<u32, (u64, u64)>,
)
    requires
        forall|i: int, j: int|
            0 <= i < j < entries.len() ==> (#[trigger] entries[i]).pid != (#[trigger] entries[j]).pid,
    ensures
        ({
            let l = listing(entries, uptime, passwd, last).0;
            forall|i: int, j: int| 0 <= i < j < l.len() ==> (#[trigger] l[i]).pid != (#[trigger] l[j]).pid
        }),
    decreases entries.len(),
{
    if entries.len() > 0 {
        let pre = entries.drop_last();
        assert forall|i: int, j: int| 0 <= i < j < pre.len() implies (#[trigger] pre[i]).pid != (
        #[trigger] pre[j]).pid by {
            assert(pre[i] == entries[i] && pre[j] == entries[j]);
        }
        lemma_listed_pids_distinct(pre, uptime, passwd, last);
        lemma_listing_values(pre, uptime, passwd, last);
        let prev = listing(pre, uptime, passwd, last).0;
        let cur = listing(entries, uptime, passwd, last).0;
        let e = entries.last();
        assert forall|i: int, j: int| 0 <= i < j < cur.len() implies (#[trigger] cur[i]).pid != (
        #[trigger] cur[j]).pid by {
            if j < prev.len() {
                assert(cur[i] == prev[i] && cur[j] == prev[j]);
            } else {
                assert(cur.len() == prev.len() + 1 && cur[j].pid == e.pid);
                assert(cur[i] == prev[i]);
                let p = prev[i].pid;
                assert(listed_pids(prev).contains(p));
                lemma_last_busy_entry(pre, p);
                let k = choose|k: int| 0 <= k < pre.len() && (#[trigger] pre[k]).pid == p;
                assert(entries[k].pid == p && entries[entries.len() - 1].pid == e.pid);
            }
        }
    }
}

/// CPU time is measured between two reads of a process: a process that
/// nothing was remembered of has none, and after its `stat` text was read
/// at uptime `up1`, the next read at `up2` gives as busy time the growth of
/// user plus system time between the two texts and as elapsed time
/// `up2 - up1`, each 0 where it would be negative.
pub proof fn lemma_cpu_time_between_reads(
    last: Map<u32, (u64, u64)>,
    pid: u32,
    up1: u64,
    up2: u64,
    stat1: Seq<char>,
    stat2: Seq<char>,
    status: Option<Seq<char>>,
    passwd: Seq<char>,
)
    requires
        stat_in_range(stat1),
        stat_in_range(stat2),
        stat_record(stat1) is Some,
        stat_record(stat2) is Some,
    ensures
        !last.contains_key(pid) ==> process_view(pid, up1, last, stat1, status, passwd)->0.cpu is None,
        ({
            let r1 = stat_record(stat1)->0;
            let r2 = stat_record(stat2)->0;
            let t1 = r1.utime + r1.stime;
            let t2 = r2.utime + r2.stime;
            let m = remember(last, pid, up1, stat1);
            process_view(pid, up2, m, stat2, status, passwd)->0.cpu == Some(
                CpuTime {
                    busy: if t2 >= t1 {
                        (t2 - t1) as u64
                    } else {
                        0
                    },
                    elapsed: if up2 >= up1 {
                        (up2 - up1) as u64
                    } else {
                        0
                    },
                },
            )
        }),
{
}

/// A line of `/etc/passwd` whose third `:`-separated field reads as `uid`.
pub open spec fn names_uid(line: Seq<char>, uid: u32) -> bool {
    let f = split_on(line, ':');
    f.len() >= 3 && parse_unsigned(f[2], u32::MAX as nat) == Some(uid as nat)
}

proof fn lemma_passwd_entry_first(lines: Seq<Seq<char>>, uid: u32)
    ensures
        (forall|i: int| 0 <= i < lines.len() ==> !names_uid(#[trigger] lines[i], uid)) ==> passwd_entry(
            lines,
            uid,
        ) is None,
        forall|i: int|
            0 <= i < lines.len() && names_uid(#[trigger] lines[i], uid) && (forall|j: int|
                0 <= j < i ==> !names_uid(#[trigger] lines[j], uid)) ==> passwd_entry(lines, uid)
                == Some(split_on(lines[i], ':')[0]),
    decreases lines.len(),
{
    if lines.len() > 0 {
        let pre = lines.drop_last();
        lemma_passwd_entry_first(pre, uid);
        assert forall|i: int|
            0 <= i < lines.len() && names_uid(#[trigger] lines[i], uid) && (forall|j: int|
                0 <= j < i ==> !names_uid(#[trigger] lines[j], uid)) implies passwd_entry(lines, uid)
            == Some(split_on(lines[i], ':')[0]) by {
            if i < pre.len() {
                assert(pre[i] == lines[i]);
                assert forall|j: int| 0 <= j < i implies !names_uid(#[trigger] pre[j], uid) by {
                    assert(pre[j] == lines[j]);
                }
            } else {
                assert forall|j: int| 0 <= j < pre.len() implies !names_uid(#[trigger] pre[j], uid) by {
                    assert(pre[j] == lines[j]);
                }
            }
        }
        if forall|i: int| 0 <= i < lines.len() ==> !names_uid(#[trigger] lines[i], uid) {
            assert forall|j: int| 0 <= j < pre.len() implies !names_uid(#[trigger] pre[j], uid) by {
                assert(pre[j] == lines[j]);
            }
            assert(!names_uid(lines[lines.len() - 1], uid));
        }
    }
}

/// The user name of `uid` is the first field of the first line of
/// `/etc/passwd` whose third `:`-separated field reads as `uid`; where no
/// line does, it is `uid` written in decimal.
pub proof fn lemma_user_name_first_line(uid: u32, passwd: Seq<char>)
    ensures
        ({
            let ls = split_lines(passwd);
            &&& (forall|i: int| 0 <= i < ls.len() ==> !names_uid(#[trigger] ls[i], uid)) ==> user_name(
                uid,
                passwd,
            ) == decimal(uid as nat)
            &&& forall|i: int|
                0 <= i < ls.len() && names_uid(#[trigger] ls[i], uid) && (forall|j: int|
                    0 <= j < i ==> !names_uid(#[trigger] ls[j], uid)) ==> user_name(uid, passwd)
                    == split_on(ls[i], ':')[0]
        }),
{
    lemma_passwd_entry_first(split_lines(passwd), uid);
}

proof fn lemma_uid_line_first(lines: Seq<Seq<char>>)
    ensures
        (forall|i: int| 0 <= i < lines.len() ==> !starts_with(#[trigger] lines[i], "Uid:"@)) ==> uid_line(
            lines,
        ) is None,
        forall|i: int|
            0 <= i < lines.len() && starts_with(#[trigger] lines[i], "Uid:"@) && (forall|j: int|
                0 <= j < i ==> !starts_with(#[trigger] lines[j], "Uid:"@)) ==> uid_line(lines) == Some(
                lines[i],
            ),
    decreases lines.len(),
{
    if lines.len() > 0 {
        let pre = lines.drop_last();
        lemma_uid_line_first(pre);
        assert forall|i: int|
            0 <= i < lines.len() && starts_with(#[trigger] lines[i], "Uid:"@) && (forall|j: int|
                0 <= j < i ==> !starts_with(#[trigger] lines[j], "Uid:"@)) implies uid_line(lines)
            == Some(lines[i]) by {
            if i < pre.len() {
                assert(pre[i] == lines[i]);
                assert forall|j: int| 0 <= j < i implies !starts_with(#[trigger] pre[j], "Uid:"@) by {
                    assert(pre[j] == lines[j]);
                }
            } else {
                assert forall|j: int| 0 <= j < pre.len() implies !starts_with(#[trigger] pre[j], "Uid:"@) by {
                    assert(pre[j] == lines[j]);
                }
            }
        }
        if forall|i: int| 0 <= i < lines.len() ==> !starts_with(#[trigger] lines[i], "Uid:"@) {
            assert forall|j: int| 0 <= j < pre.len() implies !starts_with(#[trigger] pre[j], "Uid:"@) by {
                assert(pre[j] == lines[j]);
            }
            assert(!starts_with(lines[lines.len() - 1], "Uid:"@));
        }
    }
}

/// The user id of a `status` text comes from its first line that starts
/// with `Uid:`: the second whitespace-separated field of that line, where
/// there is one and it reads as a `u32`, and none otherwise; with no such
/// line there is no user id.
pub proof fn lemma_status_uid_first_line(status: Seq<char>)
    ensures
        ({
            let ls = split_lines(status);
            &&& (forall|i: int| 0 <= i < ls.len() ==> !starts_with(#[trigger] ls[i], "Uid:"@))
                ==> status_uid(status) is None
            &&& forall|i: int|
                0 <= i < ls.len() && starts_with(#[trigger] ls[i], "Uid:"@) && (forall|j: int|
                    0 <= j < i ==> !starts_with(#[trigger] ls[j], "Uid:"@)) ==> status_uid(status)
                    == ({
                    let t = split_ws(ls[i]);
                    if t.len() >= 2 && parse_unsigned(t[1], u32::MAX as nat) is Some {
                        Some(parse_unsigned(t[1], u32::MAX as nat)->0 as u32)
                    } else {
                        None::<u32>
                    }
                })
        }),
{
    lemma_uid_line_first(split_lines(status));
}

proof fn lemma_first_index_of(s: Seq<char>, c: char)
    ensures
        match first_index_of(s, c) {
            Some(i) => 0 <= i < s.len() && s[i] == c && forall|k: int| 0 <= k < i ==> s[k] != c,
            None => forall|k: int| 0 <= k < s.len() ==> s[k] != c,
        },
    decreases s.len(),
{
    if s.len() > 0 && s[0] != c {
        lemma_first_index_of(s.drop_first(), c);
        match first_index_of(s.drop_first(), c) {
            Some(i) => {
                assert forall|k: int| 0 <= k < i + 1 implies s[k] != c by {
                    if k > 0 {
                        assert(s[k] == s.drop_first()[k - 1]);
                    }
                }
            },
            None => {
                assert forall|k: int| 0 <= k < s.len() implies s[k] != c by {
                    if k > 0 {
                        assert(s[k] == s.drop_first()[k - 1]);
                    }
                }
            },
        }
    }
}

proof fn lemma_last_index_of(s: Seq<char>, c: char)
    ensures
        match last_index_of(s, c) {
            Some(i) => 0 <= i < s.len() && s[i] == c && forall|k: int| i < k < s.len() ==> s[k] != c,
            None => forall|k: int| 0 <= k < s.len() ==> s[k] != c,
        },
    decreases s.len(),
{
    if s.len() > 0 && s.last() != c {
        lemma_last_index_of(s.drop_last(), c);
        match last_index_of(s.drop_last(), c) {
            Some(i) => {
                assert forall|k: int| i < k < s.len() implies s[k] != c by {
                    if k < s.len() - 1 {
                        assert(s[k] == s.drop_last()[k]);
                    }
                }
            },
            None => {
                assert forall|k: int| 0 <= k < s.len() implies s[k] != c by {
                    if k < s.len() - 1 {
                        assert(s[k] == s.drop_last()[k]);
                    }
                }
            },
        }
    }
}

/// How a `stat` line is read. With no `(` or no `)` in it there is no
/// record. Where `a` is the position of its first `(` and `b` that of its
/// last `)`, there is a record exactly when `b` comes after `a` and the
/// text from two characters after `b` on has at least 39
/// whitespace-separated fields; the command is then the text strictly
/// between `a` and `b`, and of those fields the state is the first
/// character of field 0 (`?` where it is empty), the parent pid field 1,
/// the user and system times fields 11 and 12, the priority and nice value
/// fields 15 and 16, the number of threads field 17 and the resident pages
/// field 21, each 0 where it does not read as a number.
pub proof fn lemma_stat_record_fields(s: Seq<char>, a: int, b: int)
    ensures
        (forall|k: int| 0 <= k < s.len() ==> s[k] != '(') ==> stat_record(s) is None,
        (forall|k: int| 0 <= k < s.len() ==> s[k] != ')') ==> stat_record(s) is None,
        ({
            0 <= a < s.len() && s[a] == '(' && (forall|k: int| 0 <= k < a ==> s[k] != '(')
            && 0 <= b < s.len() && s[b] == ')' && (forall|k: int| b < k < s.len() ==> s[k] != ')')
        }) ==> ({
            let t = split_ws(s.subrange(b + 2, s.len() as int));
            &&& (stat_record(s) is Some <==> b > a && b + 2 <= s.len() && t.len() >= 39)
            &&& (stat_record(s) matches Some(r) ==> {
                &&& r.command == s.subrange(a + 1, b)
                &&& r.state == if t[0].len() > 0 {
                    t[0][0]
                } else {
                    '?'
                }
                &&& r.ppid == u32_or_zero(t[1])
                &&& r.utime == u64_or_zero(t[11])
                &&& r.stime == u64_or_zero(t[12])
                &&& r.priority == i32_or_zero(t[15])
                &&& r.nice == i32_or_zero(t[16])
                &&& r.threads == u32_or_zero(t[17])
                &&& r.rss == u64_or_zero(t[21])
            })
        }),
{
    lemma_first_index_of(s, '(');
    lemma_last_index_of(s, ')');
}

} // verus!
