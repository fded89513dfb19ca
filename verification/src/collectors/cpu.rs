//! CPU time accounting from `/proc/stat`.

use crate::text::{
    chars_of, line_ranges, range_string, split_on, split_ranges, trim, trim_range, pick, range_eq, range_starts_with, ranges_within, split_lines, split_ws,
    starts_with, u64_or_zero, u64_or_zero_range, ws_tokens,
};
use vstd::prelude::*;

verus! {

/// The tick counters of one line of `/proc/stat`.
#[derive(Clone, Copy, Debug, PartialEq, Eq, Structural)]
pub struct CoreData {
    pub user: u64,
    pub nice: u64,
    pub system: u64,
    pub idle: u64,
    pub iowait: u64,
    pub irq: u64,
    pub softirq: u64,
    pub steal: u64,
}

/// Ticks spent idle or waiting for I/O.
pub open spec fn idle_ticks(c: CoreData) -> int {
    c.idle + c.iowait
}

/// Ticks spent doing work.
pub open spec fn busy_ticks(c: CoreData) -> int {
    c.user + c.nice + c.system + c.irq + c.softirq + c.steal
}

/// All ticks.
pub open spec fn total_ticks(c: CoreData) -> int {
    idle_ticks(c) + busy_ticks(c)
}

/// The sum of all ticks fits in a `u64`, so it can be computed.
pub open spec fn ticks_fit(c: CoreData) -> bool {
    total_ticks(c) <= u64::MAX
}

/// `a - b`, or 0 where that would be negative.
pub open spec fn sat_sub(a: int, b: int) -> u64 {
    if a >= b {
        (a - b) as u64
    } else {
        0
    }
}

/// How many ticks passed between two readings of one counter line, and how
/// many of them were idle. The share of busy time is
/// `(total - idle) / total`.
#[derive(Clone, Copy, Debug, PartialEq, Eq, Structural)]
pub struct TickDelta {
    pub total: u64,
    pub idle: u64,
}

/// The ticks between reading `past` and reading `cur`.
pub open spec fn tick_delta(past: CoreData, cur: CoreData) -> TickDelta {
    TickDelta {
        total: sat_sub(total_ticks(cur), total_ticks(past)),
        idle: sat_sub(idle_ticks(cur), idle_ticks(past)),
    }
}

fn ticks(c: &CoreData) -> (r: (u64, u64))
    requires
        ticks_fit(*c),
    ensures
        r.0 == idle_ticks(*c),
        r.1 == total_ticks(*c),
{
    let idle = c.idle + c.iowait;
    let busy = c.user + c.nice + c.system + c.irq + c.softirq + c.steal;
    (idle, idle + busy)
}

fn delta(past: &CoreData, cur: &CoreData) -> (d: TickDelta)
    requires
        ticks_fit(*past),
        ticks_fit(*cur),
    ensures
        d == tick_delta(*past, *cur),
{
    let (past_idle, past_total) = ticks(past);
    let (cur_idle, cur_total) = ticks(cur);
    TickDelta { total: cur_total.saturating_sub(past_total), idle: cur_idle.saturating_sub(past_idle) }
}

/// The counters that the fields of a `cpu` line give, field 0 being its name.
pub open spec fn core_from_fields(t: Seq<Seq<char>>) -> CoreData {
    CoreData {
        user: u64_or_zero(t[1]),
        nice: u64_or_zero(t[2]),
        system: u64_or_zero(t[3]),
        idle: u64_or_zero(t[4]),
        iowait: u64_or_zero(t[5]),
        irq: u64_or_zero(t[6]),
        softirq: u64_or_zero(t[7]),
        steal: u64_or_zero(t[8]),
    }
}

/// The first line of `/proc/stat`, or the empty line where there is none.
pub open spec fn first_line(text: Seq<char>) -> Seq<char> {
    let lines = split_lines(text);
    if lines.len() > 0 {
        lines[0]
    } else {
        seq![]
    }
}

/// The lines after the first.
pub open spec fn later_lines(text: Seq<char>) -> Seq<Seq<char>> {
    let lines = split_lines(text);
    if lines.len() > 0 {
        lines.drop_first()
    } else {
        seq![]
    }
}

/// The all-CPU counters: the first line read when it has more than eight
/// fields, the first of which is `cpu`.
pub open spec fn stat_total(text: Seq<char>) -> Option<CoreData> {
    let t = split_ws(first_line(text));
    if t.len() > 8 && t[0] == "cpu"@ {
        Some(core_from_fields(t))
    } else {
        None
    }
}

/// A per-core line: it starts with `cpu`, has more than eight fields, and
/// its first field is not `cpu` itself.
pub open spec fn is_core_line(line: Seq<char>) -> bool {
    let t = split_ws(line);
    starts_with(line, "cpu"@) && t.len() > 8 && t[0] != "cpu"@
}

/// The counters of the per-core lines among `lines`, in order.
pub open spec fn core_lines(lines: Seq<Seq<char>>) -> Seq<CoreData>
    decreases lines.len(),
{
    if lines.len() == 0 {
        seq![]
    } else {
        let prev = core_lines(lines.drop_last());
        if is_core_line(lines.last()) {
            prev.push(core_from_fields(split_ws(lines.last())))
        } else {
            prev
        }
    }
}

/// The per-core counters of `/proc/stat`: every per-core line after the first line.
pub open spec fn stat_cores(text: Seq<char>) -> Seq<CoreData> {
    core_lines(later_lines(text))
}

/// One reading of `/proc/stat`.
#[derive(Clone, Debug)]
pub struct CpuSnapshot {
    /// The all-CPU line, where the first line is one.
    pub total: Option<CoreData>,
    /// The per-core lines.
    pub cores: Vec<CoreData>,
}

fn core_from_ranges(cs: &Vec<char>, t: &Vec<(usize, usize)>) -> (c: CoreData)
    requires
        t.len() > 8,
        ranges_within(t@, 0, cs.len() as int),
    ensures
        c == core_from_fields(pick(cs@, t@)),
{
    CoreData {
        user: u64_or_zero_range(cs, t[1].0, t[1].1),
        nice: u64_or_zero_range(cs, t[2].0, t[2].1),
        system: u64_or_zero_range(cs, t[3].0, t[3].1),
        idle: u64_or_zero_range(cs, t[4].0, t[4].1),
        iowait: u64_or_zero_range(cs, t[5].0, t[5].1),
        irq: u64_or_zero_range(cs, t[6].0, t[6].1),
        softirq: u64_or_zero_range(cs, t[7].0, t[7].1),
        steal: u64_or_zero_range(cs, t[8].0, t[8].1),
    }
}

/// Reads the counters out of the text of `/proc/stat`.
pub fn parse_proc_stat(text: &str) -> (snap: CpuSnapshot)
    ensures
        snap.total == stat_total(text@),
        snap.cores@ == stat_cores(text@),
{
    let cs = chars_of(text);
    let lines = line_ranges(&cs);
    let cpu = chars_of("cpu");
    let ghost ls = pick(cs@, lines@);
    let (fa, fb) = if lines.len() > 0 {
        lines[0]
    } else {
        (0, 0)
    };
    assert(first_line(text@) == cs@.subrange(fa as int, fb as int));
    let t = ws_tokens(&cs, fa, fb);
    let total = if t.len() > 8 && range_eq(&cs, t[0].0, t[0].1, &cpu) {
        Some(core_from_ranges(&cs, &t))
    } else {
        None
    };
    let mut cores: Vec<CoreData> = Vec::new();
    let first: usize = if lines.len() > 0 {
        1
    } else {
        0
    };
    let mut i: usize = first;
    while i < lines.len()
        invariant
            first <= i <= lines.len(),
            first == (if lines.len() > 0 {
                1int
            } else {
                0
            }),
            cs@ == text@,
            cpu@ == "cpu"@,
            ls == pick(cs@, lines@),
            ls == split_lines(text@),
            ranges_within(lines@, 0, cs.len() as int),
            cores@ == core_lines(ls.subrange(first as int, i as int)),
        decreases lines.len() - i,
    {
        let (a, b) = lines[i];
        assert(ls.subrange(first as int, i + 1).drop_last() =~= ls.subrange(first as int, i as int));
        assert(ls.subrange(first as int, i + 1).last() == cs@.subrange(a as int, b as int));
        if range_starts_with(&cs, a, b, &cpu) {
            let p = ws_tokens(&cs, a, b);
            if p.len() > 8 && !range_eq(&cs, p[0].0, p[0].1, &cpu) {
                cores.push(core_from_ranges(&cs, &p));
            }
        }
        i = i + 1;
    }
    proof {
        if lines.len() > 0 {
            assert(ls.subrange(1, lines.len() as int) =~= ls.drop_first());
        } else {
            assert(ls.subrange(0, 0) =~= later_lines(text@));
        }
    }
    CpuSnapshot { total, cores }
}


/// Whether all ticks of `c` sum up within a `u64`.
pub fn ticks_fit_exec(c: &CoreData) -> (b: bool)
    ensures
        b == ticks_fit(*c),
{
    let sum: u128 = c.idle as u128 + c.iowait as u128 + c.user as u128 + c.nice as u128
        + c.system as u128 + c.irq as u128 + c.softirq as u128 + c.steal as u128;
    sum <= u64::MAX as u128
}

/// The all-CPU ticks since the previous reading, where this reading has an
/// all-CPU line.
pub open spec fn total_delta(last: CoreData, total: Option<CoreData>) -> Option<TickDelta> {
    match total {
        Some(t) => Some(tick_delta(last, t)),
        None => None,
    }
}

/// The all-CPU counters kept for the next reading.
pub open spec fn next_last_total(last: CoreData, total: Option<CoreData>) -> CoreData {
    match total {
        Some(t) => t,
        None => last,
    }
}

/// The per-core ticks since the previous reading: one entry per core when
/// the number of cores is unchanged, none otherwise.
pub open spec fn core_deltas(past: Seq<CoreData>, cur: Seq<CoreData>) -> Seq<TickDelta> {
    if past.len() == cur.len() {
        Seq::new(cur.len(), |i: int| tick_delta(past[i], cur[i]))
    } else {
        seq![]
    }
}

/// The reading can be compared with the previous one without a sum leaving
/// the range of `u64`: the all-CPU counters, and, where the number of cores
/// is unchanged, the previous and the new per-core counters.
pub open spec fn sample_fits(last_cores: Seq<CoreData>, total: Option<CoreData>, cores: Seq<CoreData>) -> bool {
    &&& (total matches Some(t) ==> ticks_fit(t))
    &&& (last_cores.len() == cores.len() ==> forall|i: int|
        0 <= i < cores.len() ==> #[trigger] ticks_fit(last_cores[i]))
    &&& (last_cores.len() == cores.len() ==> forall|i: int|
        0 <= i < cores.len() ==> #[trigger] ticks_fit(cores[i]))
}

/// The ticks that passed between two readings of `/proc/stat`.
#[derive(Clone, Debug)]
pub struct CpuUsage {
    /// All CPUs together, where the reading had an all-CPU line.
    pub total: Option<TickDelta>,
    /// Each core, empty where the number of cores changed.
    pub cores: Vec<TickDelta>,
}

/// The zero counters a collector starts from.
pub open spec fn zero_ticks() -> CoreData {
    CoreData { user: 0, nice: 0, system: 0, idle: 0, iowait: 0, irq: 0, softirq: 0, steal: 0 }
}

/// Keeps the previous reading of `/proc/stat` to turn counters into rates.
pub struct CpuCollector {
    last_total: CoreData,
    last_cores: Vec<CoreData>,
}

impl CpuCollector {
    /// The all-CPU counters of the previous reading.
    pub closed spec fn prev_total(&self) -> CoreData {
        self.last_total
    }

    /// The per-core counters of the previous reading.
    pub closed spec fn prev_cores(&self) -> Seq<CoreData> {
        self.last_cores@
    }

    #[verifier::type_invariant]
    spec fn total_fits(&self) -> bool {
        ticks_fit(self.last_total)
    }

    /// A collector that has read nothing: all counters zero, no cores.
    pub fn new() -> (c: Self)
        ensures
            c.prev_total() == zero_ticks(),
            c.prev_cores() == Seq::<CoreData>::empty(),
    {
        CpuCollector {
            last_total: CoreData {
                user: 0,
                nice: 0,
                system: 0,
                idle: 0,
                iowait: 0,
                irq: 0,
                softirq: 0,
                steal: 0,
            },
            last_cores: Vec::new(),
        }
    }

    /// Whether `snap` can be taken in without a sum leaving the range of `u64`.
    pub fn accepts(&self, snap: &CpuSnapshot) -> (b: bool)
        ensures
            b == sample_fits(self.prev_cores(), snap.total, snap.cores@),
    {
        if let Some(t) = &snap.total {
            if !ticks_fit_exec(t) {
                return false;
            }
        }
        if self.last_cores.len() != snap.cores.len() {
            return true;
        }
        let mut i: usize = 0;
        while i < snap.cores.len()
            invariant
                self.last_cores.len() == snap.cores.len(),
                snap.total matches Some(t) ==> ticks_fit(t),
                i <= snap.cores.len(),
                forall|j: int| 0 <= j < i ==> #[trigger] ticks_fit(self.last_cores@[j]),
                forall|j: int| 0 <= j < i ==> #[trigger] ticks_fit(snap.cores@[j]),
            decreases snap.cores.len() - i,
        {
            if !ticks_fit_exec(&self.last_cores[i]) || !ticks_fit_exec(&snap.cores[i]) {
                return false;
            }
            i = i + 1;
        }
        true
    }

    /// Takes in a new reading: the ticks since the previous one, which the
    /// new reading then replaces. The all-CPU counters are kept from before
    /// where the new reading has no all-CPU line.
    pub fn get_cpu_usage(&mut self, snap: &CpuSnapshot) -> (u: CpuUsage)
        requires
            sample_fits(old(self).prev_cores(), snap.total, snap.cores@),
        ensures
            u.total == total_delta(old(self).prev_total(), snap.total),
            u.cores@ == core_deltas(old(self).prev_cores(), snap.cores@),
            final(self).prev_total() == next_last_total(old(self).prev_total(), snap.total),
            final(self).prev_cores() == snap.cores@,
            old(self).prev_cores().len() == snap.cores.len() ==> u.cores.len() == snap.cores.len(),
            old(self).prev_cores().len() != snap.cores.len() ==> u.cores.len() == 0,
            forall|i: int|
                0 <= i < u.cores.len() ==> (#[trigger] u.cores@[i]).total == sat_sub(
                    total_ticks(snap.cores@[i]),
                    total_ticks(old(self).prev_cores()[i]),
                ) && u.cores@[i].idle == sat_sub(
                    idle_ticks(snap.cores@[i]),
                    idle_ticks(old(self).prev_cores()[i]),
                ),
    {
        proof {
            use_type_invariant(&*self);
        }
        let total = match &snap.total {
            Some(t) => {
                let d = delta(&self.last_total, t);
                self.last_total = *t;
                Some(d)
            },
            None => None,
        };
        let mut cores: Vec<TickDelta> = Vec::new();
        if self.last_cores.len() == snap.cores.len() {
            let mut i: usize = 0;
            while i < snap.cores.len()
                invariant
                    self.last_cores.len() == snap.cores.len(),
                    self.last_cores@ == old(self).prev_cores(),
                    sample_fits(self.last_cores@, snap.total, snap.cores@),
                    i <= snap.cores.len(),
                    cores@ =~= Seq::new(
                        i as nat,
                        |j: int| tick_delta(self.last_cores@[j], snap.cores@[j]),
                    ),
                decreases snap.cores.len() - i,
            {
                assert(ticks_fit(self.last_cores@[i as int]));
                cores.push(delta(&self.last_cores[i], &snap.cores[i]));
                i = i + 1;
            }
        }
        self.last_cores = snap.cores.clone();
        CpuUsage { total, cores }
    }
}

/// Counters never run backwards between two readings, so the idle ticks
/// that passed never exceed all ticks that passed: the busy share
/// `(total - idle) / total` lies between 0 and 1.
pub proof fn lemma_idle_within_total(past: CoreData, cur: CoreData)
    requires
        past.user <= cur.user,
        past.nice <= cur.nice,
        past.system <= cur.system,
        past.idle <= cur.idle,
        past.iowait <= cur.iowait,
        past.irq <= cur.irq,
        past.softirq <= cur.softirq,
        past.steal <= cur.steal,
        ticks_fit(cur),
    ensures
        tick_delta(past, cur).idle <= tick_delta(past, cur).total,
{
}

/// Taking in the same reading twice in a row gives no ticks at all the
/// second time, for all CPUs and for each core.
pub proof fn lemma_same_reading_twice(
    last_total: CoreData,
    last_cores: Seq<CoreData>,
    total: Option<CoreData>,
    cores: Seq<CoreData>,
)
    ensures
        ({
            let again = total_delta(next_last_total(last_total, total), total);
            again matches Some(d) ==> d.total == 0 && d.idle == 0
        }),
        core_deltas(cores, cores).len() == cores.len(),
        forall|i: int|
            0 <= i < cores.len() ==> (#[trigger] core_deltas(cores, cores)[i]).total == 0
                && core_deltas(cores, cores)[i].idle == 0,
{
}


/// A line of `/proc/cpuinfo` that gives a clock rate: it starts with
/// `cpu MHz` and has a second `:`-separated field.
pub open spec fn is_mhz_line(line: Seq<char>) -> bool {
    starts_with(line, "cpu MHz"@) && split_on(line, ':').len() >= 2
}

/// The trimmed second `:`-separated fields of the clock rate lines among
/// `lines`, in order.
pub open spec fn mhz_fields(lines: Seq<Seq<char>>) -> Seq<Seq<char>>
    decreases lines.len(),
{
    if lines.len() == 0 {
        seq![]
    } else {
        let prev = mhz_fields(lines.drop_last());
        if is_mhz_line(lines.last()) {
            prev.push(trim(split_on(lines.last(), ':')[1]))
        } else {
            prev
        }
    }
}

/// The clock rate texts of `/proc/cpuinfo`, in the order of its lines; the
/// frequency is the first of them that reads as a number.
pub fn cpu_mhz_fields(text: &str) -> (v: Vec<String>)
    ensures
        v@.len() == mhz_fields(split_lines(text@)).len(),
        forall|i: int|
            0 <= i < v@.len() ==> (#[trigger] v@[i])@ == mhz_fields(split_lines(text@))[i],
{
    let cs = chars_of(text);
    let lines = line_ranges(&cs);
    let key = chars_of("cpu MHz");
    let ghost ls = pick(cs@, lines@);
    let mut v: Vec<String> = Vec::new();
    let mut i: usize = 0;
    while i < lines.len()
        invariant
            i <= lines.len(),
            cs@ == text@,
            key@ == "cpu MHz"@,
            ls == pick(cs@, lines@),
            ls == split_lines(text@),
            ranges_within(lines@, 0, cs.len() as int),
            v@.len() == mhz_fields(ls.take(i as int)).len(),
            forall|j: int|
                0 <= j < v@.len() ==> (#[trigger] v@[j])@ == mhz_fields(ls.take(i as int))[j],
        decreases lines.len() - i,
    {
        let (a, b) = lines[i];
        assert(ls.take(i + 1).drop_last() =~= ls.take(i as int));
        assert(ls.take(i + 1).last() == cs@.subrange(a as int, b as int));
        if range_starts_with(&cs, a, b, &key) {
            let f = split_ranges(&cs, a, b, ':');
            if f.len() >= 2 {
                let (ta, tb) = trim_range(&cs, f[1].0, f[1].1);
                v.push(range_string(text, &cs, ta, tb));
            }
        }
        i = i + 1;
    }
    assert(ls.take(lines.len() as int) =~= ls);
    v
}


/// All ticks of a counter line, summed field by field.
pub open spec fn field_sum(c: CoreData) -> int {
    c.user + c.nice + c.system + c.idle + c.iowait + c.irq + c.softirq + c.steal
}

/// Per core, in order: when the number of cores is unchanged, entry `i` of
/// the per-core ticks compares the `i`-th core of the previous reading with
/// the `i`-th core of the new one — all ticks and idle plus I/O-wait ticks,
/// each the growth of its counter or zero where it shrank; when the number
/// changed there are no entries.
pub proof fn lemma_core_deltas_per_core(past: Seq<CoreData>, cur: Seq<CoreData>)
    ensures
        past.len() != cur.len() ==> core_deltas(past, cur).len() == 0,
        past.len() == cur.len() ==> core_deltas(past, cur).len() == cur.len(),
        past.len() == cur.len() ==> forall|i: int|
            0 <= i < cur.len() && field_sum(cur[i]) <= u64::MAX && field_sum(past[i]) <= u64::MAX
                ==> (#[trigger] core_deltas(past, cur)[i]).total == (if field_sum(cur[i])
                >= field_sum(past[i]) {
                field_sum(cur[i]) - field_sum(past[i])
            } else {
                0
            }) && core_deltas(past, cur)[i].idle == (if cur[i].idle + cur[i].iowait >= past[i].idle
                + past[i].iowait {
                (cur[i].idle + cur[i].iowait) - (past[i].idle + past[i].iowait)
            } else {
                0
            }),
{
}

/// The all-CPU ticks compare the previous all-CPU counters with the new
/// ones in the same way, where the new reading has an all-CPU line.
pub proof fn lemma_total_delta_fields(last: CoreData, t: CoreData)
    ensures
        total_delta(last, None) is None,
        total_delta(last, Some(t)) is Some,
        field_sum(t) <= u64::MAX && field_sum(last) <= u64::MAX ==> total_delta(last, Some(t))->0.total == (
        if field_sum(t) >= field_sum(last) {
            field_sum(t) - field_sum(last)
        } else {
            0
        }),
        t.idle + t.iowait <= u64::MAX ==> total_delta(last, Some(t))->0.idle == (if t.idle + t.iowait
            >= last.idle + last.iowait {
            (t.idle + t.iowait) - (last.idle + last.iowait)
        } else {
            0
        }),
{
}

proof fn lemma_core_lines_concat(a: Seq<Seq<char>>, b: Seq<Seq<char>>)
    ensures
        core_lines(a + b) == core_lines(a) + core_lines(b),
    decreases b.len(),
{
    if b.len() == 0 {
        assert(a + b =~= a);
        assert(core_lines(a) + core_lines(b) =~= core_lines(a));
    } else {
        lemma_core_lines_concat(a, b.drop_last());
        assert((a + b).drop_last() =~= a + b.drop_last());
        assert((a + b).last() == b.last());
        if is_core_line(b.last()) {
            assert(core_lines(a) + core_lines(b.drop_last()).push(core_from_fields(split_ws(b.last())))
                =~= (core_lines(a) + core_lines(b.drop_last())).push(core_from_fields(split_ws(b.last()))));
        }
    }
}

/// The per-core counters of a text are those of its lines taken one by one,
/// in order: a line counts exactly when it starts with `cpu`, has at least
/// nine fields and its first field is not `cpu` itself, and then gives its
/// fields 1 to 8, in order, as user, nice, system, idle, iowait, irq,
/// softirq and steal ticks (0 where a field is not a number).
pub proof fn lemma_core_lines_per_line(a: Seq<Seq<char>>, line: Seq<char>)
    ensures
        core_lines(a + seq![line]) == core_lines(a) + ({
            let t = split_ws(line);
            if starts_with(line, "cpu"@) && t.len() >= 9 && t[0] != "cpu"@ {
                seq![
                    CoreData {
                        user: u64_or_zero(t[1]),
                        nice: u64_or_zero(t[2]),
                        system: u64_or_zero(t[3]),
                        idle: u64_or_zero(t[4]),
                        iowait: u64_or_zero(t[5]),
                        irq: u64_or_zero(t[6]),
                        softirq: u64_or_zero(t[7]),
                        steal: u64_or_zero(t[8]),
                    },
                ]
            } else {
                Seq::<CoreData>::empty()
            }
        }),
{
    lemma_core_lines_concat(a, seq![line]);
    assert(seq![line].drop_last() =~= Seq::<Seq<char>>::empty());
    assert(core_lines(Seq::<Seq<char>>::empty()) =~= Seq::<CoreData>::empty());
}

/// What one more line of `/proc/cpuinfo` adds to the clock rate texts: a
/// line that starts with `cpu MHz` and has a second `:`-separated field
/// adds that field with the white space around it trimmed; any other line
/// adds nothing.
pub proof fn lemma_mhz_fields_per_line(a: Seq<Seq<char>>, line: Seq<char>)
    ensures
        mhz_fields(a + seq![line]) == mhz_fields(a) + if starts_with(line, "cpu MHz"@) && split_on(
            line,
            ':',
        ).len() >= 2 {
            seq![trim(split_on(line, ':')[1])]
        } else {
            Seq::<Seq<char>>::empty()
        },
{
    assert((a + seq![line]).drop_last() =~= a);
    assert((a + seq![line]).last() == line);
    assert(mhz_fields(a) + Seq::<Seq<char>>::empty() =~= mhz_fields(a));
    assert(mhz_fields(a).push(trim(split_on(line, ':')[1])) =~= mhz_fields(a) + seq![
        trim(split_on(line, ':')[1]),
    ]);
}

} // verus!
