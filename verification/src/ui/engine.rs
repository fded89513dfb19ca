//! Sorting, filtering and keyboard navigation of the process table, and the
//! formatting rules of the dashboard.

use crate::text::{
    chars_of, contains, contains_chars, decimal, push_decimal, push_two_digits, zero_padded,
};
use vstd::arithmetic::div_mod::lemma_fundamental_div_mod_converse;
use vstd::prelude::*;
use vstd::string::*;

verus! {

/// What the main loop does after a key.
#[derive(Clone, Copy, Debug, PartialEq, Eq, Structural)]
pub enum InputResult {
    Continue,
    Quit,
    Kill(u32),
}

/// The order of the process table.
#[derive(Clone, Copy, Debug, PartialEq, Eq, Structural)]
pub enum SortMode {
    /// Highest CPU usage first.
    Cpu,
    /// Largest resident memory first.
    Mem,
    /// Lowest pid first.
    Pid,
}

impl SortMode {
    /// The name shown in the table's title.
    pub fn label(&self) -> (l: &'static str)
        ensures
            l@ == match *self {
                SortMode::Cpu => "CPU"@,
                SortMode::Mem => "MEM"@,
                SortMode::Pid => "PID"@,
            },
    {
        match self {
            SortMode::Cpu => "CPU",
            SortMode::Mem => "MEM",
            SortMode::Pid => "PID",
        }
    }

    /// The order that follows this one when the user switches.
    pub open spec fn spec_next(self) -> SortMode {
        match self {
            SortMode::Cpu => SortMode::Mem,
            SortMode::Mem => SortMode::Pid,
            SortMode::Pid => SortMode::Cpu,
        }
    }

    /// The order that follows this one when the user switches.
    pub fn next(&self) -> (m: SortMode)
        ensures
            m == self.spec_next(),
    {
        match self {
            SortMode::Cpu => SortMode::Mem,
            SortMode::Mem => SortMode::Pid,
            SortMode::Pid => SortMode::Cpu,
        }
    }
}

/// Switching the order three times comes back to where it started, and
/// every order is reached on the way.
pub proof fn lemma_sort_cycle(m: SortMode)
    ensures
        m.spec_next().spec_next().spec_next() == m,
        m.spec_next() != m,
        m.spec_next().spec_next() != m,
{
}

/// The order named on the command line: `mem`, `pid`, and CPU for anything
/// else.
pub open spec fn parse_sort(s: Seq<char>) -> SortMode {
    if s == "mem"@ {
        SortMode::Mem
    } else if s == "pid"@ {
        SortMode::Pid
    } else {
        SortMode::Cpu
    }
}

/// A key the user pressed.
#[derive(Clone, Copy, Debug, PartialEq, Eq, Structural)]
pub enum Key {
    Char(char),
    Esc,
    Up,
    Down,
    PageUp,
    PageDown,
    Home,
    End,
    Other,
}

/// What the table needs of a process: its pid, resident memory, a number
/// that orders processes as their CPU usage does, and the texts the filter
/// searches.
#[derive(Clone, Debug)]
pub struct ProcRow {
    pub pid: u32,
    pub memory_usage: u64,
    pub cpu_key: u32,
    pub user: String,
    pub command: String,
}

/// The row passes the filter: the filter is empty, or the user or the
/// command contains it.
pub open spec fn row_matches(filter: Seq<char>, r: ProcRow) -> bool {
    filter.len() == 0 || contains(r.user@, filter) || contains(r.command@, filter)
}

/// The number a row is sorted by, smallest first: CPU and memory go from
/// high to low, pids from low to high.
pub open spec fn sort_key(mode: SortMode, r: ProcRow) -> u64 {
    match mode {
        SortMode::Cpu => (u32::MAX - r.cpu_key) as u64,
        SortMode::Mem => (u64::MAX - r.memory_usage) as u64,
        SortMode::Pid => r.pid as u64,
    }
}

/// Row `a` comes before row `b`: by sort key, and among equal keys in the
/// order of the rows, as a stable sort keeps them.
pub open spec fn before(mode: SortMode, rows: Seq<ProcRow>, a: int, b: int) -> bool {
    let ka = sort_key(mode, rows[a]);
    let kb = sort_key(mode, rows[b]);
    ka < kb || (ka == kb && a < b)
}

/// `order` lists the rows that pass the filter, each once, in the table's
/// order.
pub open spec fn is_table_order(
    mode: SortMode,
    filter: Seq<char>,
    rows: Seq<ProcRow>,
    order: Seq<usize>,
) -> bool {
    &&& forall|i: int| 0 <= i < order.len() ==> (#[trigger] order[i]) < rows.len()
    &&& forall|i: int| 0 <= i < order.len() ==> row_matches(filter, rows[#[trigger] order[i] as int])
    &&& forall|k: int| 0 <= k < rows.len() && row_matches(filter, rows[k]) ==> #[trigger] order.contains(k as usize)
    &&& forall|i: int, j: int| 0 <= i < j < order.len() ==> before(mode, rows, #[trigger] order[i] as int, #[trigger] order[j] as int)
}

fn key_of(mode: SortMode, r: &ProcRow) -> (k: u64)
    ensures
        k == sort_key(mode, *r),
{
    match mode {
        SortMode::Cpu => (u32::MAX - r.cpu_key) as u64,
        SortMode::Mem => u64::MAX - r.memory_usage,
        SortMode::Pid => r.pid as u64,
    }
}

/// The rows that pass `filter`, as indices into `rows`, in the order of
/// `mode`; rows with equal keys keep their order.
pub fn table_order(mode: SortMode, filter: &String, rows: &Vec<ProcRow>) -> (order: Vec<usize>)
    ensures
        is_table_order(mode, filter@, rows@, order@),
        forall|i: int, j: int|
            #![trigger order@[i], order@[j]]
            0 <= i < j < order.len() ==> order@[i] < rows.len() && order@[j] < rows.len() && match mode {
                SortMode::Pid => rows@[order@[i] as int].pid <= rows@[order@[j] as int].pid,
                SortMode::Mem => rows@[order@[i] as int].memory_usage >= rows@[order@[j] as int].memory_usage,
                SortMode::Cpu => rows@[order@[i] as int].cpu_key >= rows@[order@[j] as int].cpu_key,
            },
{
    let pat = chars_of(filter.as_str());
    let mut order: Vec<usize> = Vec::new();
    let mut j: usize = 0;
    while j < rows.len()
        invariant
            j <= rows.len(),
            pat@ == filter@,
            forall|i: int| 0 <= i < order.len() ==> (#[trigger] order@[i]) < j,
            forall|i: int| 0 <= i < order.len() ==> row_matches(filter@, rows@[#[trigger] order@[i] as int]),
            forall|k: int| 0 <= k < j && row_matches(filter@, rows@[k]) ==> #[trigger] order@.contains(k as usize),
            forall|a: int, b: int| 0 <= a < b < order.len() ==> before(mode, rows@, #[trigger] order@[a] as int, #[trigger] order@[b] as int),
        decreases rows.len() - j,
    {
        let r = &rows[j];
        let user = chars_of(r.user.as_str());
        let command = chars_of(r.command.as_str());
        let keep = pat.len() == 0 || contains_chars(&user, &pat) || contains_chars(&command, &pat);
        if keep {
            let kj = key_of(mode, r);
            let mut p: usize = order.len();
            while p > 0 && key_of(mode, &rows[order[p - 1]]) > kj
                invariant
                    p <= order.len(),
                    j < rows.len(),
                    kj == sort_key(mode, rows@[j as int]),
                    forall|i: int| 0 <= i < order.len() ==> (#[trigger] order@[i]) < j,
                    forall|q: int| p <= q < order.len() ==> sort_key(mode, rows@[#[trigger] order@[q] as int]) > kj,
                decreases p,
            {
                p = p - 1;
            }
            let ghost old_order = order@;
            proof {
                assert forall|a: int| 0 <= a < p implies before(mode, rows@, #[trigger] old_order[a] as int, j as int) by {
                    if a < p - 1 {
                        assert(before(mode, rows@, old_order[a] as int, old_order[p - 1] as int));
                    }
                }
            }
            order.insert(p, j);
            proof {
                assert forall|a: int, b: int| 0 <= a < b < order.len() implies before(mode, rows@, #[trigger] order@[a] as int, #[trigger] order@[b] as int) by {
                    if b < p {
                        assert(order@[a] == old_order[a] && order@[b] == old_order[b]);
                    } else if b == p {
                        assert(order@[a] == old_order[a]);
                    } else if a < p {
                        assert(order@[a] == old_order[a] && order@[b] == old_order[b - 1]);
                        assert(before(mode, rows@, old_order[a] as int, old_order[b - 1] as int));
                    } else if a == p {
                        assert(order@[b] == old_order[b - 1]);
                    } else {
                        assert(order@[a] == old_order[a - 1] && order@[b] == old_order[b - 1]);
                    }
                }
                assert forall|k: int| 0 <= k < j + 1 && row_matches(filter@, rows@[k]) implies #[trigger] order@.contains(k as usize) by {
                    if k < j {
                        assert(old_order.contains(k as usize));
                        let w = choose|w: int| 0 <= w < old_order.len() && old_order[w] == k as usize;
                        if w < p {
                            assert(order@[w] == k as usize);
                        } else {
                            assert(order@[w + 1] == k as usize);
                        }
                    } else {
                        assert(order@[p as int] == j);
                    }
                }
            }
        } else {
            proof {
                assert forall|k: int| 0 <= k < j + 1 && row_matches(filter@, rows@[k]) implies #[trigger] order@.contains(k as usize) by {
                    if k == j {
                        assert(!row_matches(filter@, rows@[k]));
                    }
                }
            }
        }
        j = j + 1;
    }
    proof {
        lemma_table_order_fields(mode, filter@, rows@, order@);
    }
    order
}


/// No two rows stand at the same place of an order.
proof fn lemma_before_strict(mode: SortMode, rows: Seq<ProcRow>, a: int, b: int)
    ensures
        !(before(mode, rows, a, b) && before(mode, rows, b, a)),
        !before(mode, rows, a, a),
{
}

proof fn lemma_sorted_unique(mode: SortMode, rows: Seq<ProcRow>, o1: Seq<usize>, o2: Seq<usize>)
    requires
        forall|i: int, j: int| 0 <= i < j < o1.len() ==> before(mode, rows, #[trigger] o1[i] as int, #[trigger] o1[j] as int),
        forall|i: int, j: int| 0 <= i < j < o2.len() ==> before(mode, rows, #[trigger] o2[i] as int, #[trigger] o2[j] as int),
        forall|x: usize| o1.contains(x) <==> o2.contains(x),
    ensures
        o1 == o2,
    decreases o1.len(),
{
    if o1.len() == 0 {
        if o2.len() > 0 {
            assert(o2.contains(o2[0]));
        }
        assert(o1 =~= o2);
    } else {
        assert(o1.contains(o1[0]));
        let k = choose|k: int| 0 <= k < o2.len() && o2[k] == o1[0];
        assert(o2.contains(o2[0]));
        let m = choose|m: int| 0 <= m < o1.len() && o1[m] == o2[0];
        if k > 0 {
            assert(before(mode, rows, o2[0] as int, o2[k] as int));
            if m > 0 {
                assert(before(mode, rows, o1[0] as int, o1[m] as int));
                lemma_before_strict(mode, rows, o1[0] as int, o2[0] as int);
            } else {
                lemma_before_strict(mode, rows, o1[0] as int, o1[0] as int);
            }
        }
        assert(o1[0] == o2[0]);
        let t1 = o1.drop_first();
        let t2 = o2.drop_first();
        assert forall|x: usize| t1.contains(x) <==> t2.contains(x) by {
            if t1.contains(x) {
                let i = choose|i: int| 0 <= i < t1.len() && t1[i] == x;
                assert(o1[i + 1] == x);
                assert(before(mode, rows, o1[0] as int, o1[i + 1] as int));
                lemma_before_strict(mode, rows, x as int, x as int);
                assert(o1.contains(x));
                let j = choose|j: int| 0 <= j < o2.len() && o2[j] == x;
                assert(j != 0);
                assert(t2[j - 1] == x);
            }
            if t2.contains(x) {
                let i = choose|i: int| 0 <= i < t2.len() && t2[i] == x;
                assert(o2[i + 1] == x);
                assert(before(mode, rows, o2[0] as int, o2[i + 1] as int));
                lemma_before_strict(mode, rows, x as int, x as int);
                assert(o2.contains(x));
                let j = choose|j: int| 0 <= j < o1.len() && o1[j] == x;
                assert(j != 0);
                assert(t1[j - 1] == x);
            }
        }
        assert forall|i: int, j: int| 0 <= i < j < t1.len() implies before(mode, rows, #[trigger] t1[i] as int, #[trigger] t1[j] as int) by {
            assert(t1[i] == o1[i + 1] && t1[j] == o1[j + 1]);
        }
        assert forall|i: int, j: int| 0 <= i < j < t2.len() implies before(mode, rows, #[trigger] t2[i] as int, #[trigger] t2[j] as int) by {
            assert(t2[i] == o2[i + 1] && t2[j] == o2[j + 1]);
        }
        lemma_sorted_unique(mode, rows, t1, t2);
        assert forall|i: int| 0 <= i < o1.len() implies o1[i] == o2[i] by {
            if i > 0 {
                assert(o1[i] == t1[i - 1] && o2[i] == t2[i - 1]);
            }
        }
        assert(o1 =~= o2);
    }
}

/// The rows, the filter and the order decide the table: there is one
/// list that shows each row that passes the filter once, in sorted order.
pub proof fn lemma_table_order_unique(
    mode: SortMode,
    filter: Seq<char>,
    rows: Seq<ProcRow>,
    o1: Seq<usize>,
    o2: Seq<usize>,
)
    requires
        is_table_order(mode, filter, rows, o1),
        is_table_order(mode, filter, rows, o2),
    ensures
        o1 == o2,
{
    assert forall|x: usize| o1.contains(x) <==> o2.contains(x) by {
        if o1.contains(x) {
            let i = choose|i: int| 0 <= i < o1.len() && o1[i] == x;
            assert(row_matches(filter, rows[o1[i] as int]));
            assert(o2.contains((x as int) as usize));
        }
        if o2.contains(x) {
            let i = choose|i: int| 0 <= i < o2.len() && o2[i] == x;
            assert(row_matches(filter, rows[o2[i] as int]));
            assert(o1.contains((x as int) as usize));
        }
    }
    lemma_sorted_unique(mode, rows, o1, o2);
}

/// `p` occurs in `s` as a contiguous piece.
pub open spec fn occurs_in(p: Seq<char>, s: Seq<char>) -> bool {
    exists|k: int| 0 <= k && k + p.len() <= s.len() && #[trigger] s.subrange(k, k + p.len()) == p
}

/// What the table shows, on the rows' own fields: exactly the rows whose
/// user or command contains the filter (all rows for an empty filter), each
/// once; in PID order by ascending pid, in MEM order by descending resident
/// memory, in CPU order by descending CPU usage; rows that tie keep the
/// order they came in.
pub proof fn lemma_table_order_fields(
    mode: SortMode,
    filter: Seq<char>,
    rows: Seq<ProcRow>,
    order: Seq<usize>,
)
    requires
        is_table_order(mode, filter, rows, order),
    ensures
        forall|i: int| 0 <= i < order.len() ==> (#[trigger] order[i]) < rows.len() && (filter.len()
            == 0 || occurs_in(filter, rows[order[i] as int].user@) || occurs_in(
            filter,
            rows[order[i] as int].command@,
        )),
        forall|k: int|
            0 <= k < rows.len() && (filter.len() == 0 || occurs_in(filter, rows[k].user@) || occurs_in(
                filter,
                rows[k].command@,
            )) ==> #[trigger] order.contains(k as usize),
        forall|i: int, j: int|
            #![trigger order[i], order[j]]
            0 <= i < j < order.len() ==> order[i] != order[j] && match mode {
                SortMode::Pid => rows[order[i] as int].pid < rows[order[j] as int].pid || (rows[order[i] as int].pid
                    == rows[order[j] as int].pid && order[i] < order[j]),
                SortMode::Mem => rows[order[i] as int].memory_usage > rows[order[j] as int].memory_usage
                    || (rows[order[i] as int].memory_usage == rows[order[j] as int].memory_usage
                    && order[i] < order[j]),
                SortMode::Cpu => rows[order[i] as int].cpu_key > rows[order[j] as int].cpu_key || (
                rows[order[i] as int].cpu_key == rows[order[j] as int].cpu_key && order[i]
                    < order[j]),
            },
{
    assert forall|i: int, j: int|
        #![trigger order[i], order[j]]
        0 <= i < j < order.len() implies order[i] != order[j] && match mode {
            SortMode::Pid => rows[order[i] as int].pid < rows[order[j] as int].pid || (rows[order[i] as int].pid
                == rows[order[j] as int].pid && order[i] < order[j]),
            SortMode::Mem => rows[order[i] as int].memory_usage > rows[order[j] as int].memory_usage
                || (rows[order[i] as int].memory_usage == rows[order[j] as int].memory_usage
                && order[i] < order[j]),
            SortMode::Cpu => rows[order[i] as int].cpu_key > rows[order[j] as int].cpu_key || (
            rows[order[i] as int].cpu_key == rows[order[j] as int].cpu_key && order[i] < order[j]),
        } by {
        assert(before(mode, rows, order[i] as int, order[j] as int));
    }
    assert forall|i: int| 0 <= i < order.len() implies (#[trigger] order[i]) < rows.len() && (
    filter.len() == 0 || occurs_in(filter, rows[order[i] as int].user@) || occurs_in(
        filter,
        rows[order[i] as int].command@,
    )) by {
        assert(row_matches(filter, rows[order[i] as int]));
    }
    assert forall|k: int|
        0 <= k < rows.len() && (filter.len() == 0 || occurs_in(filter, rows[k].user@) || occurs_in(
            filter,
            rows[k].command@,
        )) implies #[trigger] order.contains(k as usize) by {
        assert(row_matches(filter, rows[k]));
    }
}

/// The table's list of rows.
pub open spec fn table_order_of(mode: SortMode, filter: Seq<char>, rows: Seq<ProcRow>) -> Seq<usize> {
    choose|o: Seq<usize>| is_table_order(mode, filter, rows, o)
}

/// The pids of the table, top to bottom.
pub open spec fn order_pids(rows: Seq<ProcRow>, order: Seq<usize>) -> Seq<u32> {
    order.map_values(|i: usize| rows[i as int].pid)
}

/// Rows of the table that a page holds by default.
pub const DEFAULT_VISIBLE_ROWS: usize = 20;

/// The interaction state of the process table.
pub struct UiState {
    show_gpu: bool,
    sort_mode: SortMode,
    filter: String,
    selected: usize,
    scroll: usize,
    visible_rows: usize,
}

/// What the interaction state holds.
pub struct UiView {
    pub show_gpu: bool,
    pub sort_mode: SortMode,
    pub filter: Seq<char>,
    /// Position of the selected row in the table.
    pub selected: usize,
    /// Position of the first row shown.
    pub scroll: usize,
    /// Rows a page holds; a page never holds fewer than one row.
    pub visible_rows: usize,
}

impl View for UiState {
    type V = UiView;

    closed spec fn view(&self) -> UiView {
        UiView {
            show_gpu: self.show_gpu,
            sort_mode: self.sort_mode,
            filter: self.filter@,
            selected: self.selected,
            scroll: self.scroll,
            visible_rows: self.visible_rows,
        }
    }
}

/// Rows a page moves by: the rows a page holds, at least one.
pub open spec fn page(visible_rows: usize) -> int {
    if visible_rows >= 1 {
        visible_rows as int
    } else {
        1
    }
}

/// The first row shown after the selection moved to `selected`: scrolled
/// just enough to show it, then pulled back so that a page reaching past
/// the end of the table ends at its last row.
pub open spec fn scroll_for(selected: int, scroll: int, visible_rows: usize, total: int) -> int {
    let v = page(visible_rows);
    let s = if selected < scroll {
        selected
    } else if selected >= scroll + v {
        selected - v + 1
    } else {
        scroll
    };
    if s + v > total {
        if total >= v {
            total - v
        } else {
            0
        }
    } else {
        s
    }
}

/// The state with the selection moved to `selected` and the table scrolled to it.
pub open spec fn moved_to(v: UiView, selected: int, total: int) -> UiView {
    UiView {
        selected: selected as usize,
        scroll: scroll_for(selected, v.scroll as int, v.visible_rows, total) as usize,
        ..v
    }
}

/// The state and the answer after a key, or after no key, on a table
/// whose rows have the pids `pids`, top to bottom. First a selection past
/// the end of a non-empty table moves to its last row. Then: `q` or Esc
/// quits; Down or `j` and Up or `l` move by one row; PageDown and PageUp
/// by a page, staying in the table; Home goes to the top; End to the last
/// row; `s` switches the order and goes to the top; `K` asks to end the
/// selected process; any other key does nothing.
pub open spec fn key_step(v: UiView, pids: Seq<u32>, key: Option<Key>) -> (UiView, InputResult) {
    let total = pids.len() as int;
    let sel = if v.selected >= total && total > 0 {
        total - 1
    } else {
        v.selected as int
    };
    let last = if total > 0 {
        total - 1
    } else {
        0
    };
    let base = UiView { selected: sel as usize, ..v };
    match key {
        None => (base, InputResult::Continue),
        Some(k) => if k == Key::Char('q') || k == Key::Esc {
            (base, InputResult::Quit)
        } else if k == Key::Down || k == Key::Char('j') {
            if total > 0 && sel < total - 1 {
                (moved_to(base, sel + 1, total), InputResult::Continue)
            } else {
                (base, InputResult::Continue)
            }
        } else if k == Key::Up || k == Key::Char('l') {
            if sel > 0 {
                (moved_to(base, sel - 1, total), InputResult::Continue)
            } else {
                (base, InputResult::Continue)
            }
        } else if k == Key::PageDown {
            let to = if sel + page(v.visible_rows) < last {
                sel + page(v.visible_rows)
            } else {
                last
            };
            (moved_to(base, to, total), InputResult::Continue)
        } else if k == Key::PageUp {
            let to = if sel >= page(v.visible_rows) {
                sel - page(v.visible_rows)
            } else {
                0
            };
            (moved_to(base, to, total), InputResult::Continue)
        } else if k == Key::Home {
            (UiView { selected: 0, scroll: 0, ..base }, InputResult::Continue)
        } else if k == Key::End {
            (moved_to(base, last, total), InputResult::Continue)
        } else if k == Key::Char('s') {
            (
                UiView { sort_mode: v.sort_mode.spec_next(), selected: 0, scroll: 0, ..base },
                InputResult::Continue,
            )
        } else if k == Key::Char('K') {
            if total > 0 {
                (base, InputResult::Kill(pids[sel]))
            } else {
                (base, InputResult::Continue)
            }
        } else {
            (base, InputResult::Continue)
        },
    }
}

impl UiState {
    #[verifier::type_invariant]
    spec fn bounded(&self) -> bool {
        &&& self.selected <= usize::MAX / 2
        &&& self.scroll <= usize::MAX / 2
        &&& self.visible_rows <= usize::MAX / 2
    }

    /// The table at its top, ordered as `sort_mode` names it, filtered by
    /// `filter`, with a page of the default size.
    pub fn new(show_gpu: bool, sort_mode: &str, filter: String) -> (s: Self)
        ensures
            s@ == (UiView {
                show_gpu,
                sort_mode: parse_sort(sort_mode@),
                filter: filter@,
                selected: 0,
                scroll: 0,
                visible_rows: DEFAULT_VISIBLE_ROWS,
            }),
    {
        let cs = chars_of(sort_mode);
        let mem = chars_of("mem");
        let pid = chars_of("pid");
        let n = cs.len();
        assert(cs@.subrange(0, n as int) =~= cs@);
        let parsed = if crate::text::range_eq(&cs, 0, n, &mem) {
            SortMode::Mem
        } else if crate::text::range_eq(&cs, 0, n, &pid) {
            SortMode::Pid
        } else {
            SortMode::Cpu
        };
        UiState {
            show_gpu,
            sort_mode: parsed,
            filter,
            selected: 0,
            scroll: 0,
            visible_rows: DEFAULT_VISIBLE_ROWS,
        }
    }

    /// The current order.
    pub fn sort_mode(&self) -> (m: SortMode)
        ensures
            m == self@.sort_mode,
    {
        self.sort_mode
    }

    /// Position of the selected row.
    pub fn selected(&self) -> (i: usize)
        ensures
            i == self@.selected,
    {
        self.selected
    }

    /// Position of the first row shown.
    pub fn scroll(&self) -> (i: usize)
        ensures
            i == self@.scroll,
    {
        self.scroll
    }

    /// Whether the GPU panel was asked for.
    pub fn show_gpu(&self) -> (b: bool)
        ensures
            b == self@.show_gpu,
    {
        self.show_gpu
    }

    /// The filter as the title shows it: a dash where there is none.
    pub fn filter_label(&self) -> (l: String)
        ensures
            l@ == if self@.filter.len() == 0 {
                "—"@
            } else {
                self@.filter
            },
    {
        if self.filter.as_str().is_empty() {
            String::from_str("—")
        } else {
            self.filter.clone()
        }
    }

    /// The rows of the table, as indices into `rows`, in the current order.
    pub fn sorted_procs(&self, rows: &Vec<ProcRow>) -> (order: Vec<usize>)
        ensures
            order@ == table_order_of(self@.sort_mode, self@.filter, rows@),
            is_table_order(self@.sort_mode, self@.filter, rows@, order@),
    {
        let order = table_order(self.sort_mode, &self.filter, rows);
        proof {
            lemma_table_order_unique(
                self@.sort_mode,
                self@.filter,
                rows@,
                order@,
                table_order_of(self@.sort_mode, self@.filter, rows@),
            );
        }
        order
    }

    /// Gets the table ready to be drawn: its rows in the current order.
    /// Drawing leaves a page of zero rows, so that paging moves by one row.
    pub fn prepare_draw(&mut self, rows: &Vec<ProcRow>) -> (order: Vec<usize>)
        ensures
            order@ == table_order_of(old(self)@.sort_mode, old(self)@.filter, rows@),
            final(self)@ == (UiView { visible_rows: 0, ..old(self)@ }),
    {
        proof {
            use_type_invariant(&*self);
        }
        let order = self.sorted_procs(rows);
        self.visible_rows = 0;
        order
    }

    fn clamp_scroll(&mut self, total: usize)
        requires
            total <= usize::MAX / 2,
        ensures
            final(self)@ == (UiView {
                scroll: scroll_for(
                    old(self)@.selected as int,
                    old(self)@.scroll as int,
                    old(self)@.visible_rows,
                    total as int,
                ) as usize,
                ..old(self)@
            }),
    {
        proof {
            use_type_invariant(&*self);
        }
        let visible = if self.visible_rows >= 1 {
            self.visible_rows
        } else {
            1
        };
        if self.selected < self.scroll {
            self.scroll = self.selected;
        } else if self.selected >= self.scroll + visible {
            self.scroll = self.selected - visible + 1;
        }
        if self.scroll + visible > total {
            self.scroll = total.saturating_sub(visible);
        }
    }

    /// Handles one key, or no key where none was pressed, on the table of
    /// `rows`.
    pub fn handle_input(&mut self, rows: &Vec<ProcRow>, key: Option<Key>) -> (r: InputResult)
        requires
            rows.len() <= usize::MAX / 2,
        ensures
            (final(self)@, r) == key_step(
                old(self)@,
                order_pids(rows@, table_order_of(old(self)@.sort_mode, old(self)@.filter, rows@)),
                key,
            ),
    {
        proof {
            use_type_invariant(&*self);
        }
        let order = self.sorted_procs(rows);
        let ghost pids = order_pids(rows@, order@);
        let total = order.len();
        proof {
            lemma_order_len(self@.sort_mode, self@.filter, rows@, order@);
        }
        if self.selected >= total && total > 0 {
            self.selected = total - 1;
        }
        let k = match key {
            None => {
                return InputResult::Continue;
            },
            Some(k) => k,
        };
        let step = if self.visible_rows >= 1 {
            self.visible_rows
        } else {
            1
        };
        let last = total.saturating_sub(1);
        if k == Key::Char('q') || k == Key::Esc {
            return InputResult::Quit;
        } else if k == Key::Down || k == Key::Char('j') {
            if total > 0 && self.selected < total - 1 {
                self.selected = self.selected + 1;
                self.clamp_scroll(total);
            }
        } else if k == Key::Up || k == Key::Char('l') {
            if self.selected > 0 {
                self.selected = self.selected - 1;
                self.clamp_scroll(total);
            }
        } else if k == Key::PageDown {
            let to = self.selected + step;
            self.selected = if to < last {
                to
            } else {
                last
            };
            self.clamp_scroll(total);
        } else if k == Key::PageUp {
            self.selected = self.selected.saturating_sub(step);
            self.clamp_scroll(total);
        } else if k == Key::Home {
            self.selected = 0;
            self.scroll = 0;
        } else if k == Key::End {
            self.selected = last;
            self.clamp_scroll(total);
        } else if k == Key::Char('s') {
            self.sort_mode = self.sort_mode.next();
            self.selected = 0;
            self.scroll = 0;
        } else if k == Key::Char('K') {
            if total > 0 {
                let i = order[self.selected];
                return InputResult::Kill(rows[i].pid);
            }
        }
        InputResult::Continue
    }
}

proof fn lemma_order_len(mode: SortMode, filter: Seq<char>, rows: Seq<ProcRow>, order: Seq<usize>)
    requires
        is_table_order(mode, filter, rows, order),
    ensures
        order.len() <= rows.len(),
{
    let io = order.map_values(|x: usize| x as int);
    assert(io.no_duplicates()) by {
        assert forall|i: int, j: int| 0 <= i < io.len() && 0 <= j < io.len() && i != j implies io[i] != io[j] by {
            if i < j {
                assert(before(mode, rows, order[i] as int, order[j] as int));
            } else {
                assert(before(mode, rows, order[j] as int, order[i] as int));
            }
        }
    }
    io.unique_seq_to_set();
    assert(io.to_set().subset_of(vstd::set_lib::set_int_range(0, rows.len() as int))) by {
        assert forall|x: int| io.to_set().contains(x) implies vstd::set_lib::set_int_range(0, rows.len() as int).contains(x) by {
            assert(io.contains(x));
            let i = choose|i: int| 0 <= i < io.len() && io[i] == x;
            assert(order[i] < rows.len());
        }
    }
    vstd::set_lib::lemma_int_range(0, rows.len() as int);
    vstd::set_lib::lemma_len_subset(io.to_set(), vstd::set_lib::set_int_range(0, rows.len() as int));
}


/// After the selection moved to a row of the table, that row is shown: it
/// lies in the page that starts at the new first row, and that page ends
/// inside the table unless the table is shorter than a page.
pub proof fn lemma_selection_shown(selected: int, scroll: int, visible_rows: usize, total: int)
    requires
        0 <= selected < total,
        0 <= scroll,
    ensures
        ({
            let s = scroll_for(selected, scroll, visible_rows, total);
            &&& 0 <= s <= selected < s + page(visible_rows)
            &&& (s + page(visible_rows) <= total || s == 0)
        }),
{
}

/// The clamp of the first row shown, for any selection: the page ends
/// inside the table where the table holds a page, and starts at the top
/// where it does not; a selection inside the table is shown; and clamping
/// again changes nothing.
pub proof fn lemma_scroll_clamp(selected: int, scroll: int, visible_rows: usize, total: int)
    requires
        0 <= selected,
        0 <= scroll,
        0 <= total,
    ensures
        ({
            let v = page(visible_rows);
            let s = scroll_for(selected, scroll, visible_rows, total);
            &&& 0 <= s
            &&& (total >= v ==> s + v <= total)
            &&& (total < v ==> s == 0)
            &&& (selected < total ==> s <= selected < s + v)
            &&& scroll_for(selected, s, visible_rows, total) == s
        }),
{
}

/// After any key on a non-empty table, the selection is a row of the table.
pub proof fn lemma_selection_in_table(v: UiView, pids: Seq<u32>, key: Option<Key>)
    requires
        pids.len() > 0,
    ensures
        key_step(v, pids, key).0.selected < pids.len(),
{
}

/// The positions of the rows to draw: from the first row shown, as many as
/// the table's area holds inside its border and header, `height - 4`, and
/// none past the end.
pub fn row_window(scroll: usize, total: usize, height: u16) -> (w: (usize, usize))
    ensures
        w.0 == if scroll < total {
            scroll
        } else {
            total
        },
        w.1 == if scroll < total {
            if total - scroll < (if height >= 4 {
                height - 4
            } else {
                0
            }) {
                total as int
            } else {
                scroll + (if height >= 4 {
                    height - 4
                } else {
                    0
                })
            }
        } else {
            total as int
        },
{
    let visible = height.saturating_sub(4) as usize;
    if scroll < total {
        if total - scroll < visible {
            (scroll, total)
        } else {
            (scroll, scroll + visible)
        }
    } else {
        (total, total)
    }
}

/// The position shown in the table's title: ` [i/n] ` for the selected row
/// `i` counted from 1 of `n`, or ` [0/0] ` for an empty table.
pub open spec fn selection_text(selected: nat, total: nat) -> Seq<char> {
    if total > 0 {
        " ["@ + decimal(selected + 1) + "/"@ + decimal(total) + "] "@
    } else {
        " [0/0] "@
    }
}

/// The position shown in the table's title.
pub fn selected_info(selected: usize, total: usize) -> (t: String)
    requires
        total == 0 || selected < usize::MAX,
    ensures
        t@ == selection_text(selected as nat, total as nat),
{
    if total > 0 {
        let mut t = String::from_str(" [");
        push_decimal(&mut t, (selected + 1) as u64);
        t.append("/");
        push_decimal(&mut t, total as u64);
        t.append("] ");
        t
    } else {
        String::from_str(" [0/0] ")
    }
}

/// Seconds written as days, hours, minutes and seconds: `{d}d HH:MM:SS`,
/// or `HH:MM:SS` under one day.
pub open spec fn uptime_text(total: nat) -> Seq<char> {
    let days = total / 86400;
    let clock = zero_padded((total % 86400) / 3600, 2) + ":"@ + zero_padded((total % 3600) / 60, 2)
        + ":"@ + zero_padded(total % 60, 2);
    if days > 0 {
        decimal(days) + "d "@ + clock
    } else {
        clock
    }
}

/// The uptime as the header shows it, from whole seconds.
pub fn fmt_uptime(total: u64) -> (t: String)
    ensures
        t@ == uptime_text(total as nat),
{
    let days = total / 86400;
    let hours = (total % 86400) / 3600;
    let mins = (total % 3600) / 60;
    let secs = total % 60;
    let mut t = String::new();
    if days > 0 {
        push_decimal(&mut t, days);
        t.append("d ");
    }
    push_two_digits(&mut t, hours);
    t.append(":");
    push_two_digits(&mut t, mins);
    t.append(":");
    push_two_digits(&mut t, secs);
    proof {
        if days > 0 {
            assert(t@ =~= uptime_text(total as nat));
        } else {
            assert(t@ =~= uptime_text(total as nat));
        }
    }
    t
}

/// The unit a byte count is shown in.
#[derive(Clone, Copy, Debug, PartialEq, Eq, Structural)]
pub enum ByteUnit {
    B,
    KB,
    MB,
    GB,
}

/// The largest unit that the count reaches, powers of 1024.
pub fn byte_unit(bytes: u64) -> (u: ByteUnit)
    ensures
        u == if bytes >= 1024 * 1024 * 1024 {
            ByteUnit::GB
        } else if bytes >= 1024 * 1024 {
            ByteUnit::MB
        } else if bytes >= 1024 {
            ByteUnit::KB
        } else {
            ByteUnit::B
        },
{
    if bytes >= 1024 * 1024 * 1024 {
        ByteUnit::GB
    } else if bytes >= 1024 * 1024 {
        ByteUnit::MB
    } else if bytes >= 1024 {
        ByteUnit::KB
    } else {
        ByteUnit::B
    }
}

/// A gauge's color.
#[derive(Clone, Copy, Debug, PartialEq, Eq, Structural)]
pub enum GaugeColor {
    Red,
    Yellow,
    Green,
    Cyan,
}

/// The color of a memory or swap gauge filled to `pct` percent: red from
/// 85, yellow from 60, cyan below.
pub fn mem_color(pct: u16) -> (c: GaugeColor)
    ensures
        c == if pct >= 85 {
            GaugeColor::Red
        } else if pct >= 60 {
            GaugeColor::Yellow
        } else {
            GaugeColor::Cyan
        },
{
    if pct >= 85 {
        GaugeColor::Red
    } else if pct >= 60 {
        GaugeColor::Yellow
    } else {
        GaugeColor::Cyan
    }
}


/// The selection after a key, before the key moves it: a selection past the
/// end of a non-empty table is on its last row.
pub open spec fn clamped_selection(v: UiView, total: int) -> int {
    if v.selected >= total && total > 0 {
        total - 1
    } else {
        v.selected as int
    }
}

/// On a non-empty table, Home, End, PageUp, PageDown and `s` put the
/// selection on a row of the table and scroll so that the selected row is
/// on the page shown. Home and `s` go to the top with the first row shown,
/// `s` also switching to the next order; End goes to the last row; PageDown
/// and PageUp move by a page, stopping at the last and at the first row.
/// The filter and the page size stay, and the loop goes on.
pub proof fn lemma_jump_keys_show_selection(v: UiView, pids: Seq<u32>, k: Key)
    requires
        0 < pids.len() <= usize::MAX,
        k == Key::Home || k == Key::End || k == Key::PageUp || k == Key::PageDown || k == Key::Char(
            's',
        ),
    ensures
        ({
            let (w, r) = key_step(v, pids, Some(k));
            let n = pids.len() as int;
            let sel = clamped_selection(v, n);
            &&& r == InputResult::Continue
            &&& w.selected < n
            &&& w.scroll <= w.selected < w.scroll + page(w.visible_rows)
            &&& w.filter == v.filter && w.visible_rows == v.visible_rows && w.show_gpu == v.show_gpu
            &&& (k == Key::Char('s') ==> w.sort_mode == v.sort_mode.spec_next() && w.selected == 0
                && w.scroll == 0)
            &&& (k != Key::Char('s') ==> w.sort_mode == v.sort_mode)
            &&& (k == Key::Home ==> w.selected == 0 && w.scroll == 0)
            &&& (k == Key::End ==> w.selected == n - 1)
            &&& (k == Key::PageDown ==> w.selected == if sel + page(v.visible_rows) < n - 1 {
                sel + page(v.visible_rows)
            } else {
                n - 1
            })
            &&& (k == Key::PageUp ==> w.selected == if sel >= page(v.visible_rows) {
                sel - page(v.visible_rows)
            } else {
                0
            })
        }),
{
    let n = pids.len() as int;
    let sel = clamped_selection(v, n);
    let base = UiView { selected: sel as usize, ..v };
    if k == Key::End {
        lemma_scroll_clamp(n - 1, v.scroll as int, v.visible_rows, n);
    } else if k == Key::PageDown {
        let to = if sel + page(v.visible_rows) < n - 1 {
            sel + page(v.visible_rows)
        } else {
            n - 1
        };
        lemma_scroll_clamp(to, v.scroll as int, v.visible_rows, n);
    } else if k == Key::PageUp {
        let to = if sel >= page(v.visible_rows) {
            sel - page(v.visible_rows)
        } else {
            0
        };
        lemma_scroll_clamp(to, v.scroll as int, v.visible_rows, n);
    }
}

/// On a non-empty table, Down (`j`) moves the selection one row down unless
/// it is on the last row, and Up (`l`) one row up unless it is on the first;
/// where the selection moves, the selected row is on the page shown. The
/// order, the filter and the page size stay, and the loop goes on.
pub proof fn lemma_arrow_keys(v: UiView, pids: Seq<u32>, k: Key)
    requires
        0 < pids.len() <= usize::MAX,
        k == Key::Down || k == Key::Char('j') || k == Key::Up || k == Key::Char('l'),
    ensures
        ({
            let (w, r) = key_step(v, pids, Some(k));
            let n = pids.len() as int;
            let sel = clamped_selection(v, n);
            &&& r == InputResult::Continue
            &&& w.sort_mode == v.sort_mode && w.filter == v.filter && w.visible_rows
                == v.visible_rows
            &&& ((k == Key::Down || k == Key::Char('j')) ==> w.selected == if sel < n - 1 {
                sel + 1
            } else {
                sel
            })
            &&& ((k == Key::Up || k == Key::Char('l')) ==> w.selected == if sel > 0 {
                sel - 1
            } else {
                sel
            })
            &&& (w.selected != sel ==> w.scroll <= w.selected < w.scroll + page(w.visible_rows))
        }),
{
    let n = pids.len() as int;
    let sel = clamped_selection(v, n);
    if (k == Key::Down || k == Key::Char('j')) && sel < n - 1 {
        lemma_scroll_clamp(sel + 1, v.scroll as int, v.visible_rows, n);
    }
    if (k == Key::Up || k == Key::Char('l')) && sel > 0 {
        lemma_scroll_clamp(sel - 1, v.scroll as int, v.visible_rows, n);
    }
}

/// On a non-empty table, `q` and Esc quit and `K` asks to end the process
/// of the selected row, the selection first brought back into the table;
/// neither changes the order, the filter or the scrolling.
pub proof fn lemma_quit_and_kill_keys(v: UiView, pids: Seq<u32>, k: Key)
    requires
        pids.len() > 0,
        k == Key::Char('q') || k == Key::Esc || k == Key::Char('K'),
    ensures
        ({
            let (w, r) = key_step(v, pids, Some(k));
            let n = pids.len() as int;
            let sel = clamped_selection(v, n);
            &&& w.selected == sel && w.scroll == v.scroll && w.sort_mode == v.sort_mode && w.filter
                == v.filter
            &&& (k == Key::Char('K') ==> r == InputResult::Kill(pids[sel]))
            &&& (k != Key::Char('K') ==> r == InputResult::Quit)
        }),
{
}

/// On any table, empty or not: `s` switches to the next order and goes to
/// the top, Home goes to the top, `q` and Esc quit, and every key but `s`
/// keeps the order; no key changes the filter or the page size.
pub proof fn lemma_keys_on_any_table(v: UiView, pids: Seq<u32>, key: Option<Key>)
    ensures
        ({
            let (w, r) = key_step(v, pids, key);
            &&& (key == Some(Key::Char('s')) ==> r == InputResult::Continue && w.sort_mode
                == v.sort_mode.spec_next() && w.selected == 0 && w.scroll == 0)
            &&& (key == Some(Key::Home) ==> r == InputResult::Continue && w.selected == 0 && w.scroll
                == 0)
            &&& (key == Some(Key::Char('q')) || key == Some(Key::Esc) ==> r == InputResult::Quit)
            &&& (key != Some(Key::Char('s')) ==> w.sort_mode == v.sort_mode)
            &&& w.filter == v.filter && w.visible_rows == v.visible_rows
        }),
{
}

/// The uptime text splits the seconds into days, hours under 24, minutes
/// under 60 and seconds under 60 that add up to the total: it is the days
/// and `d ` where there is at least one day, then the hours, minutes and
/// seconds, each in two digits, separated by `:`.
pub proof fn lemma_uptime_parts(total: nat, d: nat, h: nat, m: nat, sec: nat)
    requires
        h < 24,
        m < 60,
        sec < 60,
        total == d * 86400 + h * 3600 + m * 60 + sec,
    ensures
        uptime_text(total) == (if d > 0 {
            decimal(d) + "d "@
        } else {
            Seq::<char>::empty()
        }) + zero_padded(h, 2) + ":"@ + zero_padded(m, 2) + ":"@ + zero_padded(sec, 2),
{
    let t = total as int;
    let (di, hi, mi, si) = (d as int, h as int, m as int, sec as int);
    let day_rest: int = hi * 3600 + mi * 60 + si;
    let hour_rest: int = mi * 60 + si;
    lemma_fundamental_div_mod_converse(t, 86400, di, day_rest);
    lemma_fundamental_div_mod_converse(day_rest, 3600, hi, hour_rest);
    assert(t == (di * 24 + hi) * 3600 + hour_rest) by (nonlinear_arith)
        requires
            t == di * 86400 + hi * 3600 + mi * 60 + si,
            hour_rest == mi * 60 + si,
    ;
    lemma_fundamental_div_mod_converse(t, 3600, di * 24 + hi, hour_rest);
    lemma_fundamental_div_mod_converse(hour_rest, 60, mi, si);
    assert(t == ((di * 24 + hi) * 60 + mi) * 60 + si) by (nonlinear_arith)
        requires
            t == di * 86400 + hi * 3600 + mi * 60 + si,
    ;
    lemma_fundamental_div_mod_converse(t, 60, (di * 24 + hi) * 60 + mi, si);
    if d == 0 {
        assert(Seq::<char>::empty() + zero_padded(h, 2) =~= zero_padded(h, 2));
    }
}

} // verus!
