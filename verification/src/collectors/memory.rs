//! Memory accounting from `/proc/meminfo`.

use crate::collectors::cpu::sat_sub;
use crate::models::MemoryStats;
use crate::text::{
    chars_of, line_ranges, pick, range_eq, ranges_within, split_lines, split_ws, u64_or_zero,
    u64_or_zero_range, ws_tokens,
};
use vstd::prelude::*;

verus! {

/// The fields of `/proc/meminfo` that the memory figures are made of, each
/// the last value read for its key, in bytes.
#[derive(Clone, Copy, Debug, PartialEq, Eq, Structural)]
pub struct MemFields {
    pub mem_total: u64,
    pub mem_free: u64,
    pub buffers: u64,
    pub cached: u64,
    pub s_reclaimable: u64,
    pub shmem: u64,
    pub swap_total: u64,
    pub swap_free: u64,
}

/// All fields zero, before any line is read.
pub open spec fn no_fields() -> MemFields {
    MemFields {
        mem_total: 0,
        mem_free: 0,
        buffers: 0,
        cached: 0,
        s_reclaimable: 0,
        shmem: 0,
        swap_total: 0,
        swap_free: 0,
    }
}

/// The value of a line of at least two fields: its second field read as a
/// number of kibibytes, in bytes.
pub open spec fn line_bytes(t: Seq<Seq<char>>) -> int {
    u64_or_zero(t[1]) * 1024
}

/// The fields after reading one more line of `/proc/meminfo`.
pub open spec fn mem_step(acc: MemFields, line: Seq<char>) -> MemFields {
    let t = split_ws(line);
    if t.len() < 2 {
        acc
    } else {
        let v = line_bytes(t) as u64;
        let k = t[0];
        if k == "MemTotal:"@ {
            MemFields { mem_total: v, ..acc }
        } else if k == "MemFree:"@ {
            MemFields { mem_free: v, ..acc }
        } else if k == "Buffers:"@ {
            MemFields { buffers: v, ..acc }
        } else if k == "Cached:"@ {
            MemFields { cached: v, ..acc }
        } else if k == "SReclaimable:"@ {
            MemFields { s_reclaimable: v, ..acc }
        } else if k == "Shmem:"@ {
            MemFields { shmem: v, ..acc }
        } else if k == "SwapTotal:"@ {
            MemFields { swap_total: v, ..acc }
        } else if k == "SwapFree:"@ {
            MemFields { swap_free: v, ..acc }
        } else {
            acc
        }
    }
}

/// The fields after reading `lines` in order.
pub open spec fn mem_scan(lines: Seq<Seq<char>>) -> MemFields
    decreases lines.len(),
{
    if lines.len() == 0 {
        no_fields()
    } else {
        mem_step(mem_scan(lines.drop_last()), lines.last())
    }
}

/// Every line's value, in bytes, fits in a `u64`.
pub open spec fn lines_fit(lines: Seq<Seq<char>>) -> bool {
    forall|i: int|
        0 <= i < lines.len() && split_ws(#[trigger] lines[i]).len() >= 2 ==> line_bytes(
            split_ws(lines[i]),
        ) <= u64::MAX
}

/// The fields that `/proc/meminfo` gives.
pub open spec fn meminfo_fields(text: Seq<char>) -> MemFields {
    mem_scan(split_lines(text))
}

/// The text can be read without a product or sum leaving the range of `u64`:
/// every value in bytes fits, page cache plus reclaimable slab fits, and
/// shared memory does not exceed that sum.
pub open spec fn meminfo_in_range(text: Seq<char>) -> bool {
    let f = meminfo_fields(text);
    &&& lines_fit(split_lines(text))
    &&& f.cached + f.s_reclaimable <= u64::MAX
    &&& f.shmem <= f.cached + f.s_reclaimable
}

/// The memory figures made of the fields: cache counts reclaimable slab and
/// not shared memory; used memory is what is neither free, nor buffers, nor
/// cache; used swap is what is not free.
pub open spec fn memory_stats(f: MemFields) -> MemoryStats {
    let cached = (f.cached + f.s_reclaimable - f.shmem) as u64;
    MemoryStats {
        total: f.mem_total,
        used: sat_sub(sat_sub(sat_sub(f.mem_total as int, f.mem_free as int) as int, f.buffers as int) as int, cached as int),
        free: f.mem_free,
        shared: f.shmem,
        buffers: f.buffers,
        cached,
        swap_total: f.swap_total,
        swap_used: sat_sub(f.swap_total as int, f.swap_free as int),
        swap_free: f.swap_free,
    }
}

struct MemKeys {
    mem_total: Vec<char>,
    mem_free: Vec<char>,
    buffers: Vec<char>,
    cached: Vec<char>,
    s_reclaimable: Vec<char>,
    shmem: Vec<char>,
    swap_total: Vec<char>,
    swap_free: Vec<char>,
}

impl MemKeys {
    spec fn wf(&self) -> bool {
        &&& self.mem_total@ == "MemTotal:"@
        &&& self.mem_free@ == "MemFree:"@
        &&& self.buffers@ == "Buffers:"@
        &&& self.cached@ == "Cached:"@
        &&& self.s_reclaimable@ == "SReclaimable:"@
        &&& self.shmem@ == "Shmem:"@
        &&& self.swap_total@ == "SwapTotal:"@
        &&& self.swap_free@ == "SwapFree:"@
    }

    fn new() -> (k: Self)
        ensures
            k.wf(),
    {
        MemKeys {
            mem_total: chars_of("MemTotal:"),
            mem_free: chars_of("MemFree:"),
            buffers: chars_of("Buffers:"),
            cached: chars_of("Cached:"),
            s_reclaimable: chars_of("SReclaimable:"),
            shmem: chars_of("Shmem:"),
            swap_total: chars_of("SwapTotal:"),
            swap_free: chars_of("SwapFree:"),
        }
    }
}

/// Reads the fields of `/proc/meminfo`; `None` where a value in bytes does
/// not fit in a `u64`.
fn scan_meminfo(text: &str) -> (r: Option<MemFields>)
    ensures
        r is Some <==> lines_fit(split_lines(text@)),
        r matches Some(f) ==> f == meminfo_fields(text@),
{
    let cs = chars_of(text);
    let lines = line_ranges(&cs);
    let keys = MemKeys::new();
    let ghost ls = pick(cs@, lines@);
    let mut f = MemFields {
        mem_total: 0,
        mem_free: 0,
        buffers: 0,
        cached: 0,
        s_reclaimable: 0,
        shmem: 0,
        swap_total: 0,
        swap_free: 0,
    };
    let mut i: usize = 0;
    while i < lines.len()
        invariant
            i <= lines.len(),
            keys.wf(),
            ls == pick(cs@, lines@),
            ls == split_lines(text@),
            ranges_within(lines@, 0, cs.len() as int),
            f == mem_scan(ls.take(i as int)),
            lines_fit(ls.take(i as int)),
        decreases lines.len() - i,
    {
        let (a, b) = lines[i];
        let ghost line = cs@.subrange(a as int, b as int);
        assert(ls.take(i + 1).drop_last() =~= ls.take(i as int));
        assert(ls.take(i + 1).last() == line);
        let t = ws_tokens(&cs, a, b);
        if t.len() >= 2 {
            let raw = u64_or_zero_range(&cs, t[1].0, t[1].1);
            if raw > u64::MAX / 1024 {
                assert(!lines_fit(ls)) by {
                    assert(ls[i as int] == line);
                }
                return None;
            }
            let v = raw * 1024;
            let (ka, kb) = t[0];
            if range_eq(&cs, ka, kb, &keys.mem_total) {
                f.mem_total = v;
            } else if range_eq(&cs, ka, kb, &keys.mem_free) {
                f.mem_free = v;
            } else if range_eq(&cs, ka, kb, &keys.buffers) {
                f.buffers = v;
            } else if range_eq(&cs, ka, kb, &keys.cached) {
                f.cached = v;
            } else if range_eq(&cs, ka, kb, &keys.s_reclaimable) {
                f.s_reclaimable = v;
            } else if range_eq(&cs, ka, kb, &keys.shmem) {
                f.shmem = v;
            } else if range_eq(&cs, ka, kb, &keys.swap_total) {
                f.swap_total = v;
            } else if range_eq(&cs, ka, kb, &keys.swap_free) {
                f.swap_free = v;
            }
        }
        proof {
            assert forall|j: int|
                0 <= j < i + 1 && split_ws(#[trigger] ls.take(i + 1)[j]).len() >= 2 implies line_bytes(
                split_ws(ls.take(i + 1)[j]),
            ) <= u64::MAX by {
                if j < i {
                    assert(ls.take(i + 1)[j] == ls.take(i as int)[j]);
                }
            }
        }
        i = i + 1;
    }
    assert(ls.take(lines.len() as int) =~= ls);
    Some(f)
}

/// Whether `/proc/meminfo` with this text can be read without a number
/// leaving the range of `u64`.
pub fn meminfo_ok(text: &str) -> (b: bool)
    ensures
        b == meminfo_in_range(text@),
{
    match scan_meminfo(text) {
        Some(f) => {
            let c = f.cached as u128 + f.s_reclaimable as u128;
            c <= u64::MAX as u128 && f.shmem as u128 <= c
        },
        None => false,
    }
}

/// The memory figures of the text of `/proc/meminfo`.
pub fn get_memory_usage(text: &str) -> (s: MemoryStats)
    requires
        meminfo_in_range(text@),
    ensures
        s == memory_stats(meminfo_fields(text@)),
{
    let f = match scan_meminfo(text) {
        Some(f) => f,
        None => {
            return MemoryStats {
                total: 0,
                used: 0,
                free: 0,
                shared: 0,
                buffers: 0,
                cached: 0,
                swap_total: 0,
                swap_used: 0,
                swap_free: 0,
            };
        },
    };
    let cached = f.cached + f.s_reclaimable - f.shmem;
    MemoryStats {
        total: f.mem_total,
        used: f.mem_total.saturating_sub(f.mem_free).saturating_sub(f.buffers).saturating_sub(cached),
        free: f.mem_free,
        shared: f.shmem,
        buffers: f.buffers,
        cached,
        swap_total: f.swap_total,
        swap_used: f.swap_total.saturating_sub(f.swap_free),
        swap_free: f.swap_free,
    }
}


/// Used memory never exceeds total memory, nor used swap total swap.
pub proof fn lemma_used_within_total(f: MemFields)
    ensures
        memory_stats(f).used <= memory_stats(f).total,
        memory_stats(f).swap_used <= memory_stats(f).swap_total,
{
}


/// The memory figures in terms of the fields: total, free, buffers, shared
/// and the swap sizes as read; cache is page cache plus reclaimable slab
/// minus shared memory; used memory is total minus free, buffers and cache,
/// or 0 where those exceed the total; used swap is total minus free swap,
/// or 0.
pub proof fn lemma_memory_figures(f: MemFields)
    requires
        f.shmem <= f.cached + f.s_reclaimable <= u64::MAX,
    ensures
        ({
            let m = memory_stats(f);
            let cache = f.cached + f.s_reclaimable - f.shmem;
            &&& m.total == f.mem_total && m.free == f.mem_free && m.buffers == f.buffers
            &&& m.shared == f.shmem && m.swap_total == f.swap_total && m.swap_free == f.swap_free
            &&& m.cached == cache
            &&& m.used == if f.mem_total >= f.mem_free + f.buffers + cache {
                f.mem_total - f.mem_free - f.buffers - cache
            } else {
                0
            }
            &&& m.swap_used == if f.swap_total >= f.swap_free {
                f.swap_total - f.swap_free
            } else {
                0
            }
        }),
{
}

proof fn lemma_mem_scan_concat(a: Seq<Seq<char>>, line: Seq<char>)
    ensures
        mem_scan(a + seq![line]) == mem_step(mem_scan(a), line),
{
    assert((a + seq![line]).drop_last() =~= a);
    assert((a + seq![line]).last() == line);
}

/// What one line of `/proc/meminfo` does to the fields: a line of at least
/// two fields whose first field is one of the keys `MemTotal:`, `MemFree:`,
/// `Buffers:`, `Cached:`, `SReclaimable:`, `Shmem:`, `SwapTotal:`,
/// `SwapFree:` sets that key's field to its second field times 1024 (0 where
/// it is not a number), and leaves the others; any other line changes
/// nothing.
pub proof fn lemma_meminfo_per_line(a: Seq<Seq<char>>, line: Seq<char>)
    requires
        split_ws(line).len() >= 2 ==> u64_or_zero(split_ws(line)[1]) * 1024 <= u64::MAX,
    ensures
        ({
            let before = mem_scan(a);
            let after = mem_scan(a + seq![line]);
            let t = split_ws(line);
            let v = if t.len() >= 2 {
                u64_or_zero(t[1]) * 1024
            } else {
                0
            };
            &&& after.mem_total == if t.len() >= 2 && t[0] == "MemTotal:"@ {
                v
            } else {
                before.mem_total as int
            }
            &&& after.mem_free == if t.len() >= 2 && t[0] == "MemFree:"@ {
                v
            } else {
                before.mem_free as int
            }
            &&& after.buffers == if t.len() >= 2 && t[0] == "Buffers:"@ {
                v
            } else {
                before.buffers as int
            }
            &&& after.cached == if t.len() >= 2 && t[0] == "Cached:"@ {
                v
            } else {
                before.cached as int
            }
            &&& after.s_reclaimable == if t.len() >= 2 && t[0] == "SReclaimable:"@ {
                v
            } else {
                before.s_reclaimable as int
            }
            &&& after.shmem == if t.len() >= 2 && t[0] == "Shmem:"@ {
                v
            } else {
                before.shmem as int
            }
            &&& after.swap_total == if t.len() >= 2 && t[0] == "SwapTotal:"@ {
                v
            } else {
                before.swap_total as int
            }
            &&& after.swap_free == if t.len() >= 2 && t[0] == "SwapFree:"@ {
                v
            } else {
                before.swap_free as int
            }
        }),
{
    lemma_mem_scan_concat(a, line);
    reveal_strlit("MemTotal:");
    reveal_strlit("MemFree:");
    reveal_strlit("Buffers:");
    reveal_strlit("Cached:");
    reveal_strlit("SReclaimable:");
    reveal_strlit("Shmem:");
    reveal_strlit("SwapTotal:");
    reveal_strlit("SwapFree:");
    let ks = seq![
        "MemTotal:"@,
        "MemFree:"@,
        "Buffers:"@,
        "Cached:"@,
        "SReclaimable:"@,
        "Shmem:"@,
        "SwapTotal:"@,
        "SwapFree:"@,
    ];
    assert forall|i: int, j: int| 0 <= i < j < 8 implies ks[i] != ks[j] by {
        if ks[i].len() == ks[j].len() {
            assert(ks[i][0] != ks[j][0]);
        }
    }
}

} // verus!
