//! Root file system space and block device traffic from `/proc/diskstats`.

use crate::collectors::cpu::sat_sub;
use crate::models::DiskStats;
use crate::text::{
    chars_of, line_ranges, pick, range_starts_with, ranges_within, split_lines, split_ws,
    starts_with, u64_or_zero, u64_or_zero_range, ws_tokens,
};
use vstd::prelude::*;

verus! {

/// The block counts of a file system, as `statvfs` reports them.
#[derive(Clone, Copy, Debug, PartialEq, Eq, Structural)]
pub struct FsSpace {
    /// Size of the file system, in fragments.
    pub blocks: u64,
    /// Fragments free to unprivileged users.
    pub blocks_available: u64,
    /// Fragment size, in bytes.
    pub fragment_size: u64,
}

/// A line of `/proc/diskstats` that counts: at least fourteen fields, and a
/// device name that starts neither with `loop` nor with `ram`.
pub open spec fn counts_device(t: Seq<Seq<char>>) -> bool {
    t.len() >= 14 && !starts_with(t[2], "loop"@) && !starts_with(t[2], "ram"@)
}

/// Sectors read and written over the counted lines among `lines`.
pub open spec fn sector_sums(lines: Seq<Seq<char>>) -> (int, int)
    decreases lines.len(),
{
    if lines.len() == 0 {
        (0, 0)
    } else {
        let prev = sector_sums(lines.drop_last());
        let t = split_ws(lines.last());
        if counts_device(t) {
            (prev.0 + u64_or_zero(t[5]), prev.1 + u64_or_zero(t[9]))
        } else {
            prev
        }
    }
}

/// Sectors read and written by all counted devices of `/proc/diskstats`.
pub open spec fn diskstats_sectors(text: Seq<char>) -> (int, int) {
    sector_sums(split_lines(text))
}

/// The file system's size and free space in bytes, and the device traffic
/// in bytes, all fit in a `u64`.
pub open spec fn disk_in_range(fs: Option<FsSpace>, text: Seq<char>) -> bool {
    let s = diskstats_sectors(text);
    &&& (fs matches Some(f) ==> f.blocks * f.fragment_size <= u64::MAX && f.blocks_available
        * f.fragment_size <= u64::MAX)
    &&& s.0 * 512 <= u64::MAX
    &&& s.1 * 512 <= u64::MAX
}

proof fn lemma_sector_sums_bounded(lines: Seq<Seq<char>>)
    ensures
        0 <= sector_sums(lines).0 <= lines.len() * u64::MAX,
        0 <= sector_sums(lines).1 <= lines.len() * u64::MAX,
    decreases lines.len(),
{
    if lines.len() > 0 {
        lemma_sector_sums_bounded(lines.drop_last());
    }
}

/// Sectors read and written, summed over the counted lines of `text`.
fn scan_diskstats(text: &str) -> (r: (u128, u128))
    ensures
        r.0 == diskstats_sectors(text@).0,
        r.1 == diskstats_sectors(text@).1,
{
    let cs = chars_of(text);
    let lines = line_ranges(&cs);
    let lp = chars_of("loop");
    let rm = chars_of("ram");
    let ghost ls = pick(cs@, lines@);
    let mut read: u128 = 0;
    let mut write: u128 = 0;
    let mut i: usize = 0;
    while i < lines.len()
        invariant
            i <= lines.len(),
            lp@ == "loop"@,
            rm@ == "ram"@,
            ls == pick(cs@, lines@),
            ls == split_lines(text@),
            ranges_within(lines@, 0, cs.len() as int),
            read == sector_sums(ls.take(i as int)).0,
            write == sector_sums(ls.take(i as int)).1,
        decreases lines.len() - i,
    {
        let (a, b) = lines[i];
        assert(ls.take(i + 1).drop_last() =~= ls.take(i as int));
        assert(ls.take(i + 1).last() == cs@.subrange(a as int, b as int));
        proof {
            lemma_sector_sums_bounded(ls.take(i as int));
            assert(i * u64::MAX <= usize::MAX * u64::MAX) by (nonlinear_arith)
                requires
                    i <= usize::MAX,
            ;
        }
        let t = ws_tokens(&cs, a, b);
        if t.len() >= 14 && !range_starts_with(&cs, t[2].0, t[2].1, &lp) && !range_starts_with(
            &cs,
            t[2].0,
            t[2].1,
            &rm,
        ) {
            let r = u64_or_zero_range(&cs, t[5].0, t[5].1);
            let w = u64_or_zero_range(&cs, t[9].0, t[9].1);
            read = read + r as u128;
            write = write + w as u128;
        }
        i = i + 1;
    }
    assert(ls.take(lines.len() as int) =~= ls);
    (read, write)
}

/// Whether the file system figures and `/proc/diskstats` with this text can
/// be read without a number leaving the range of `u64`.
pub fn disk_ok(fs: Option<FsSpace>, text: &str) -> (b: bool)
    ensures
        b == disk_in_range(fs, text@),
{
    if let Some(f) = fs {
        if f.blocks.checked_mul(f.fragment_size).is_none() || f.blocks_available.checked_mul(
            f.fragment_size,
        ).is_none() {
            return false;
        }
    }
    let (r, w) = scan_diskstats(text);
    r <= (u64::MAX / 512) as u128 && w <= (u64::MAX / 512) as u128
}

/// Keeps the previous traffic counters to turn them into rates.
pub struct DiskCollector {
    last_read_bytes: u64,
    last_write_bytes: u64,
}

/// Bytes read and written per reading: the difference to the previous
/// reading, or zero while no bytes were read before.
pub open spec fn disk_speed(last_read: u64, last_write: u64, read: u64, write: u64) -> (u64, u64) {
    if last_read > 0 {
        (sat_sub(read as int, last_read as int), sat_sub(write as int, last_write as int))
    } else {
        (0, 0)
    }
}

/// The statistics of one reading, given the previous traffic counters.
pub open spec fn disk_stats(
    last_read: u64,
    last_write: u64,
    fs: Option<FsSpace>,
    text: Seq<char>,
) -> DiskStats {
    let s = diskstats_sectors(text);
    let read = (s.0 * 512) as u64;
    let write = (s.1 * 512) as u64;
    let (total, free) = match fs {
        Some(f) => ((f.blocks * f.fragment_size) as u64, (f.blocks_available * f.fragment_size) as u64),
        None => (0u64, 0u64),
    };
    let sp = disk_speed(last_read, last_write, read, write);
    DiskStats {
        total,
        used: sat_sub(total as int, free as int),
        free,
        read_bytes: read,
        write_bytes: write,
        read_speed: sp.0,
        write_speed: sp.1,
    }
}

impl DiskCollector {
    /// Bytes read at the previous reading.
    pub closed spec fn prev_read(&self) -> u64 {
        self.last_read_bytes
    }

    /// Bytes written at the previous reading.
    pub closed spec fn prev_write(&self) -> u64 {
        self.last_write_bytes
    }

    /// A collector that has read nothing.
    pub fn new() -> (c: Self)
        ensures
            c.prev_read() == 0,
            c.prev_write() == 0,
    {
        DiskCollector { last_read_bytes: 0, last_write_bytes: 0 }
    }

    /// Takes in one reading: the file system's block counts, where
    /// `statvfs` answered, and the text of `/proc/diskstats`. The traffic
    /// counters of this reading replace the previous ones.
    pub fn get_disk_usage(&mut self, fs: Option<FsSpace>, text: &str) -> (s: DiskStats)
        requires
            disk_in_range(fs, text@),
        ensures
            s == disk_stats(old(self).prev_read(), old(self).prev_write(), fs, text@),
            final(self).prev_read() == s.read_bytes,
            final(self).prev_write() == s.write_bytes,
            s.read_bytes == diskstats_sectors(text@).0 * 512,
            s.write_bytes == diskstats_sectors(text@).1 * 512,
            old(self).prev_read() == 0 ==> s.read_speed == 0 && s.write_speed == 0,
            old(self).prev_read() > 0 ==> s.read_speed == sat_sub(
                s.read_bytes as int,
                old(self).prev_read() as int,
            ) && s.write_speed == sat_sub(s.write_bytes as int, old(self).prev_write() as int),
            match fs {
                Some(f) => s.total == f.blocks * f.fragment_size && s.free == f.blocks_available
                    * f.fragment_size && s.used == sat_sub(s.total as int, s.free as int),
                None => s.total == 0 && s.free == 0 && s.used == 0,
            },
    {
        let mut stats = DiskStats {
            total: 0,
            used: 0,
            free: 0,
            read_bytes: 0,
            write_bytes: 0,
            read_speed: 0,
            write_speed: 0,
        };
        if let Some(f) = fs {
            stats.total = f.blocks * f.fragment_size;
            stats.free = f.blocks_available * f.fragment_size;
            stats.used = stats.total.saturating_sub(stats.free);
        }
        let (r, w) = scan_diskstats(text);
        let read = (r as u64) * 512;
        let write = (w as u64) * 512;
        if self.last_read_bytes > 0 {
            stats.read_speed = read.saturating_sub(self.last_read_bytes);
            stats.write_speed = write.saturating_sub(self.last_write_bytes);
        }
        stats.read_bytes = read;
        stats.write_bytes = write;
        self.last_read_bytes = read;
        self.last_write_bytes = write;
        stats
    }
}

/// Rates are reported only once traffic has been seen: while the previous
/// reading read no bytes, both rates are zero; after that, each rate is the
/// growth of its counter since the previous reading.
pub proof fn lemma_disk_speed(last_read: u64, last_write: u64, read: u64, write: u64)
    ensures
        last_read == 0 ==> disk_speed(last_read, last_write, read, write) == (0u64, 0u64),
        last_read > 0 && last_read <= read && last_write <= write ==> disk_speed(
            last_read,
            last_write,
            read,
            write,
        ) == ((read - last_read) as u64, (write - last_write) as u64),
{
}


/// Sectors read and written add up over consecutive pieces of
/// `/proc/diskstats`: the order in which lines are taken does not matter
/// beyond which lines there are.
pub proof fn lemma_sector_sums_concat(a: Seq<Seq<char>>, b: Seq<Seq<char>>)
    ensures
        sector_sums(a + b).0 == sector_sums(a).0 + sector_sums(b).0,
        sector_sums(a + b).1 == sector_sums(a).1 + sector_sums(b).1,
    decreases b.len(),
{
    if b.len() == 0 {
        assert(a + b =~= a);
    } else {
        lemma_sector_sums_concat(a, b.drop_last());
        assert((a + b).drop_last() =~= a + b.drop_last());
        assert((a + b).last() == b.last());
    }
}

/// What one line of `/proc/diskstats` adds: a line of at least fourteen
/// fields whose device name (field 2) starts neither with `loop` nor with
/// `ram` adds its field 5 to the sectors read and its field 9 to the
/// sectors written (0 where a field is not a number); any other line adds
/// nothing.
pub proof fn lemma_sectors_per_line(a: Seq<Seq<char>>, line: Seq<char>)
    ensures
        ({
            let t = split_ws(line);
            let counted = t.len() >= 14 && !starts_with(t[2], "loop"@) && !starts_with(t[2], "ram"@);
            &&& sector_sums(a + seq![line]).0 == sector_sums(a).0 + if counted {
                u64_or_zero(t[5]) as int
            } else {
                0
            }
            &&& sector_sums(a + seq![line]).1 == sector_sums(a).1 + if counted {
                u64_or_zero(t[9]) as int
            } else {
                0
            }
        }),
{
    lemma_sector_sums_concat(a, seq![line]);
    let one = seq![line];
    assert(one.drop_last() =~= Seq::<Seq<char>>::empty());
    assert(sector_sums(one.drop_last()) == (0int, 0int));
    assert(one.last() == line);
}

} // verus!
