//! Network traffic from `/proc/net/dev`.

use crate::collectors::cpu::sat_sub;
use crate::models::{InterfaceStats, NetworkStats};
use crate::text::{
    chars_of, line_ranges, pick, range_eq, range_string, ranges_within, split_lines, split_ws,
    trim_end_char, trim_end_char_range, u64_or_zero, u64_or_zero_range, ws_tokens,
};
use vstd::prelude::*;

verus! {

/// The lines of `/proc/net/dev` after its two header lines.
pub open spec fn body_lines(lines: Seq<Seq<char>>) -> Seq<Seq<char>> {
    if lines.len() >= 2 {
        lines.subrange(2, lines.len() as int)
    } else {
        seq![]
    }
}

/// The interface name of a line: its first field without trailing colons.
pub open spec fn iface_name(t: Seq<Seq<char>>) -> Seq<char> {
    trim_end_char(t[0], ':')
}

/// A line that counts: at least seventeen fields, and not the loopback
/// interface `lo`.
pub open spec fn counts_iface(t: Seq<Seq<char>>) -> bool {
    t.len() >= 17 && iface_name(t) != "lo"@
}

/// Name, bytes received and bytes sent of each counted line among `lines`.
pub open spec fn iface_list(lines: Seq<Seq<char>>) -> Seq<(Seq<char>, u64, u64)>
    decreases lines.len(),
{
    if lines.len() == 0 {
        seq![]
    } else {
        let prev = iface_list(lines.drop_last());
        let t = split_ws(lines.last());
        if counts_iface(t) {
            prev.push((iface_name(t), u64_or_zero(t[1]), u64_or_zero(t[9])))
        } else {
            prev
        }
    }
}

/// The interfaces of `/proc/net/dev`, loopback left out.
pub open spec fn net_ifaces(text: Seq<char>) -> Seq<(Seq<char>, u64, u64)> {
    iface_list(body_lines(split_lines(text)))
}

/// Bytes received over a list of interfaces.
pub open spec fn rx_sum(l: Seq<(Seq<char>, u64, u64)>) -> int
    decreases l.len(),
{
    if l.len() == 0 {
        0
    } else {
        rx_sum(l.drop_last()) + l.last().1
    }
}

/// Bytes sent over a list of interfaces.
pub open spec fn tx_sum(l: Seq<(Seq<char>, u64, u64)>) -> int
    decreases l.len(),
{
    if l.len() == 0 {
        0
    } else {
        tx_sum(l.drop_last()) + l.last().2
    }
}

/// The totals over all interfaces fit in a `u64`.
pub open spec fn net_in_range(text: Seq<char>) -> bool {
    rx_sum(net_ifaces(text)) <= u64::MAX && tx_sum(net_ifaces(text)) <= u64::MAX
}

/// What an interface record says: name, bytes received, bytes sent.
pub open spec fn iface_view(i: InterfaceStats) -> (Seq<char>, u64, u64) {
    (i.name@, i.rx_bytes, i.tx_bytes)
}

proof fn lemma_sums_bounded(l: Seq<(Seq<char>, u64, u64)>)
    ensures
        0 <= rx_sum(l) <= l.len() * u64::MAX,
        0 <= tx_sum(l) <= l.len() * u64::MAX,
    decreases l.len(),
{
    if l.len() > 0 {
        lemma_sums_bounded(l.drop_last());
    }
}

proof fn lemma_list_shorter(lines: Seq<Seq<char>>)
    ensures
        iface_list(lines).len() <= lines.len(),
    decreases lines.len(),
{
    if lines.len() > 0 {
        lemma_list_shorter(lines.drop_last());
    }
}

/// The interfaces of the text with their totals.
fn scan_net_dev(text: &str) -> (r: (Vec<InterfaceStats>, u128, u128))
    ensures
        r.0@.map_values(|i: InterfaceStats| iface_view(i)) == net_ifaces(text@),
        r.1 == rx_sum(net_ifaces(text@)),
        r.2 == tx_sum(net_ifaces(text@)),
{
    let cs = chars_of(text);
    let lines = line_ranges(&cs);
    let lo = chars_of("lo");
    let ghost ls = pick(cs@, lines@);
    let ghost body = body_lines(ls);
    let mut ifaces: Vec<InterfaceStats> = Vec::new();
    let mut rx: u128 = 0;
    let mut tx: u128 = 0;
    let first: usize = if lines.len() >= 2 {
        2
    } else {
        lines.len()
    };
    let mut i: usize = first;
    assert(ls.subrange(first as int, first as int).len() == 0);
    while i < lines.len()
        invariant
            first <= i <= lines.len(),
            first == (if lines.len() >= 2 {
                2int
            } else {
                lines.len() as int
            }),
            cs@ == text@,
            lo@ == "lo"@,
            ls == pick(cs@, lines@),
            ls == split_lines(text@),
            ranges_within(lines@, 0, cs.len() as int),
            ifaces@.map_values(|i: InterfaceStats| iface_view(i)) == iface_list(
                ls.subrange(first as int, i as int),
            ),
            rx == rx_sum(iface_list(ls.subrange(first as int, i as int))),
            tx == tx_sum(iface_list(ls.subrange(first as int, i as int))),
        decreases lines.len() - i,
    {
        let (a, b) = lines[i];
        let ghost done = ls.subrange(first as int, i as int);
        assert(ls.subrange(first as int, i + 1).drop_last() =~= done);
        assert(ls.subrange(first as int, i + 1).last() == cs@.subrange(a as int, b as int));
        proof {
            lemma_list_shorter(done);
            lemma_sums_bounded(iface_list(done));
            assert(iface_list(done).len() * u64::MAX <= usize::MAX * u64::MAX) by (nonlinear_arith)
                requires
                    iface_list(done).len() <= usize::MAX,
            ;
        }
        let t = ws_tokens(&cs, a, b);
        if t.len() >= 17 {
            let (na, nb) = t[0];
            let ne = trim_end_char_range(&cs, na, nb, ':');
            if !range_eq(&cs, na, ne, &lo) {
                let rx_bytes = u64_or_zero_range(&cs, t[1].0, t[1].1);
                let tx_bytes = u64_or_zero_range(&cs, t[9].0, t[9].1);
                let name = range_string(text, &cs, na, ne);
                let ghost prev = ifaces@;
                ifaces.push(InterfaceStats { name, rx_bytes, tx_bytes });
                assert(ifaces@.map_values(|i: InterfaceStats| iface_view(i)) =~= prev.map_values(
                    |i: InterfaceStats| iface_view(i),
                ).push(iface_view(ifaces@.last())));
                proof {
                    let l = iface_list(done);
                    let e = (cs@.subrange(na as int, ne as int), rx_bytes, tx_bytes);
                    assert(l.push(e).drop_last() =~= l);
                }
                rx = rx + rx_bytes as u128;
                tx = tx + tx_bytes as u128;
            }
        }
        i = i + 1;
    }
    assert(ls.subrange(first as int, lines.len() as int) =~= body);
    (ifaces, rx, tx)
}

/// Whether `/proc/net/dev` with this text can be read without a total
/// leaving the range of `u64`.
pub fn net_dev_ok(text: &str) -> (b: bool)
    ensures
        b == net_in_range(text@),
{
    let (_, rx, tx) = scan_net_dev(text);
    rx <= u64::MAX as u128 && tx <= u64::MAX as u128
}

/// Bytes received and sent per reading: the difference to the previous
/// reading, or zero while no bytes were received before.
pub open spec fn net_speed(last_rx: u64, last_tx: u64, rx: u64, tx: u64) -> (u64, u64) {
    if last_rx > 0 {
        (sat_sub(rx as int, last_rx as int), sat_sub(tx as int, last_tx as int))
    } else {
        (0, 0)
    }
}

/// Keeps the previous byte totals to turn them into rates.
pub struct NetworkCollector {
    last_rx: u64,
    last_tx: u64,
}

impl NetworkCollector {
    /// Bytes received at the previous reading.
    pub closed spec fn prev_rx(&self) -> u64 {
        self.last_rx
    }

    /// Bytes sent at the previous reading.
    pub closed spec fn prev_tx(&self) -> u64 {
        self.last_tx
    }

    /// A collector that has read nothing.
    pub fn new() -> (c: Self)
        ensures
            c.prev_rx() == 0,
            c.prev_tx() == 0,
    {
        NetworkCollector { last_rx: 0, last_tx: 0 }
    }

    /// Takes in the text of `/proc/net/dev`: the interfaces but loopback,
    /// their totals, and the rates since the previous reading, whose totals
    /// these replace.
    pub fn get_network_usage(&mut self, text: &str) -> (s: NetworkStats)
        requires
            net_in_range(text@),
        ensures
            s.interfaces@.map_values(|i: InterfaceStats| iface_view(i)) == net_ifaces(text@),
            s.download_bytes == rx_sum(net_ifaces(text@)),
            s.upload_bytes == tx_sum(net_ifaces(text@)),
            (s.download_speed, s.upload_speed) == net_speed(
                old(self).prev_rx(),
                old(self).prev_tx(),
                s.download_bytes,
                s.upload_bytes,
            ),
            final(self).prev_rx() == s.download_bytes,
            final(self).prev_tx() == s.upload_bytes,
            old(self).prev_rx() == 0 ==> s.download_speed == 0 && s.upload_speed == 0,
            old(self).prev_rx() > 0 ==> s.download_speed == sat_sub(
                s.download_bytes as int,
                old(self).prev_rx() as int,
            ) && s.upload_speed == sat_sub(s.upload_bytes as int, old(self).prev_tx() as int),
    {
        let (interfaces, rx, tx) = scan_net_dev(text);
        let total_rx = rx as u64;
        let total_tx = tx as u64;
        let mut download_speed: u64 = 0;
        let mut upload_speed: u64 = 0;
        if self.last_rx > 0 {
            download_speed = total_rx.saturating_sub(self.last_rx);
            upload_speed = total_tx.saturating_sub(self.last_tx);
        }
        self.last_rx = total_rx;
        self.last_tx = total_tx;
        NetworkStats {
            upload_bytes: total_tx,
            download_bytes: total_rx,
            upload_speed,
            download_speed,
            interfaces,
        }
    }
}


/// Rates are reported only once traffic has been seen: while the previous
/// reading received no bytes, both rates are zero; after that, each rate is
/// the growth of its total since the previous reading.
pub proof fn lemma_net_speed(last_rx: u64, last_tx: u64, rx: u64, tx: u64)
    ensures
        last_rx == 0 ==> net_speed(last_rx, last_tx, rx, tx) == (0u64, 0u64),
        last_rx > 0 && last_rx <= rx && last_tx <= tx ==> net_speed(last_rx, last_tx, rx, tx) == (
            (rx - last_rx) as u64,
            (tx - last_tx) as u64,
        ),
{
}


/// The interfaces of consecutive pieces of `/proc/net/dev` are those of the
/// first piece followed by those of the second.
pub proof fn lemma_iface_list_concat(a: Seq<Seq<char>>, b: Seq<Seq<char>>)
    ensures
        iface_list(a + b) == iface_list(a) + iface_list(b),
    decreases b.len(),
{
    if b.len() == 0 {
        assert(a + b =~= a);
        assert(iface_list(a) + iface_list(b) =~= iface_list(a));
    } else {
        lemma_iface_list_concat(a, b.drop_last());
        assert((a + b).drop_last() =~= a + b.drop_last());
        assert((a + b).last() == b.last());
        let t = split_ws(b.last());
        if counts_iface(t) {
            let e = (iface_name(t), u64_or_zero(t[1]), u64_or_zero(t[9]));
            assert(iface_list(a) + iface_list(b.drop_last()).push(e) =~= (iface_list(a)
                + iface_list(b.drop_last())).push(e));
        }
    }
}

/// What one line after the header of `/proc/net/dev` adds: a line of at
/// least seventeen fields is listed unless its name, the first field
/// without trailing colons, is `lo`; it is listed with that name, field 1
/// as bytes received and field 9 as bytes sent (0 where a field is not a
/// number). Any other line adds nothing.
pub proof fn lemma_ifaces_per_line(a: Seq<Seq<char>>, line: Seq<char>)
    ensures
        ({
            let t = split_ws(line);
            iface_list(a + seq![line]) == iface_list(a) + if t.len() >= 17 && trim_end_char(
                t[0],
                ':',
            ) != "lo"@ {
                seq![(trim_end_char(t[0], ':'), u64_or_zero(t[1]), u64_or_zero(t[9]))]
            } else {
                Seq::<(Seq<char>, u64, u64)>::empty()
            }
        }),
{
    lemma_iface_list_concat(a, seq![line]);
    assert(seq![line].drop_last() =~= Seq::<Seq<char>>::empty());
    assert(iface_list(Seq::<Seq<char>>::empty()) =~= Seq::<(Seq<char>, u64, u64)>::empty());
}

/// The totals add up over consecutive lists of interfaces, and one
/// interface adds its bytes received and its bytes sent.
pub proof fn lemma_sums_concat(a: Seq<(Seq<char>, u64, u64)>, b: Seq<(Seq<char>, u64, u64)>)
    ensures
        rx_sum(a + b) == rx_sum(a) + rx_sum(b),
        tx_sum(a + b) == tx_sum(a) + tx_sum(b),
        b.len() == 1 ==> rx_sum(b) == b[0].1 && tx_sum(b) == b[0].2,
    decreases b.len(),
{
    if b.len() == 0 {
        assert(a + b =~= a);
    } else {
        lemma_sums_concat(a, b.drop_last());
        assert((a + b).drop_last() =~= a + b.drop_last());
        assert((a + b).last() == b.last());
        if b.len() == 1 {
            assert(b.drop_last() =~= Seq::<(Seq<char>, u64, u64)>::empty());
        }
    }
}

} // verus!
