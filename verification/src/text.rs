//! Character-level text primitives shared by the parsers.
//!
//! Texts are read as sequences of `char`s. Substrings are handed around as
//! half-open index ranges `(start, end)` into the character sequence, and
//! each exec function is tied to a spec function on `Seq<char>` that says
//! what the corresponding operation of `str` computes.

use vstd::prelude::*;
use vstd::string::*;

verus! {

/// The characters of a string slice, in order.
pub fn chars_of(s: &str) -> (v: Vec<char>)
    ensures
        v@ == s@,
{
    let mut v: Vec<char> = Vec::new();
    for c in it: s.chars()
        invariant
            v@ == it.seq().take(it.index() as int),
    {
        v.push(c);
    }
    v
}

/// Unicode `White_Space`, the set that `char::is_whitespace` tests.
pub open spec fn is_ws(c: char) -> bool {
    let u = c as u32;
    ||| u == 0x20
    ||| 0x09 <= u <= 0x0d
    ||| u == 0x85
    ||| u == 0xa0
    ||| u == 0x1680
    ||| 0x2000 <= u <= 0x200a
    ||| u == 0x2028
    ||| u == 0x2029
    ||| u == 0x202f
    ||| u == 0x205f
    ||| u == 0x3000
}

/// Whether `c` is white space.
pub fn is_whitespace(c: char) -> (b: bool)
    ensures
        b == is_ws(c),
{
    let u = c as u32;
    u == 0x20 || (0x09 <= u && u <= 0x0d) || u == 0x85 || u == 0xa0 || u == 0x1680 || (0x2000
        <= u && u <= 0x200a) || u == 0x2028 || u == 0x2029 || u == 0x202f || u == 0x205f || u
        == 0x3000
}

/// Left-to-right scan that cuts `s` at white space: the finished tokens and
/// the token being read.
pub open spec fn ws_scan(s: Seq<char>) -> (Seq<Seq<char>>, Seq<char>)
    decreases s.len(),
{
    if s.len() == 0 {
        (seq![], seq![])
    } else {
        let prev = ws_scan(s.drop_last());
        let c = s.last();
        if is_ws(c) {
            if prev.1.len() > 0 {
                (prev.0.push(prev.1), seq![])
            } else {
                prev
            }
        } else {
            (prev.0, prev.1.push(c))
        }
    }
}

/// The tokens of `s` as `str::split_whitespace` yields them: the maximal
/// runs of characters that are not white space, in order.
pub open spec fn split_ws(s: Seq<char>) -> Seq<Seq<char>> {
    let r = ws_scan(s);
    if r.1.len() > 0 {
        r.0.push(r.1)
    } else {
        r.0
    }
}

/// The substrings that a list of ranges picks out of `s`.
pub open spec fn pick(s: Seq<char>, r: Seq<(usize, usize)>) -> Seq<Seq<char>> {
    r.map_values(|p: (usize, usize)| s.subrange(p.0 as int, p.1 as int))
}

/// Every range lies in `[lo, hi]` and is not reversed.
pub open spec fn ranges_within(r: Seq<(usize, usize)>, lo: int, hi: int) -> bool {
    forall|k: int| 0 <= k < r.len() ==> lo <= (#[trigger] r[k]).0 <= r[k].1 <= hi
}

/// The white-space separated tokens of `cs[a..b]`, as ranges into `cs`.
pub fn ws_tokens(cs: &Vec<char>, a: usize, b: usize) -> (r: Vec<(usize, usize)>)
    requires
        a <= b <= cs.len(),
    ensures
        ranges_within(r@, a as int, b as int),
        pick(cs@, r@) == split_ws(cs@.subrange(a as int, b as int)),
{
    let mut r: Vec<(usize, usize)> = Vec::new();
    let mut start: usize = a;
    let mut i: usize = a;
    while i < b
        invariant
            a <= start <= i <= b <= cs.len(),
            ranges_within(r@, a as int, i as int),
            ws_scan(cs@.subrange(a as int, i as int)) == (
                pick(cs@, r@),
                cs@.subrange(start as int, i as int),
            ),
        decreases b - i,
    {
        let ghost prev_r = r@;
        let c = cs[i];
        assert(cs@.subrange(a as int, i + 1).drop_last() =~= cs@.subrange(a as int, i as int));
        if is_whitespace(c) {
            if start < i {
                r.push((start, i));
                assert(pick(cs@, r@) =~= pick(cs@, prev_r).push(
                    cs@.subrange(start as int, i as int),
                ));
            }
            start = i + 1;
            assert(cs@.subrange(start as int, i + 1) =~= Seq::<char>::empty());
        } else {
            assert(cs@.subrange(start as int, i + 1) =~= cs@.subrange(start as int, i as int).push(
                c,
            ));
        }
        i = i + 1;
    }
    if start < b {
        let ghost prev_r = r@;
        r.push((start, b));
        assert(pick(cs@, r@) =~= pick(cs@, prev_r).push(cs@.subrange(start as int, b as int)));
    }
    r
}

/// Drops one trailing carriage return.
pub open spec fn strip_cr(s: Seq<char>) -> Seq<char> {
    if s.len() > 0 && s.last() == '\r' {
        s.drop_last()
    } else {
        s
    }
}

/// Left-to-right scan that cuts `s` at line feeds.
pub open spec fn line_scan(s: Seq<char>) -> (Seq<Seq<char>>, Seq<char>)
    decreases s.len(),
{
    if s.len() == 0 {
        (seq![], seq![])
    } else {
        let prev = line_scan(s.drop_last());
        let c = s.last();
        if c == '\n' {
            (prev.0.push(strip_cr(prev.1)), seq![])
        } else {
            (prev.0, prev.1.push(c))
        }
    }
}

/// The lines of `s` as `str::lines` yields them: cut at each `\n`, a `\r`
/// right before a `\n` dropped, and no empty last line after a final `\n`.
pub open spec fn split_lines(s: Seq<char>) -> Seq<Seq<char>> {
    let r = line_scan(s);
    if r.1.len() > 0 {
        r.0.push(r.1)
    } else {
        r.0
    }
}

/// The lines of `cs`, as ranges into `cs`.
pub fn line_ranges(cs: &Vec<char>) -> (r: Vec<(usize, usize)>)
    ensures
        ranges_within(r@, 0, cs.len() as int),
        pick(cs@, r@) == split_lines(cs@),
{
    let mut r: Vec<(usize, usize)> = Vec::new();
    let mut start: usize = 0;
    let mut i: usize = 0;
    let n = cs.len();
    while i < n
        invariant
            n == cs.len(),
            start <= i <= n,
            ranges_within(r@, 0, i as int),
            line_scan(cs@.subrange(0, i as int)) == (
                pick(cs@, r@),
                cs@.subrange(start as int, i as int),
            ),
        decreases n - i,
    {
        let ghost prev_r = r@;
        let c = cs[i];
        assert(cs@.subrange(0, i + 1).drop_last() =~= cs@.subrange(0, i as int));
        if c == '\n' {
            let end = if start < i && cs[i - 1] == '\r' {
                i - 1
            } else {
                i
            };
            r.push((start, end));
            assert(cs@.subrange(start as int, end as int) =~= strip_cr(
                cs@.subrange(start as int, i as int),
            ));
            assert(pick(cs@, r@) =~= pick(cs@, prev_r).push(
                strip_cr(cs@.subrange(start as int, i as int)),
            ));
            start = i + 1;
            assert(cs@.subrange(start as int, i + 1) =~= Seq::<char>::empty());
        } else {
            assert(cs@.subrange(start as int, i + 1) =~= cs@.subrange(start as int, i as int).push(
                c,
            ));
        }
        i = i + 1;
    }
    assert(cs@.subrange(0, n as int) =~= cs@);
    if start < n {
        let ghost prev_r = r@;
        r.push((start, n));
        assert(pick(cs@, r@) =~= pick(cs@, prev_r).push(cs@.subrange(start as int, n as int)));
    }
    r
}


/// Left-to-right scan that cuts `s` at every `sep`.
pub open spec fn sep_scan(s: Seq<char>, sep: char) -> (Seq<Seq<char>>, Seq<char>)
    decreases s.len(),
{
    if s.len() == 0 {
        (seq![], seq![])
    } else {
        let prev = sep_scan(s.drop_last(), sep);
        let c = s.last();
        if c == sep {
            (prev.0.push(prev.1), seq![])
        } else {
            (prev.0, prev.1.push(c))
        }
    }
}

/// The fields of `s` as `str::split` with a `char` pattern yields them: one
/// more field than there are separators, empty fields included.
pub open spec fn split_on(s: Seq<char>, sep: char) -> Seq<Seq<char>> {
    let r = sep_scan(s, sep);
    r.0.push(r.1)
}

/// The `sep`-separated fields of `cs[a..b]`, as ranges into `cs`.
pub fn split_ranges(cs: &Vec<char>, a: usize, b: usize, sep: char) -> (r: Vec<(usize, usize)>)
    requires
        a <= b <= cs.len(),
    ensures
        ranges_within(r@, a as int, b as int),
        pick(cs@, r@) == split_on(cs@.subrange(a as int, b as int), sep),
{
    let mut r: Vec<(usize, usize)> = Vec::new();
    let mut start: usize = a;
    let mut i: usize = a;
    while i < b
        invariant
            a <= start <= i <= b <= cs.len(),
            ranges_within(r@, a as int, i as int),
            sep_scan(cs@.subrange(a as int, i as int), sep) == (
                pick(cs@, r@),
                cs@.subrange(start as int, i as int),
            ),
        decreases b - i,
    {
        let ghost prev_r = r@;
        let c = cs[i];
        assert(cs@.subrange(a as int, i + 1).drop_last() =~= cs@.subrange(a as int, i as int));
        if c == sep {
            r.push((start, i));
            assert(pick(cs@, r@) =~= pick(cs@, prev_r).push(cs@.subrange(start as int, i as int)));
            start = i + 1;
            assert(cs@.subrange(start as int, i + 1) =~= Seq::<char>::empty());
        } else {
            assert(cs@.subrange(start as int, i + 1) =~= cs@.subrange(start as int, i as int).push(
                c,
            ));
        }
        i = i + 1;
    }
    let ghost prev_r = r@;
    r.push((start, b));
    assert(pick(cs@, r@) =~= pick(cs@, prev_r).push(cs@.subrange(start as int, b as int)));
    r
}

/// `s` without its leading white space.
pub open spec fn trim_start(s: Seq<char>) -> Seq<char>
    decreases s.len(),
{
    if s.len() > 0 && is_ws(s[0]) {
        trim_start(s.drop_first())
    } else {
        s
    }
}

/// `s` without its trailing white space.
pub open spec fn trim_end(s: Seq<char>) -> Seq<char>
    decreases s.len(),
{
    if s.len() > 0 && is_ws(s.last()) {
        trim_end(s.drop_last())
    } else {
        s
    }
}

/// `s` without white space at either end, as `str::trim` returns it.
pub open spec fn trim(s: Seq<char>) -> Seq<char> {
    trim_end(trim_start(s))
}

/// The range of `cs[a..b]` that is left after `str::trim`.
pub fn trim_range(cs: &Vec<char>, a: usize, b: usize) -> (r: (usize, usize))
    requires
        a <= b <= cs.len(),
    ensures
        a <= r.0 <= r.1 <= b,
        cs@.subrange(r.0 as int, r.1 as int) == trim(cs@.subrange(a as int, b as int)),
{
    let mut i: usize = a;
    while i < b && is_whitespace(cs[i])
        invariant
            a <= i <= b <= cs.len(),
            trim_start(cs@.subrange(a as int, b as int)) == trim_start(
                cs@.subrange(i as int, b as int),
            ),
        decreases b - i,
    {
        assert(cs@.subrange(i as int, b as int).drop_first() =~= cs@.subrange(i + 1, b as int));
        i = i + 1;
    }
    let mut j: usize = b;
    while j > i && is_whitespace(cs[j - 1])
        invariant
            a <= i <= j <= b <= cs.len(),
            trim_start(cs@.subrange(a as int, b as int)) == cs@.subrange(i as int, b as int),
            trim(cs@.subrange(a as int, b as int)) == trim_end(cs@.subrange(i as int, j as int)),
        decreases j - i,
    {
        assert(cs@.subrange(i as int, j as int).drop_last() =~= cs@.subrange(i as int, j - 1));
        j = j - 1;
    }
    (i, j)
}

/// `s` without any of the copies of `c` at its end, as
/// `str::trim_end_matches` with a `char` pattern returns it.
pub open spec fn trim_end_char(s: Seq<char>, c: char) -> Seq<char>
    decreases s.len(),
{
    if s.len() > 0 && s.last() == c {
        trim_end_char(s.drop_last(), c)
    } else {
        s
    }
}

/// The range of `cs[a..b]` that is left after removing trailing `c`s.
pub fn trim_end_char_range(cs: &Vec<char>, a: usize, b: usize, c: char) -> (e: usize)
    requires
        a <= b <= cs.len(),
    ensures
        a <= e <= b,
        cs@.subrange(a as int, e as int) == trim_end_char(cs@.subrange(a as int, b as int), c),
{
    let mut j: usize = b;
    while j > a && cs[j - 1] == c
        invariant
            a <= j <= b <= cs.len(),
            trim_end_char(cs@.subrange(a as int, b as int), c) == trim_end_char(
                cs@.subrange(a as int, j as int),
                c,
            ),
        decreases j - a,
    {
        assert(cs@.subrange(a as int, j as int).drop_last() =~= cs@.subrange(a as int, j - 1));
        j = j - 1;
    }
    j
}

/// Whether `cs[a..b]` is exactly `lit`.
pub fn range_eq(cs: &Vec<char>, a: usize, b: usize, lit: &Vec<char>) -> (res: bool)
    requires
        a <= b <= cs.len(),
    ensures
        res == (cs@.subrange(a as int, b as int) == lit@),
{
    if b - a != lit.len() {
        return false;
    }
    let mut k: usize = 0;
    while k < lit.len()
        invariant
            a <= b <= cs.len(),
            b - a == lit.len(),
            k <= lit.len(),
            forall|m: int| 0 <= m < k ==> cs@[a + m] == lit@[m],
        decreases lit.len() - k,
    {
        if cs[a + k] != lit[k] {
            assert(cs@.subrange(a as int, b as int)[k as int] != lit@[k as int]);
            return false;
        }
        k = k + 1;
    }
    assert(cs@.subrange(a as int, b as int) =~= lit@);
    true
}

/// `p` is a prefix of `s`, as `str::starts_with` tests.
pub open spec fn starts_with(s: Seq<char>, p: Seq<char>) -> bool {
    p.len() <= s.len() && s.subrange(0, p.len() as int) == p
}

/// Whether `cs[a..b]` starts with `lit`.
pub fn range_starts_with(cs: &Vec<char>, a: usize, b: usize, lit: &Vec<char>) -> (res: bool)
    requires
        a <= b <= cs.len(),
    ensures
        res == starts_with(cs@.subrange(a as int, b as int), lit@),
{
    if b - a < lit.len() {
        return false;
    }
    let r = range_eq(cs, a, a + lit.len(), lit);
    assert(cs@.subrange(a as int, b as int).subrange(0, lit.len() as int) =~= cs@.subrange(
        a as int,
        a + lit.len(),
    ));
    r
}

/// `p` occurs in `s` as a contiguous piece, as `str::contains` tests.
pub open spec fn contains(s: Seq<char>, p: Seq<char>) -> bool {
    exists|i: int| 0 <= i <= s.len() - p.len() && #[trigger] s.subrange(i, i + p.len()) == p
}

/// Whether `pat` occurs in `s`.
pub fn contains_chars(s: &Vec<char>, pat: &Vec<char>) -> (res: bool)
    ensures
        res == contains(s@, pat@),
{
    if pat.len() > s.len() {
        return false;
    }
    let last = s.len() - pat.len();
    let mut i: usize = 0;
    loop
        invariant
            last == s.len() - pat.len(),
            pat.len() <= s.len(),
            i <= last,
            forall|j: int| 0 <= j < i ==> #[trigger] s@.subrange(j, j + pat.len()) != pat@,
        decreases last - i,
    {
        if range_eq(s, i, i + pat.len(), pat) {
            return true;
        }
        if i == last {
            return false;
        }
        i = i + 1;
    }
}


/// An ASCII decimal digit.
pub open spec fn is_digit(c: char) -> bool {
    0x30 <= (c as u32) <= 0x39
}

/// The value of a decimal digit.
pub open spec fn digit_val(c: char) -> nat {
    ((c as u32) - 0x30) as nat
}

/// Every character of `s` is a decimal digit.
pub open spec fn all_digits(s: Seq<char>) -> bool {
    forall|i: int| 0 <= i < s.len() ==> is_digit(#[trigger] s[i])
}

/// The number that the digits `s` write in base ten.
pub open spec fn dec_value(s: Seq<char>) -> nat
    decreases s.len(),
{
    if s.len() == 0 {
        0
    } else {
        10 * dec_value(s.drop_last()) + digit_val(s.last())
    }
}

/// `s` without one leading `+`.
pub open spec fn skip_plus(s: Seq<char>) -> Seq<char> {
    if s.len() > 0 && s[0] == '+' {
        s.drop_first()
    } else {
        s
    }
}

/// What `str::parse` gives for an unsigned integer type whose largest value
/// is `max`: an optional `+`, then at least one digit and nothing else, of
/// value at most `max`.
pub open spec fn parse_unsigned(s: Seq<char>, max: nat) -> Option<nat> {
    let d = skip_plus(s);
    if d.len() > 0 && all_digits(d) && dec_value(d) <= max {
        Some(dec_value(d))
    } else {
        None
    }
}

/// What `str::parse` gives for a signed integer type with range
/// `[-(max + 1), max]`: a `-` and at least one digit for a negative number,
/// otherwise as for an unsigned type.
pub open spec fn parse_signed(s: Seq<char>, max: nat) -> Option<int> {
    if s.len() > 0 && s[0] == '-' {
        let d = s.drop_first();
        if d.len() > 0 && all_digits(d) && dec_value(d) <= max + 1 {
            Some(-dec_value(d))
        } else {
            None
        }
    } else {
        match parse_unsigned(s, max) {
            Some(v) => Some(v as int),
            None => None,
        }
    }
}

/// `str::parse::<u64>`, with 0 where it fails.
pub open spec fn u64_or_zero(s: Seq<char>) -> u64 {
    match parse_unsigned(s, u64::MAX as nat) {
        Some(v) => v as u64,
        None => 0,
    }
}

/// `str::parse::<u32>`, with 0 where it fails.
pub open spec fn u32_or_zero(s: Seq<char>) -> u32 {
    match parse_unsigned(s, u32::MAX as nat) {
        Some(v) => v as u32,
        None => 0,
    }
}

/// `str::parse::<i32>`, with 0 where it fails.
pub open spec fn i32_or_zero(s: Seq<char>) -> i32 {
    match parse_signed(s, i32::MAX as nat) {
        Some(v) => v as i32,
        None => 0,
    }
}

proof fn lemma_dec_value_prefix(s: Seq<char>, k: int)
    requires
        0 <= k <= s.len(),
    ensures
        dec_value(s.take(k)) <= dec_value(s),
    decreases s.len(),
{
    if k < s.len() {
        lemma_dec_value_prefix(s.drop_last(), k);
        assert(s.drop_last().take(k) =~= s.take(k));
    } else {
        assert(s.take(k) =~= s);
    }
}

/// The value of the digits `cs[a..b]` if they are all digits, at least one,
/// and their value is at most `max`.
fn digits_value(cs: &Vec<char>, a: usize, b: usize, max: u64) -> (r: Option<u64>)
    requires
        a <= b <= cs.len(),
        max >= 9,
    ensures
        ({
            let d = cs@.subrange(a as int, b as int);
            match r {
                Some(v) => d.len() > 0 && all_digits(d) && dec_value(d) <= max && v == dec_value(
                    d,
                ),
                None => !(d.len() > 0 && all_digits(d) && dec_value(d) <= max),
            }
        }),
{
    let ghost d = cs@.subrange(a as int, b as int);
    if a == b {
        return None;
    }
    let mut v: u64 = 0;
    let mut i: usize = a;
    while i < b
        invariant
            a <= i <= b <= cs.len(),
            max >= 9,
            d == cs@.subrange(a as int, b as int),
            all_digits(cs@.subrange(a as int, i as int)),
            v == dec_value(cs@.subrange(a as int, i as int)),
            v <= max,
        decreases b - i,
    {
        let c = cs[i];
        assert(cs@.subrange(a as int, i + 1).drop_last() =~= cs@.subrange(a as int, i as int));
        if !((c as u32) >= 0x30 && (c as u32) <= 0x39) {
            assert(!is_digit(d[i - a]));
            return None;
        }
        let dv: u64 = ((c as u32) - 0x30) as u64;
        if v > (max - dv) / 10 {
            assert(10 * v + dv > max) by (nonlinear_arith)
                requires
                    v > (max - dv) / 10,
                    dv <= 9,
                    max >= 9,
            ;
            proof {
                if all_digits(d) {
                    lemma_dec_value_prefix(d, i + 1 - a);
                    assert(d.take(i + 1 - a) =~= cs@.subrange(a as int, i + 1));
                }
            }
            return None;
        }
        assert(10 * v + dv <= max) by (nonlinear_arith)
            requires
                v <= (max - dv) / 10,
                dv <= 9,
                max >= 9,
        ;
        v = 10 * v + dv;
        i = i + 1;
    }
    assert(cs@.subrange(a as int, b as int) =~= d);
    Some(v)
}

/// `cs[a..b]` read as an unsigned number of at most `max`, as `str::parse` reads it.
fn parse_unsigned_range(cs: &Vec<char>, a: usize, b: usize, max: u64) -> (r: Option<u64>)
    requires
        a <= b <= cs.len(),
        max >= 9,
    ensures
        match parse_unsigned(cs@.subrange(a as int, b as int), max as nat) {
            Some(v) => r == Some(v as u64),
            None => r is None,
        },
{
    if a < b && cs[a] == '+' {
        assert(cs@.subrange(a as int, b as int).drop_first() =~= cs@.subrange(a + 1, b as int));
        digits_value(cs, a + 1, b, max)
    } else {
        digits_value(cs, a, b, max)
    }
}

/// `cs[a..b]` read as a `u64`, 0 where `str::parse` fails.
pub fn u64_or_zero_range(cs: &Vec<char>, a: usize, b: usize) -> (r: u64)
    requires
        a <= b <= cs.len(),
    ensures
        r == u64_or_zero(cs@.subrange(a as int, b as int)),
{
    match parse_unsigned_range(cs, a, b, u64::MAX) {
        Some(v) => v,
        None => 0,
    }
}

/// `cs[a..b]` read as a `u32`, if `str::parse` reads it.
pub fn parse_u32_range(cs: &Vec<char>, a: usize, b: usize) -> (r: Option<u32>)
    requires
        a <= b <= cs.len(),
    ensures
        match parse_unsigned(cs@.subrange(a as int, b as int), u32::MAX as nat) {
            Some(v) => r == Some(v as u32),
            None => r is None,
        },
{
    match parse_unsigned_range(cs, a, b, 0xffff_ffff) {
        Some(v) => Some(v as u32),
        None => None,
    }
}

/// `cs[a..b]` read as a `u32`, 0 where `str::parse` fails.
pub fn u32_or_zero_range(cs: &Vec<char>, a: usize, b: usize) -> (r: u32)
    requires
        a <= b <= cs.len(),
    ensures
        r == u32_or_zero(cs@.subrange(a as int, b as int)),
{
    match parse_u32_range(cs, a, b) {
        Some(v) => v,
        None => 0,
    }
}

/// `cs[a..b]` read as an `i32`, 0 where `str::parse` fails.
pub fn i32_or_zero_range(cs: &Vec<char>, a: usize, b: usize) -> (r: i32)
    requires
        a <= b <= cs.len(),
    ensures
        r == i32_or_zero(cs@.subrange(a as int, b as int)),
{
    if a < b && cs[a] == '-' {
        assert(cs@.subrange(a as int, b as int).drop_first() =~= cs@.subrange(a + 1, b as int));
        match digits_value(cs, a + 1, b, 0x8000_0000) {
            Some(v) => (0i64 - v as i64) as i32,
            None => 0,
        }
    } else {
        match parse_unsigned_range(cs, a, b, 0x7fff_ffff) {
            Some(v) => v as i32,
            None => 0,
        }
    }
}


/// The character of the decimal digit `d`.
pub open spec fn digit_char(d: nat) -> char {
    (0x30 + d) as char
}

/// `n` written in base ten without leading zeros, as `{}` formats it.
pub open spec fn decimal(n: nat) -> Seq<char>
    decreases n,
{
    if n < 10 {
        seq![digit_char(n)]
    } else {
        decimal(n / 10).push(digit_char(n % 10))
    }
}

/// `n` written in base ten, padded with leading zeros to at least `w`
/// characters, as `{:0w}` formats it.
pub open spec fn zero_padded(n: nat, w: nat) -> Seq<char> {
    let d = decimal(n);
    if d.len() < w {
        Seq::new((w - d.len()) as nat, |i: int| '0') + d
    } else {
        d
    }
}

/// The one-character text of the digit `d`.
fn digit_str(d: u64) -> (r: &'static str)
    requires
        d < 10,
    ensures
        r@ == seq![digit_char(d as nat)],
{
    proof {
        reveal_strlit("0");
        reveal_strlit("1");
        reveal_strlit("2");
        reveal_strlit("3");
        reveal_strlit("4");
        reveal_strlit("5");
        reveal_strlit("6");
        reveal_strlit("7");
        reveal_strlit("8");
        reveal_strlit("9");
    }
    match d {
        0 => "0",
        1 => "1",
        2 => "2",
        3 => "3",
        4 => "4",
        5 => "5",
        6 => "6",
        7 => "7",
        8 => "8",
        _ => "9",
    }
}

/// Appends `n` in base ten.
pub fn push_decimal(out: &mut String, n: u64)
    ensures
        final(out)@ == old(out)@ + decimal(n as nat),
    decreases n,
{
    if n >= 10 {
        push_decimal(out, n / 10);
    }
    out.append(digit_str(n % 10));
    proof {
        if n >= 10 {
            assert(old(out)@ + decimal(n as nat) =~= old(out)@ + decimal((n / 10) as nat) + seq![
                digit_char((n % 10) as nat),
            ]);
        }
    }
}

/// `n` in base ten, as `n.to_string()` gives it.
pub fn decimal_string(n: u64) -> (s: String)
    ensures
        s@ == decimal(n as nat),
{
    let mut s = String::new();
    push_decimal(&mut s, n);
    assert(s@ =~= decimal(n as nat));
    s
}

proof fn lemma_decimal_len_one(n: nat)
    requires
        n < 10,
    ensures
        decimal(n).len() == 1,
{
}

proof fn lemma_decimal_len_two(n: nat)
    requires
        10 <= n < 100,
    ensures
        decimal(n).len() == 2,
{
    assert(n / 10 < 10);
    lemma_decimal_len_one(n / 10);
    assert(decimal(n) == decimal(n / 10).push(digit_char(n % 10)));
}

/// Appends `n`, a number below 100, in two digits, as `{:02}` writes it.
pub fn push_two_digits(out: &mut String, n: u64)
    requires
        n < 100,
    ensures
        final(out)@ == old(out)@ + zero_padded(n as nat, 2),
{
    if n < 10 {
        out.append(digit_str(0));
        proof {
            lemma_decimal_len_one(n as nat);
        }
    } else {
        proof {
            lemma_decimal_len_two(n as nat);
        }
    }
    push_decimal(out, n);
    proof {
        if n < 10 {
            assert(Seq::new((2 - decimal(n as nat).len()) as nat, |i: int| '0') =~= seq![
                digit_char(0),
            ]);
            assert(final(out)@ =~= old(out)@ + zero_padded(n as nat, 2));
        }
    }
}


/// The characters `cs[a..b]` of `text` as an owned `String`.
pub fn range_string(text: &str, cs: &Vec<char>, a: usize, b: usize) -> (s: String)
    requires
        cs@ == text@,
        a <= b <= cs.len(),
    ensures
        s@ == cs@.subrange(a as int, b as int),
{
    text.substring_char(a, b).to_owned()
}


/// The white-space separated tokens of `text`, as `str::split_whitespace`
/// yields them.
pub fn split_whitespace(text: &str) -> (v: Vec<String>)
    ensures
        v@.len() == split_ws(text@).len(),
        forall|i: int| 0 <= i < v@.len() ==> (#[trigger] v@[i])@ == split_ws(text@)[i],
{
    let cs = chars_of(text);
    let t = ws_tokens(&cs, 0, cs.len());
    assert(cs@.subrange(0, cs.len() as int) =~= cs@);
    let mut v: Vec<String> = Vec::new();
    let mut i: usize = 0;
    while i < t.len()
        invariant
            cs@ == text@,
            i <= t.len(),
            ranges_within(t@, 0, cs.len() as int),
            pick(cs@, t@) == split_ws(text@),
            v@.len() == i,
            forall|j: int| 0 <= j < i ==> (#[trigger] v@[j])@ == split_ws(text@)[j],
        decreases t.len() - i,
    {
        let (a, b) = t[i];
        v.push(range_string(text, &cs, a, b));
        i = i + 1;
    }
    v
}

/// Whether `s` starts with `prefix`, as `str::starts_with` tests.
pub fn str_starts_with(s: &str, prefix: &str) -> (b: bool)
    ensures
        b == starts_with(s@, prefix@),
{
    let cs = chars_of(s);
    let p = chars_of(prefix);
    let r = range_starts_with(&cs, 0, cs.len(), &p);
    assert(cs@.subrange(0, cs.len() as int) =~= cs@);
    r
}


/// `s` read as a `u32`, as `str::parse::<u32>` reads it.
pub fn parse_u32(s: &str) -> (r: Option<u32>)
    ensures
        match parse_unsigned(s@, u32::MAX as nat) {
            Some(v) => r == Some(v as u32),
            None => r is None,
        },
{
    let cs = chars_of(s);
    assert(cs@.subrange(0, cs.len() as int) =~= cs@);
    parse_u32_range(&cs, 0, cs.len())
}

proof fn lemma_ws_scan_no_ws(s: Seq<char>)
    requires
        forall|k: int| 0 <= k < s.len() ==> !is_ws(#[trigger] s[k]),
    ensures
        ws_scan(s) == (Seq::<Seq<char>>::empty(), s),
    decreases s.len(),
{
    if s.len() > 0 {
        assert(!is_ws(s[s.len() - 1]));
        lemma_ws_scan_no_ws(s.drop_last());
        assert(s.drop_last().push(s.last()) =~= s);
    }
}

proof fn lemma_ws_scan_cut(a: Seq<char>, c: char, b: Seq<char>)
    requires
        is_ws(c),
    ensures
        ws_scan(a + seq![c] + b) == (split_ws(a) + ws_scan(b).0, ws_scan(b).1),
    decreases b.len(),
{
    if b.len() == 0 {
        assert(a + seq![c] + b =~= a.push(c));
        assert(a.push(c).drop_last() =~= a);
        assert(split_ws(a) + Seq::<Seq<char>>::empty() =~= split_ws(a));
    } else {
        let b1 = b.drop_last();
        lemma_ws_scan_cut(a, c, b1);
        assert((a + seq![c] + b).drop_last() =~= a + seq![c] + b1);
        assert((a + seq![c] + b).last() == b.last());
        let p = ws_scan(b1);
        if is_ws(b.last()) {
            if p.1.len() > 0 {
                assert((split_ws(a) + p.0).push(p.1) =~= split_ws(a) + p.0.push(p.1));
            }
        }
    }
}

/// Cutting at white space: where `c` is white space, the tokens of
/// `a`, `c`, `b` put together are those of `a` followed by those of `b`;
/// a text with no white space in it is one token, or none where it is
/// empty. These three facts determine the tokens of every text.
pub proof fn lemma_split_ws_cut(a: Seq<char>, c: char, b: Seq<char>)
    ensures
        is_ws(c) ==> split_ws(a + seq![c] + b) == split_ws(a) + split_ws(b),
        (forall|k: int| 0 <= k < a.len() ==> !is_ws(#[trigger] a[k])) ==> split_ws(a) == if a.len()
            == 0 {
            Seq::<Seq<char>>::empty()
        } else {
            seq![a]
        },
{
    if is_ws(c) {
        lemma_ws_scan_cut(a, c, b);
        let p = ws_scan(b);
        if p.1.len() > 0 {
            assert((split_ws(a) + p.0).push(p.1) =~= split_ws(a) + p.0.push(p.1));
        }
    }
    if forall|k: int| 0 <= k < a.len() ==> !is_ws(#[trigger] a[k]) {
        lemma_ws_scan_no_ws(a);
        if a.len() > 0 {
            assert(Seq::<Seq<char>>::empty().push(a) =~= seq![a]);
        }
    }
}

proof fn lemma_sep_scan_no_sep(s: Seq<char>, sep: char)
    requires
        forall|k: int| 0 <= k < s.len() ==> #[trigger] s[k] != sep,
    ensures
        sep_scan(s, sep) == (Seq::<Seq<char>>::empty(), s),
    decreases s.len(),
{
    if s.len() > 0 {
        assert(s[s.len() - 1] != sep);
        lemma_sep_scan_no_sep(s.drop_last(), sep);
        assert(s.drop_last().push(s.last()) =~= s);
    }
}

proof fn lemma_sep_scan_cut(a: Seq<char>, sep: char, b: Seq<char>)
    ensures
        sep_scan(a + seq![sep] + b, sep) == (split_on(a, sep) + sep_scan(b, sep).0, sep_scan(b, sep).1),
    decreases b.len(),
{
    if b.len() == 0 {
        assert(a + seq![sep] + b =~= a.push(sep));
        assert(a.push(sep).drop_last() =~= a);
        assert(split_on(a, sep) + Seq::<Seq<char>>::empty() =~= split_on(a, sep));
    } else {
        let b1 = b.drop_last();
        lemma_sep_scan_cut(a, sep, b1);
        assert((a + seq![sep] + b).drop_last() =~= a + seq![sep] + b1);
        assert((a + seq![sep] + b).last() == b.last());
        let p = sep_scan(b1, sep);
        if b.last() == sep {
            assert((split_on(a, sep) + p.0).push(p.1) =~= split_on(a, sep) + p.0.push(p.1));
        }
    }
}

/// Cutting at a separator: the fields of `a`, `sep`, `b` put together are
/// those of `a` followed by those of `b`, and a text without `sep` is a
/// single field. These two facts determine the fields of every text.
pub proof fn lemma_split_on_cut(a: Seq<char>, sep: char, b: Seq<char>)
    ensures
        split_on(a + seq![sep] + b, sep) == split_on(a, sep) + split_on(b, sep),
        (forall|k: int| 0 <= k < a.len() ==> #[trigger] a[k] != sep) ==> split_on(a, sep) == seq![a],
{
    lemma_sep_scan_cut(a, sep, b);
    let p = sep_scan(b, sep);
    assert((split_on(a, sep) + p.0).push(p.1) =~= split_on(a, sep) + p.0.push(p.1));
    if forall|k: int| 0 <= k < a.len() ==> #[trigger] a[k] != sep {
        lemma_sep_scan_no_sep(a, sep);
        assert(Seq::<Seq<char>>::empty().push(a) =~= seq![a]);
    }
}

proof fn lemma_line_scan_no_lf(s: Seq<char>)
    requires
        forall|k: int| 0 <= k < s.len() ==> #[trigger] s[k] != '\n',
    ensures
        line_scan(s) == (Seq::<Seq<char>>::empty(), s),
    decreases s.len(),
{
    if s.len() > 0 {
        assert(s[s.len() - 1] != '\n');
        lemma_line_scan_no_lf(s.drop_last());
        assert(s.drop_last().push(s.last()) =~= s);
    }
}

proof fn lemma_line_scan_cut(a: Seq<char>, b: Seq<char>)
    requires
        forall|k: int| 0 <= k < a.len() ==> #[trigger] a[k] != '\n',
    ensures
        line_scan(a + seq!['\n'] + b) == (seq![strip_cr(a)] + line_scan(b).0, line_scan(b).1),
    decreases b.len(),
{
    if b.len() == 0 {
        assert(a + seq!['\n'] + b =~= a.push('\n'));
        assert(a.push('\n').drop_last() =~= a);
        lemma_line_scan_no_lf(a);
        assert(Seq::<Seq<char>>::empty().push(strip_cr(a)) =~= seq![strip_cr(a)] + Seq::<Seq<char>>::empty());
    } else {
        let b1 = b.drop_last();
        lemma_line_scan_cut(a, b1);
        assert((a + seq!['\n'] + b).drop_last() =~= a + seq!['\n'] + b1);
        assert((a + seq!['\n'] + b).last() == b.last());
        let p = line_scan(b1);
        if b.last() == '\n' {
            assert((seq![strip_cr(a)] + p.0).push(strip_cr(p.1)) =~= seq![strip_cr(a)] + p.0.push(strip_cr(p.1)));
        }
    }
}

/// Cutting into lines: where `a` holds no line feed, the lines of `a`, a
/// line feed, `b` put together are `a` (without a carriage return at its
/// end) followed by the lines of `b`; a text without a line feed is one
/// line, or none where it is empty. These facts determine the lines of
/// every text.
pub proof fn lemma_split_lines_cut(a: Seq<char>, b: Seq<char>)
    requires
        forall|k: int| 0 <= k < a.len() ==> #[trigger] a[k] != '\n',
    ensures
        split_lines(a + seq!['\n'] + b) == seq![strip_cr(a)] + split_lines(b),
        split_lines(a) == if a.len() == 0 {
            Seq::<Seq<char>>::empty()
        } else {
            seq![a]
        },
{
    lemma_line_scan_cut(a, b);
    lemma_line_scan_no_lf(a);
    let p = line_scan(b);
    if p.1.len() > 0 {
        assert((seq![strip_cr(a)] + p.0).push(p.1) =~= seq![strip_cr(a)] + p.0.push(p.1));
    }
    if a.len() > 0 {
        assert(Seq::<Seq<char>>::empty().push(a) =~= seq![a]);
    }
}

proof fn lemma_digit_char_val(d: nat)
    requires
        d < 10,
    ensures
        is_digit(digit_char(d)),
        digit_val(digit_char(d)) == d,
{
    if d == 0 {
        assert(digit_char(d) == '0');
    } else if d == 1 {
        assert(digit_char(d) == '1');
    } else if d == 2 {
        assert(digit_char(d) == '2');
    } else if d == 3 {
        assert(digit_char(d) == '3');
    } else if d == 4 {
        assert(digit_char(d) == '4');
    } else if d == 5 {
        assert(digit_char(d) == '5');
    } else if d == 6 {
        assert(digit_char(d) == '6');
    } else if d == 7 {
        assert(digit_char(d) == '7');
    } else if d == 8 {
        assert(digit_char(d) == '8');
    } else {
        assert(digit_char(d) == '9');
    }
}

proof fn lemma_decimal_digits(n: nat)
    ensures
        decimal(n).len() > 0,
        all_digits(decimal(n)),
        dec_value(decimal(n)) == n,
    decreases n,
{
    if n < 10 {
        lemma_digit_char_val(n);
        assert(decimal(n).drop_last() =~= Seq::<char>::empty());
        assert(dec_value(decimal(n)) == 10 * dec_value(Seq::<char>::empty()) + digit_val(digit_char(n)));
    } else {
        lemma_digit_char_val(n % 10);
        lemma_decimal_digits(n / 10);
        let d = decimal(n / 10);
        assert(decimal(n).drop_last() =~= d);
        assert(decimal(n).last() == digit_char(n % 10));
        assert(dec_value(decimal(n)) == 10 * dec_value(d) + digit_val(digit_char(n % 10)));
        assert(n == 10 * (n / 10) + n % 10) by (nonlinear_arith);
        assert forall|i: int| 0 <= i < decimal(n).len() implies is_digit(#[trigger] decimal(n)[i]) by {
            if i < d.len() {
                assert(decimal(n)[i] == d[i]);
            }
        }
    }
}

/// Reading back what is written: `n` in decimal reads as `n` for every
/// integer type whose largest value is at least `n`, and as nothing for
/// one whose largest value is below `n`.
pub proof fn lemma_decimal_parses_back(n: nat, max: nat)
    ensures
        parse_unsigned(decimal(n), max) == if n <= max {
            Some(n)
        } else {
            None
        },
{
    lemma_decimal_digits(n);
    assert(is_digit(decimal(n)[0]));
}

} // verus!
