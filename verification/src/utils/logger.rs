//! An in-memory log that keeps the latest entries.

use vstd::prelude::*;
use vstd::string::*;

verus! {

/// The severity of a log entry.
#[derive(Clone, Copy, Debug, PartialEq, Eq, Structural)]
pub enum LogLevel {
    INFO,
    WARN,
    ERROR,
}

impl LogLevel {
    /// The level's name, as it is displayed.
    pub fn as_str(&self) -> (s: &'static str)
        ensures
            s@ == match *self {
                LogLevel::INFO => "INFO"@,
                LogLevel::WARN => "WARN"@,
                LogLevel::ERROR => "ERROR"@,
            },
    {
        match self {
            LogLevel::INFO => "INFO",
            LogLevel::WARN => "WARN",
            LogLevel::ERROR => "ERROR",
        }
    }
}

/// One entry of the log.
#[derive(Clone, Debug)]
pub struct LogEntry {
    /// When the entry was made, in RFC 3339; empty where the clock gave no
    /// time that can be written.
    pub timestamp: String,
    pub module: String,
    pub severity: LogLevel,
    pub message: String,
}

/// How many entries the log keeps.
pub const MAX_ENTRIES: usize = 1000;

/// The text ends in the UTC offset `+00:00`.
pub open spec fn utc_stamped(ts: Seq<char>) -> bool {
    ts.len() >= 6 && ts.subrange(ts.len() - 6, ts.len() as int) == "+00:00"@
}

/// An RFC 3339 text of a time in UTC as chrono writes it: at least 25
/// characters, a `T` between date and time, and the offset `+00:00` at the
/// end.
pub open spec fn rfc3339_utc_shaped(ts: Seq<char>) -> bool {
    ts.len() >= 25 && ts.contains('T') && utc_stamped(ts)
}

/// What a log entry's timestamp holds: the time of the entry in RFC 3339,
/// or the empty text where the clock gave no time that can be written.
pub open spec fn stamp_or_empty(ts: Seq<char>) -> bool {
    ts.len() == 0 || rfc3339_utc_shaped(ts)
}

#[verifier::external_type_specification]
#[verifier::external_body]
pub struct ExSystemTime(std::time::SystemTime);

/// The system clock's reading, from `std::time::SystemTime::now()`. Nothing
/// is stated of it: it depends on the clock.
#[verifier::external_body]
fn system_now() -> std::time::SystemTime {
    std::time::SystemTime::now()
}

/// Whole seconds and nanoseconds from the Unix epoch to `t`, from
/// `SystemTime::duration_since(UNIX_EPOCH)`; `None` where `t` lies before
/// the epoch. The nanoseconds are below one billion, as `subsec_nanos`
/// documents; which outcome comes depends on the clock.
#[verifier::external_body]
fn since_unix_epoch(t: &std::time::SystemTime) -> (r: Option<(u64, u32)>)
    ensures
        r matches Some(d) ==> d.1 < 1_000_000_000,
{
    match t.duration_since(std::time::UNIX_EPOCH) {
        Ok(d) => Some((d.as_secs(), d.subsec_nanos())),
        Err(_) => None,
    }
}

/// The RFC 3339 text of the instant `secs` seconds and `nanos`
/// nanoseconds after the Unix epoch, in UTC, as chrono writes it; `None`
/// where chrono has no such instant.
pub uninterp spec fn rfc3339_utc(secs: int, nanos: u32) -> Option<Seq<char>>;

/// The instant `secs` seconds and `nanos` nanoseconds after the Unix epoch
/// written in RFC 3339, from `chrono::DateTime::from_timestamp` and
/// `DateTime::to_rfc3339`; neither panics, and both depend on the two
/// numbers alone, whose result [`rfc3339_utc`] names. `None` where
/// `from_timestamp` finds the seconds outside chrono's calendar or the
/// nanoseconds invalid; when that happens is not stated. For UTC
/// `to_rfc3339` writes the date (a year of four digits, or a sign and at
/// least four digits), `T`, the time and the offset `+00:00`, so at least 25
/// characters; the digits are not stated. Both calls stand in this one item
/// because `DateTime<Tz>` cannot be declared here: its parameter is bound by
/// chrono's `TimeZone` trait.
#[verifier::external_body]
fn rfc3339_at(secs: i64, nanos: u32) -> (r: Option<String>)
    ensures
        match r {
            Some(ts) => rfc3339_utc(secs as int, nanos) == Some(ts@) && rfc3339_utc_shaped(ts@),
            None => rfc3339_utc(secs as int, nanos) is None,
        },
{
    match chrono::DateTime::from_timestamp(secs, nanos) {
        Some(d) => Some(d.to_rfc3339()),
        None => None,
    }
}

/// The timestamp of a clock reading, given as whole seconds and
/// nanoseconds since the Unix epoch (`None` for a reading before it): its
/// RFC 3339 text where the seconds fit in an `i64` and chrono has that
/// instant, the empty text otherwise.
pub open spec fn stamp_text(d: Option<(u64, u32)>) -> Seq<char> {
    match d {
        Some((secs, nanos)) => if secs <= i64::MAX {
            match rfc3339_utc(secs as int, nanos) {
                Some(t) => t,
                None => seq![],
            }
        } else {
            seq![]
        },
        None => seq![],
    }
}

/// The timestamp of a clock reading, given as whole seconds and
/// nanoseconds since the Unix epoch, or `None` for a reading before it.
pub fn stamp_of(d: Option<(u64, u32)>) -> (ts: String)
    ensures
        ts@ == stamp_text(d),
        stamp_or_empty(ts@),
{
    let (secs, nanos) = match d {
        Some(t) => t,
        None => return String::new(),
    };
    if secs > i64::MAX as u64 {
        return String::new();
    }
    match rfc3339_at(secs as i64, nanos) {
        Some(ts) => ts,
        None => String::new(),
    }
}

/// The timestamp of the clock's current reading.
fn now_stamp() -> (ts: String)
    ensures
        stamp_or_empty(ts@),
{
    stamp_of(since_unix_epoch(&system_now()))
}

/// The entries after appending `e`: the oldest one dropped where that makes
/// more than [`MAX_ENTRIES`].
pub open spec fn appended(entries: Seq<LogEntry>, e: LogEntry) -> Seq<LogEntry> {
    let s = entries.push(e);
    if s.len() > MAX_ENTRIES {
        s.drop_first()
    } else {
        s
    }
}

/// The log.
pub struct Logger {
    /// The entries, oldest first.
    pub entries: Vec<LogEntry>,
}

impl Logger {
    /// An empty log.
    pub fn new() -> (l: Self)
        ensures
            l.entries@.len() == 0,
    {
        Logger { entries: Vec::new() }
    }

    /// Appends an entry for `module` with `severity` and `message`, stamped
    /// with the current time (empty where the clock gives none that can be
    /// written); past [`MAX_ENTRIES`] entries the oldest goes.
    pub fn log(&mut self, module: &str, severity: LogLevel, message: &str)
        ensures
            final(self).entries@.len() > 0,
            stamp_or_empty(final(self).entries@.last().timestamp@),
            final(self).entries@ == appended(old(self).entries@, final(self).entries@.last()),
            final(self).entries@.last().module@ == module@,
            final(self).entries@.last().severity == severity,
            final(self).entries@.last().message@ == message@,
    {
        let entry = LogEntry {
            timestamp: now_stamp(),
            module: String::from_str(module),
            severity,
            message: String::from_str(message),
        };
        let ghost e = entry;
        self.entries.push(entry);
        if self.entries.len() > MAX_ENTRIES {
            self.entries.remove(0);
        }
        assert(self.entries@.last() == e);
    }

    /// Appends an `INFO` entry.
    pub fn info(&mut self, module: &str, message: &str)
        ensures
            final(self).entries@.len() > 0,
            stamp_or_empty(final(self).entries@.last().timestamp@),
            final(self).entries@ == appended(old(self).entries@, final(self).entries@.last()),
            final(self).entries@.last().module@ == module@,
            final(self).entries@.last().severity == LogLevel::INFO,
            final(self).entries@.last().message@ == message@,
    {
        self.log(module, LogLevel::INFO, message);
    }

    /// Appends a `WARN` entry.
    pub fn warn(&mut self, module: &str, message: &str)
        ensures
            final(self).entries@.len() > 0,
            stamp_or_empty(final(self).entries@.last().timestamp@),
            final(self).entries@ == appended(old(self).entries@, final(self).entries@.last()),
            final(self).entries@.last().module@ == module@,
            final(self).entries@.last().severity == LogLevel::WARN,
            final(self).entries@.last().message@ == message@,
    {
        self.log(module, LogLevel::WARN, message);
    }

    /// Appends an `ERROR` entry.
    pub fn error(&mut self, module: &str, message: &str)
        ensures
            final(self).entries@.len() > 0,
            stamp_or_empty(final(self).entries@.last().timestamp@),
            final(self).entries@ == appended(old(self).entries@, final(self).entries@.last()),
            final(self).entries@.last().module@ == module@,
            final(self).entries@.last().severity == LogLevel::ERROR,
            final(self).entries@.last().message@ == message@,
    {
        self.log(module, LogLevel::ERROR, message);
    }
}

/// The log never grows past [`MAX_ENTRIES`] entries, and appending keeps
/// every entry but the oldest one when it is full.
pub proof fn lemma_log_bounded(entries: Seq<LogEntry>, e: LogEntry)
    requires
        entries.len() <= MAX_ENTRIES,
    ensures
        appended(entries, e).len() <= MAX_ENTRIES,
        appended(entries, e).last() == e,
        entries.len() < MAX_ENTRIES ==> appended(entries, e) == entries.push(e),
        entries.len() == MAX_ENTRIES ==> appended(entries, e) == entries.drop_first().push(e),
{
    if entries.len() == MAX_ENTRIES {
        assert(entries.push(e).drop_first() =~= entries.drop_first().push(e));
    }
}


/// The log after one call of `log` for each of `calls`, in order, starting
/// from an empty log.
pub open spec fn log_of(calls: Seq<LogEntry>) -> Seq<LogEntry>
    decreases calls.len(),
{
    if calls.len() == 0 {
        seq![]
    } else {
        appended(log_of(calls.drop_last()), calls.last())
    }
}

/// After k calls on an empty log, it holds the entries of the last
/// `min(k, MAX_ENTRIES)` calls, in call order, the most recent last.
pub proof fn lemma_log_keeps_latest(calls: Seq<LogEntry>)
    ensures
        log_of(calls).len() == if calls.len() > MAX_ENTRIES {
            MAX_ENTRIES as int
        } else {
            calls.len() as int
        },
        log_of(calls) == calls.subrange(calls.len() - log_of(calls).len(), calls.len() as int),
    decreases calls.len(),
{
    if calls.len() > 0 {
        let prev = calls.drop_last();
        lemma_log_keeps_latest(prev);
        let m = log_of(prev).len();
        let pushed = log_of(prev).push(calls.last());
        assert(pushed =~= calls.subrange(calls.len() - 1 - m, calls.len() as int));
        if m + 1 > MAX_ENTRIES {
            assert(pushed.drop_first() =~= calls.subrange(
                calls.len() - MAX_ENTRIES,
                calls.len() as int,
            ));
        }
    } else {
        assert(calls.subrange(0, 0) =~= Seq::<LogEntry>::empty());
    }
}

} // verus!
