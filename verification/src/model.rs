//! Configuration, results and counters of the logger.
use vstd::prelude::*;
use crate::fields::{EntryView, Fields};
use crate::names::{spec_valid_name, valid_name};
use crate::text::{byte_len, byte_length, same_text, to_chars};
use crate::value::Level;

verus! {

/// Errors of configuration, registration and lifecycle calls.
#[derive(Clone, Debug, PartialEq, Eq)]
pub enum Error {
    Invalid(&'static str),
    Limit(&'static str),
    Closed,
    Failed(String),
    Io(String),
}

/// Why an event was not accepted.
#[derive(Clone, Copy, Debug, PartialEq, Eq, Structural)]
pub enum Refusal {
    Full,
    TooLarge,
    Closed,
    Failed,
    Invalid,
    UnknownDestination,
}

/// Outcome of one emission.
#[derive(Clone, Copy, Debug, PartialEq, Eq, Structural)]
pub enum EmitResult {
    Accepted(u64),
    Filtered,
    Refused(Refusal),
}

/// Life cycle of a runtime: `Open` → `Closing` → `Closed`, or `Failed`.
#[derive(Clone, Copy, Debug, PartialEq, Eq, Structural)]
pub enum Health {
    Open,
    Closing,
    Closed,
    Failed,
}

/// Where an event was produced.
#[derive(Clone, Copy, Debug, PartialEq, Eq)]
pub struct Source {
    pub module: &'static str,
    pub file: &'static str,
    pub line: u32,
}

impl Source {
    /// The empty source.
    pub fn unknown() -> (r: Source)
        ensures
            r.module@.len() == 0,
            r.file@.len() == 0,
            r.line == 0,
    {
        proof {
            reveal_strlit("");
        }
        Source { module: "", file: "", line: 0 }
    }
}

/// Events whose module path is `module_prefix` or lies under it (`prefix::…`)
/// go to `destination`, unless an explicit destination is given.
#[derive(Clone, Debug)]
pub struct Route {
    pub module_prefix: String,
    pub destination: String,
}

/// Per-instance (or total) counters.
#[derive(Clone, Copy, Debug, PartialEq, Eq, Structural)]
pub struct Counters {
    pub accepted: u64,
    pub filtered: u64,
    pub full: u64,
    pub too_large: u64,
    pub closed: u64,
    pub failed: u64,
    pub invalid: u64,
    pub unknown_destination: u64,
    pub written: u64,
    pub lines: u64,
    pub overload_reported: u64,
}

impl Counters {
    /// All counters at zero.
    pub fn zero() -> (r: Counters)
        ensures
            r.sum() == 0,
            r.accepted == 0 && r.filtered == 0 && r.written == 0 && r.lines == 0,
            r.spec_refused() == 0,
            r.overload_reported == 0,
    {
        Counters {
            accepted: 0,
            filtered: 0,
            full: 0,
            too_large: 0,
            closed: 0,
            failed: 0,
            invalid: 0,
            unknown_destination: 0,
            written: 0,
            lines: 0,
            overload_reported: 0,
        }
    }

    /// Number of refused events, all reasons together.
    pub open spec fn spec_refused(self) -> int {
        self.full + self.too_large + self.closed + self.failed + self.invalid
            + self.unknown_destination
    }

    /// Sum of all counters.
    pub open spec fn sum(self) -> int {
        self.accepted + self.filtered + self.spec_refused() + self.written + self.lines
            + self.overload_reported
    }

    /// Number of refused events, all reasons together.
    pub fn refused(&self) -> (r: u64)
        requires
            self.spec_refused() <= u64::MAX,
        ensures
            r == self.spec_refused(),
    {
        self.full + self.too_large + self.closed + self.failed + self.invalid
            + self.unknown_destination
    }

    /// The counter that a refusal reason increments.
    pub open spec fn refusal_count(self, reason: Refusal) -> u64 {
        match reason {
            Refusal::Full => self.full,
            Refusal::TooLarge => self.too_large,
            Refusal::Closed => self.closed,
            Refusal::Failed => self.failed,
            Refusal::Invalid => self.invalid,
            Refusal::UnknownDestination => self.unknown_destination,
        }
    }

    /// `self` with the counter of `reason` one higher, the others unchanged.
    pub open spec fn with_refusal(self, reason: Refusal) -> Counters {
        match reason {
            Refusal::Full => Counters { full: (self.full + 1) as u64, ..self },
            Refusal::TooLarge => Counters { too_large: (self.too_large + 1) as u64, ..self },
            Refusal::Closed => Counters { closed: (self.closed + 1) as u64, ..self },
            Refusal::Failed => Counters { failed: (self.failed + 1) as u64, ..self },
            Refusal::Invalid => Counters { invalid: (self.invalid + 1) as u64, ..self },
            Refusal::UnknownDestination => Counters {
                unknown_destination: (self.unknown_destination + 1) as u64,
                ..self
            },
        }
    }

    /// Field-wise sum.
    pub open spec fn plus(self, o: Counters) -> Counters {
        Counters {
            accepted: (self.accepted + o.accepted) as u64,
            filtered: (self.filtered + o.filtered) as u64,
            full: (self.full + o.full) as u64,
            too_large: (self.too_large + o.too_large) as u64,
            closed: (self.closed + o.closed) as u64,
            failed: (self.failed + o.failed) as u64,
            invalid: (self.invalid + o.invalid) as u64,
            unknown_destination: (self.unknown_destination + o.unknown_destination) as u64,
            written: (self.written + o.written) as u64,
            lines: (self.lines + o.lines) as u64,
            overload_reported: (self.overload_reported + o.overload_reported) as u64,
        }
    }

    /// Field-wise sum, when it fits.
    pub fn add(&self, o: &Counters) -> (r: Counters)
        requires
            self.sum() + o.sum() <= u64::MAX,
        ensures
            r == self.plus(*o),
            r.sum() == self.sum() + o.sum(),
    {
        Counters {
            accepted: self.accepted + o.accepted,
            filtered: self.filtered + o.filtered,
            full: self.full + o.full,
            too_large: self.too_large + o.too_large,
            closed: self.closed + o.closed,
            failed: self.failed + o.failed,
            invalid: self.invalid + o.invalid,
            unknown_destination: self.unknown_destination + o.unknown_destination,
            written: self.written + o.written,
            lines: self.lines + o.lines,
            overload_reported: self.overload_reported + o.overload_reported,
        }
    }
}

/// A consistent snapshot of a runtime.
#[derive(Clone, Debug)]
pub struct Report {
    pub health: Health,
    pub totals: Counters,
    /// One entry per registered instance, in registration order.
    pub instances: Vec<(String, Counters)>,
    pub pending: u64,
    pub reserved_events: usize,
    pub reserved_bytes: usize,
    pub context_bytes: usize,
    pub error: Option<String>,
}

/// A failed shutdown retains its reconciliation report.
#[derive(Clone, Debug)]
pub struct ShutdownError {
    pub report: Box<Report>,
}

/// Keys that the writer uses itself.
pub open spec fn reserved_key(k: Seq<char>) -> bool {
    ||| k == seq!['s', 'e', 'q']
    ||| k == seq!['s', 'e', 'q', '_', 'f', 'i', 'r', 's', 't']
    ||| k == seq!['s', 'e', 'q', '_', 'l', 'a', 's', 't']
    ||| k == seq!['l', 'a', 't', 'e', 'n', 'c', 'y']
    ||| k == seq!['i', 'n', 's', 't', 'a', 'n', 'c', 'e']
    ||| k == seq!['r', 'u', 'n']
    ||| k == seq!['c', 'o', 'u', 'n', 't']
    ||| k == seq!['s', 'o', 'u', 'r', 'c', 'e']
    ||| k == seq!['t', 'h', 'r', 'e', 'a', 'd']
    ||| k == seq!['t', 'i', 'm', 'e', 's', 't', 'a', 'm', 'p']
}

/// ASCII letter, digit or underscore.
pub open spec fn key_char(c: char) -> bool {
    ('a' <= c <= 'z') || ('A' <= c <= 'Z') || ('0' <= c <= '9') || c == '_'
}

/// A field key: 1 to 64 ASCII letters, digits or underscores, not reserved.
pub open spec fn valid_key(k: Seq<char>) -> bool {
    &&& 0 < k.len() <= 64
    &&& forall|i: int| 0 <= i < k.len() ==> key_char(#[trigger] k[i])
    &&& !reserved_key(k)
}

/// Bytes that one field counts for: key, value and a fixed overhead of 96.
pub open spec fn entry_size(e: EntryView) -> int {
    (byte_len(e.0) + e.1.size() + 96) as int
}

/// Budget of the first entries of a field map, checked in key order.
pub open spec fn prefix_size(s: Seq<EntryView>) -> Result<usize, Error>
    decreases s.len(),
{
    if s.len() == 0 {
        Ok(0usize)
    } else {
        match prefix_size(s.drop_last()) {
            Err(e) => Err(e),
            Ok(acc) => {
                let e = s.last();
                if !valid_key(e.0) {
                    Err(Error::Invalid("invalid or reserved field key"))
                } else if !e.1.finite() {
                    Err(Error::Invalid("non-finite field"))
                } else if acc + entry_size(e) > usize::MAX {
                    Err(Error::Invalid("field size overflow"))
                } else {
                    Ok((acc + entry_size(e)) as usize)
                }
            },
        }
    }
}

/// Budget of a field map: at most 64 fields, each valid and finite; the sum of
/// their sizes.
pub open spec fn spec_field_size(s: Seq<EntryView>) -> Result<usize, Error> {
    if s.len() > 64 {
        Err(Error::Invalid("at most 64 fields"))
    } else {
        prefix_size(s)
    }
}

fn reserved_key_exec(k: &[char]) -> (r: bool)
    ensures
        r == reserved_key(k@),
{
    let names: [&[char]; 10] = [
        &['s', 'e', 'q'],
        &['s', 'e', 'q', '_', 'f', 'i', 'r', 's', 't'],
        &['s', 'e', 'q', '_', 'l', 'a', 's', 't'],
        &['l', 'a', 't', 'e', 'n', 'c', 'y'],
        &['i', 'n', 's', 't', 'a', 'n', 'c', 'e'],
        &['r', 'u', 'n'],
        &['c', 'o', 'u', 'n', 't'],
        &['s', 'o', 'u', 'r', 'c', 'e'],
        &['t', 'h', 'r', 'e', 'a', 'd'],
        &['t', 'i', 'm', 'e', 's', 't', 'a', 'm', 'p'],
    ];
    assert(names@[0]@ =~= seq!['s', 'e', 'q']);
    assert(names@[1]@ =~= seq!['s', 'e', 'q', '_', 'f', 'i', 'r', 's', 't']);
    assert(names@[2]@ =~= seq!['s', 'e', 'q', '_', 'l', 'a', 's', 't']);
    assert(names@[3]@ =~= seq!['l', 'a', 't', 'e', 'n', 'c', 'y']);
    assert(names@[4]@ =~= seq!['i', 'n', 's', 't', 'a', 'n', 'c', 'e']);
    assert(names@[5]@ =~= seq!['r', 'u', 'n']);
    assert(names@[6]@ =~= seq!['c', 'o', 'u', 'n', 't']);
    assert(names@[7]@ =~= seq!['s', 'o', 'u', 'r', 'c', 'e']);
    assert(names@[8]@ =~= seq!['t', 'h', 'r', 'e', 'a', 'd']);
    assert(names@[9]@ =~= seq!['t', 'i', 'm', 'e', 's', 't', 'a', 'm', 'p']);
    same_text(k, names[0]) || same_text(k, names[1]) || same_text(k, names[2]) || same_text(
        k,
        names[3],
    ) || same_text(k, names[4]) || same_text(k, names[5]) || same_text(k, names[6])
        || same_text(k, names[7]) || same_text(k, names[8]) || same_text(k, names[9])
}

/// Whether `k` is a valid field key.
pub fn valid_key_exec(k: &str) -> (r: bool)
    ensures
        r == valid_key(k@),
{
    let cs = to_chars(k);
    if cs.len() == 0 || cs.len() > 64 {
        return false;
    }
    let mut i: usize = 0;
    while i < cs.len()
        invariant
            i <= cs@.len(),
            cs@ == k@,
            0 < cs@.len() <= 64,
            forall|j: int| 0 <= j < i ==> key_char(#[trigger] cs@[j]),
        decreases cs@.len() - i,
    {
        let c = cs[i];
        if !((c >= 'a' && c <= 'z') || (c >= 'A' && c <= 'Z') || (c >= '0' && c <= '9') || c
            == '_') {
            assert(!key_char(cs@[i as int]));
            return false;
        }
        i = i + 1;
    }
    !reserved_key_exec(&cs)
}

/// Budget of a field map; refuses more than 64 fields, invalid or reserved
/// keys and non-finite floats.
pub fn field_size(fields: &Fields) -> (r: Result<usize, Error>)
    ensures
        r == spec_field_size(fields@),
{
    let n = fields.len();
    if n > 64 {
        return Err(Error::Invalid("at most 64 fields"));
    }
    let entries = fields.entries();
    let ghost s = fields@;
    let mut size: usize = 0;
    let mut i: usize = 0;
    assert(s.take(0) =~= Seq::<EntryView>::empty());
    while i < entries.len()
        invariant
            entries@.map_values(|e: (String, crate::value::Value)| crate::fields::entry_view(e))
                == s,
            i <= s.len(),
            prefix_size(s.take(i as int)) == Ok::<usize, Error>(size),
            s == fields@,
            s.len() <= 64,
        decreases s.len() - i,
    {
        let k = entries[i].0.as_str();
        let v = &entries[i].1;
        assert(crate::fields::entry_view(entries@[i as int]) == s[i as int]);
        assert(s.take(i + 1).drop_last() =~= s.take(i as int));
        assert(s.take(i + 1).last() == s[i as int]);
        assert(k@ == s[i as int].0);
        assert(v.view() == s[i as int].1);
        if !valid_key_exec(k) {
            assert(prefix_size(s.take(i + 1)) == Err::<usize, Error>(Error::Invalid("invalid or reserved field key")));
            proof { lemma_prefix_error(s, i + 1); }
            return Err(Error::Invalid("invalid or reserved field key"));
        }
        if !v.is_finite() {
            assert(prefix_size(s.take(i + 1)) == Err::<usize, Error>(Error::Invalid("non-finite field")));
            proof { lemma_prefix_error(s, i + 1); }
            return Err(Error::Invalid("non-finite field"));
        }
        let item = match byte_length(k).checked_add(v.size()) {
            Some(x) => x.checked_add(96),
            None => None,
        };
        let next = match item {
            Some(x) => size.checked_add(x),
            None => None,
        };
        match next {
            Some(total) => {
                size = total;
            },
            None => {
                proof { lemma_prefix_error(s, i + 1); }
                return Err(Error::Invalid("field size overflow"));
            },
        }
        i = i + 1;
    }
    assert(s.take(s.len() as int) =~= s);
    Ok(size)
}

/// Once a prefix fails, every longer prefix fails the same way.
proof fn lemma_prefix_error(s: Seq<EntryView>, i: int)
    requires
        0 <= i <= s.len(),
        prefix_size(s.take(i)) is Err,
    ensures
        prefix_size(s) == prefix_size(s.take(i)),
    decreases s.len() - i,
{
    if i < s.len() {
        assert(s.take(i + 1).drop_last() =~= s.take(i));
        lemma_prefix_error(s, i + 1);
    } else {
        assert(s.take(i) =~= s);
    }
}

/// Registration of one instance.
#[derive(Debug)]
pub struct InstanceConfig {
    pub name: String,
    pub level: Level,
    pub context: Fields,
    pub destinations: Vec<String>,
    pub routes: Vec<Route>,
    pub capture_thread: bool,
}

impl InstanceConfig {
    /// An `Info` instance with the single destination `app`.
    pub fn new(name: String) -> (r: InstanceConfig)
        ensures
            r.name@ == name@,
            r.level == Level::Info,
            r.context@.len() == 0,
            r.destinations@.len() == 1,
            r.destinations@[0]@ == seq!['a', 'p', 'p'],
            r.routes@.len() == 0,
            !r.capture_thread,
    {
        let mut app = String::new();
        crate::text::push_char(&mut app, 'a');
        crate::text::push_char(&mut app, 'p');
        crate::text::push_char(&mut app, 'p');
        assert(app@ =~= seq!['a', 'p', 'p']);
        InstanceConfig {
            name,
            level: Level::Info,
            context: Fields::new(),
            destinations: vec![app],
            routes: Vec::new(),
            capture_thread: false,
        }
    }
}

/// Resource limits and application context. Durations are in nanoseconds.
#[derive(Debug)]
pub struct Config {
    pub directory: String,
    pub max_events: usize,
    pub max_bytes: usize,
    pub max_event_bytes: usize,
    pub max_instances: usize,
    pub max_destinations: usize,
    pub max_writers: usize,
    pub writer_buffer_bytes: usize,
    pub max_context_bytes: usize,
    pub group_duration: u64,
    pub flush_interval: u64,
    pub overload_interval: u64,
    pub context: Fields,
}

/// One second in nanoseconds.
pub const SECOND: u64 = 1_000_000_000;
/// One millisecond in nanoseconds.
pub const MILLISECOND: u64 = 1_000_000;

impl Config {
    /// Default limits under `directory`: 8,192 events, 32 MiB, 8 KiB per event,
    /// 32 instances, 128 destinations, 32 writers of 64 KiB, 1 MiB of contexts,
    /// groups of 200 ms, flushes every 100 ms, overload reports every second.
    pub fn new(directory: String) -> (r: Config)
        ensures
            r.directory@ == directory@,
            r.max_events == 8192,
            r.max_bytes == 32 * 1024 * 1024,
            r.max_event_bytes == 8192,
            r.max_instances == 32,
            r.max_destinations == 128,
            r.max_writers == 32,
            r.writer_buffer_bytes == 65536,
            r.max_context_bytes == 1024 * 1024,
            r.group_duration == 200 * MILLISECOND,
            r.flush_interval == 100 * MILLISECOND,
            r.overload_interval == SECOND,
            r.context@.len() == 0,
    {
        Config {
            directory,
            max_events: 8192,
            max_bytes: 32 * 1024 * 1024,
            max_event_bytes: 8192,
            max_instances: 32,
            max_destinations: 128,
            max_writers: 32,
            writer_buffer_bytes: 65536,
            max_context_bytes: 1024 * 1024,
            group_duration: 200 * MILLISECOND,
            flush_interval: 100 * MILLISECOND,
            overload_interval: SECOND,
            context: Fields::new(),
        }
    }

    /// Whether the resource and duration limits are consistent.
    pub open spec fn limits_ok(&self) -> bool {
        &&& self.directory@.len() > 0
        &&& self.max_events > 0
        &&& self.max_event_bytes >= 256
        &&& self.max_bytes >= self.max_event_bytes
        &&& self.max_instances > 0
        &&& self.max_destinations > 0
        &&& self.max_writers > 0
        &&& self.writer_buffer_bytes > 0
        &&& self.max_context_bytes >= self.max_event_bytes
        &&& self.group_duration > 0
        &&& self.flush_interval > 0
        &&& self.overload_interval > 0
        &&& self.group_duration + self.flush_interval <= SECOND
    }

    /// The outcome of validation.
    pub open spec fn spec_validate(&self) -> Result<(), Error> {
        if !self.limits_ok() {
            Err(Error::Invalid("invalid resource or duration limits"))
        } else {
            match spec_field_size(self.context@) {
                Err(e) => Err(e),
                Ok(n) => if n > self.max_event_bytes {
                    Err(Error::Invalid("application context too large"))
                } else {
                    Ok(())
                },
            }
        }
    }

    /// Checks limits and the application context.
    pub fn validate(&self) -> (r: Result<(), Error>)
        ensures
            r == self.spec_validate(),
    {
        let sum_ok = match self.group_duration.checked_add(self.flush_interval) {
            Some(d) => d <= SECOND,
            None => false,
        };
        if self.directory.as_str().is_empty() || self.max_events == 0 || self.max_event_bytes < 256
            || self.max_bytes < self.max_event_bytes || self.max_instances == 0
            || self.max_destinations == 0 || self.max_writers == 0 || self.writer_buffer_bytes
            == 0 || self.max_context_bytes < self.max_event_bytes || self.group_duration == 0
            || self.flush_interval == 0 || self.overload_interval == 0 || !sum_ok {
            return Err(Error::Invalid("invalid resource or duration limits"));
        }
        match field_size(&self.context) {
            Err(e) => Err(e),
            Ok(n) => if n > self.max_event_bytes {
                Err(Error::Invalid("application context too large"))
            } else {
                Ok(())
            },
        }
    }
}

} // verus!
