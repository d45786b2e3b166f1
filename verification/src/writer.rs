//! The writer's side: `RLOG/1` lines, logical file paths and the grouping of
//! repeated events.
use vstd::prelude::*;
use crate::engine::{Event, Stamp};
use crate::fields::EntryView;
use crate::text::{decimal, push_char, push_decimal, push_signed_decimal, push_str, signed_decimal};
use crate::time::{
    chrono_local_day, chrono_rfc3339_millis, hour_of, hour_start, hour_start_of, local_day,
    local_hour, push_two_digits, rfc3339_millis, two_digits, LocalTime,
};
use crate::value::{escape_text, push_escaped};

verus! {

/// Occurrences of one event repeated within the group duration, written as
/// one line.
#[derive(Debug)]
pub struct Group {
    pub first: Event,
    pub last: Stamp,
    /// Local time of the last occurrence.
    pub last_local: LocalTime,
    pub last_seq: u64,
    pub count: u64,
    /// Local time of the first occurrence.
    pub local: LocalTime,
    pub path: String,
}

/// Whole milliseconds from `start` to `now` (monotonic nanoseconds), 0 if
/// `now` is earlier.
pub open spec fn latency_ms(now: u64, start: u64) -> int {
    if now >= start {
        (now - start) / 1_000_000
    } else {
        0
    }
}

/// The user fields as written: ` key=value` for each, in key order.
pub open spec fn fields_text(s: Seq<EntryView>) -> Seq<char>
    decreases s.len(),
{
    if s.len() == 0 {
        Seq::empty()
    } else {
        fields_text(s.drop_last()) + " "@ + s.last().0 + "="@ + s.last().1.rendered()
    }
}

/// The sequence block: `seq=N` for one occurrence; otherwise first and last
/// sequence numbers, the count and the local time of the last occurrence.
pub open spec fn sequence_text(first_seq: u64, last_seq: u64, count: u64, last_time: Seq<char>) -> Seq<char> {
    if count == 1 {
        "seq="@ + decimal(first_seq as nat)
    } else {
        "seq_first="@ + decimal(first_seq as nat) + " seq_last="@ + decimal(last_seq as nat)
            + " count="@ + decimal(count as nat) + " last="@ + last_time
    }
}

/// The optional thread: ` thread="…"`.
pub open spec fn thread_text(thread: Option<String>) -> Seq<char> {
    match thread {
        Some(t) => " thread=\""@ + escape_text(t@) + "\""@,
        None => Seq::empty(),
    }
}

/// Start of a line: format, capture time, level and latency.
pub open spec fn head_text(time: Seq<char>, level: crate::value::Level, latency: int) -> Seq<char> {
    "RLOG/1 "@ + time + " "@ + level.spec_name() + " [LATENCY \u{2014} "@ + decimal(latency as nat)
        + "ms] ["@
}

/// The instance and the source of an event.
pub open spec fn origin_text(name: Seq<char>, source: crate::model::Source) -> Seq<char> {
    " instance="@ + name + " source=\""@ + escape_text(source.module@) + ":"@ + escape_text(
        source.file@,
    ) + ":"@ + decimal(source.line as nat) + "\""@
}

/// End of a line: the escaped message, the repetition suffix, the newline.
pub open spec fn tail_text(message: Seq<char>, count: u64) -> Seq<char> {
    "] "@ + escape_text(message) + (if count > 1 {
        " x"@ + decimal(count as nat)
    } else {
        Seq::empty()
    }) + "\n"@
}

/// The `RLOG/1` line of a group, given the local capture time of its first
/// and last occurrences as RFC 3339 text and its latency in milliseconds.
pub open spec fn group_line(g: Group, first_time: Seq<char>, last_time: Seq<char>, latency: int) -> Seq<char> {
    let e = g.first;
    head_text(first_time, e.level, latency) + sequence_text(e.sequence, g.last_seq, g.count, last_time)
        + origin_text(e.instance_name@, e.source) + thread_text(e.thread) + fields_text(e.fields@)
        + tail_text(e.message@, g.count)
}

/// The overload summary line of an instance.
pub open spec fn summary_line_text(time: Seq<char>, latency: int, sequence: u64, name: Seq<char>, count: u64) -> Seq<char> {
    "RLOG/1 "@ + time + " WARN [LATENCY \u{2014} "@ + decimal(latency as nat) + "ms] [seq="@
        + decimal(sequence as nat) + " instance="@ + name + " source=logger] OVERLOAD refused="@
        + decimal(count as nat) + "\n"@
}

/// The logical path of a file: local day, instance, destination, local hour
/// and the UTC start of that hour.
pub open spec fn path_text(day: Seq<char>, name: Seq<char>, destination: Seq<char>, t: LocalTime) -> Seq<char> {
    day + "/"@ + name + "/"@ + destination + "-"@ + two_digits(local_hour(t)) + "-h"@
        + signed_decimal(hour_start(t))
}

/// Appends the user fields of a line.
fn push_fields(out: &mut String, fields: &crate::fields::Fields)
    ensures
        final(out)@ == old(out)@ + fields_text(fields@),
{
    let entries = fields.entries();
    let ghost s = fields@;
    let mut i: usize = 0;
    assert(s.take(0) =~= Seq::<EntryView>::empty());
    while i < entries.len()
        invariant
            entries@.map_values(|e: (String, crate::value::Value)| crate::fields::entry_view(e)) == s,
            i <= s.len(),
            out@ == old(out)@ + fields_text(s.take(i as int)),
        decreases s.len() - i,
    {
        assert(crate::fields::entry_view(entries@[i as int]) == s[i as int]);
        push_str(out, " ");
        push_str(out, entries[i].0.as_str());
        push_str(out, "=");
        entries[i].1.push_rendered(out);
        assert(s.take(i + 1).drop_last() =~= s.take(i as int));
        assert(out@ =~= old(out)@ + fields_text(s.take(i + 1)));
        i = i + 1;
    }
    assert(s.take(s.len() as int) =~= s);
}

fn push_head(out: &mut String, time: &str, level: crate::value::Level, latency: u64)
    ensures
        final(out)@ == old(out)@ + head_text(time@, level, latency as int),
{
    push_str(out, "RLOG/1 ");
    push_str(out, time);
    push_str(out, " ");
    level.push_name(out);
    push_str(out, " [LATENCY \u{2014} ");
    push_decimal(out, latency);
    push_str(out, "ms] [");
    assert(final(out)@ =~= old(out)@ + head_text(time@, level, latency as int));
}

fn push_sequence(out: &mut String, first_seq: u64, last_seq: u64, count: u64, last_time: &str)
    ensures
        final(out)@ == old(out)@ + sequence_text(first_seq, last_seq, count, last_time@),
{
    if count == 1 {
        push_str(out, "seq=");
        push_decimal(out, first_seq);
    } else {
        push_str(out, "seq_first=");
        push_decimal(out, first_seq);
        push_str(out, " seq_last=");
        push_decimal(out, last_seq);
        push_str(out, " count=");
        push_decimal(out, count);
        push_str(out, " last=");
        push_str(out, last_time);
    }
    assert(final(out)@ =~= old(out)@ + sequence_text(first_seq, last_seq, count, last_time@));
}

fn push_origin(out: &mut String, name: &str, source: crate::model::Source)
    ensures
        final(out)@ == old(out)@ + origin_text(name@, source),
{
    push_str(out, " instance=");
    push_str(out, name);
    push_str(out, " source=\"");
    push_escaped(out, source.module);
    push_str(out, ":");
    push_escaped(out, source.file);
    push_str(out, ":");
    push_decimal(out, source.line as u64);
    push_str(out, "\"");
    assert(final(out)@ =~= old(out)@ + origin_text(name@, source));
}

fn push_thread(out: &mut String, thread: &Option<String>)
    ensures
        final(out)@ == old(out)@ + thread_text(*thread),
{
    match thread {
        Some(t) => {
            push_str(out, " thread=\"");
            push_escaped(out, t.as_str());
            push_str(out, "\"");
        },
        None => {},
    }
    assert(final(out)@ =~= old(out)@ + thread_text(*thread));
}

fn push_tail(out: &mut String, message: &str, count: u64)
    ensures
        final(out)@ == old(out)@ + tail_text(message@, count),
{
    push_str(out, "] ");
    push_escaped(out, message);
    if count > 1 {
        push_str(out, " x");
        push_decimal(out, count);
    }
    push_str(out, "\n");
    assert(final(out)@ =~= old(out)@ + tail_text(message@, count));
}

/// The `RLOG/1` line of a group from the RFC 3339 texts of its first and last
/// occurrences and its latency in milliseconds.
pub fn compose_line(g: &Group, first_time: &str, last_time: &str, latency: u64) -> (r: String)
    ensures
        r@ == group_line(*g, first_time@, last_time@, latency as int),
{
    let e = &g.first;
    let mut out = String::new();
    push_head(&mut out, first_time, e.level, latency);
    push_sequence(&mut out, e.sequence, g.last_seq, g.count, last_time);
    push_origin(&mut out, e.instance_name.as_str(), e.source);
    push_thread(&mut out, &e.thread);
    push_fields(&mut out, &e.fields);
    push_tail(&mut out, e.message.as_str(), g.count);
    assert(out@ =~= group_line(*g, first_time@, last_time@, latency as int));
    out
}

/// The line of a finished group at monotonic time `now`, with chrono's RFC 3339
/// rendering of its local times; `None` when chrono cannot render them.
pub fn finish_line(g: &Group, now: u64) -> (r: Option<String>)
    ensures
        match r {
            Some(line) => {
                &&& chrono_rfc3339_millis(g.local.timestamp, g.local.nanos, g.local.offset) is Some
                &&& g.count > 1 ==> chrono_rfc3339_millis(
                    g.last_local.timestamp,
                    g.last_local.nanos,
                    g.last_local.offset,
                ) is Some
                &&& line@ == group_line(
                    *g,
                    chrono_rfc3339_millis(g.local.timestamp, g.local.nanos, g.local.offset)->0,
                    if g.count > 1 {
                        chrono_rfc3339_millis(
                            g.last_local.timestamp,
                            g.last_local.nanos,
                            g.last_local.offset,
                        )->0
                    } else {
                        Seq::empty()
                    },
                    latency_ms(now, g.first.stamp.mono),
                )
            },
            None => chrono_rfc3339_millis(g.local.timestamp, g.local.nanos, g.local.offset) is None
                || (g.count > 1 && chrono_rfc3339_millis(
                g.last_local.timestamp,
                g.last_local.nanos,
                g.last_local.offset,
            ) is None),
        },
{
    let first = match rfc3339_millis(&g.local) {
        Some(t) => t,
        None => return None,
    };
    let last = if g.count > 1 {
        match rfc3339_millis(&g.last_local) {
            Some(t) => t,
            None => return None,
        }
    } else {
        String::new()
    };
    let latency = if now >= g.first.stamp.mono {
        (now - g.first.stamp.mono) / 1_000_000
    } else {
        0
    };
    Some(compose_line(g, first.as_str(), last.as_str(), latency))
}

/// The overload summary line from the RFC 3339 text of its capture time.
pub fn compose_summary_line(time: &str, latency: u64, sequence: u64, name: &str, count: u64) -> (r: String)
    ensures
        r@ == summary_line_text(time@, latency as int, sequence, name@, count),
{
    let mut out = String::new();
    push_str(&mut out, "RLOG/1 ");
    push_str(&mut out, time);
    push_str(&mut out, " WARN [LATENCY \u{2014} ");
    push_decimal(&mut out, latency);
    push_str(&mut out, "ms] [seq=");
    push_decimal(&mut out, sequence);
    push_str(&mut out, " instance=");
    push_str(&mut out, name);
    push_str(&mut out, " source=logger] OVERLOAD refused=");
    push_decimal(&mut out, count);
    push_str(&mut out, "\n");
    assert(out@ =~= summary_line_text(time@, latency as int, sequence, name@, count));
    out
}

/// The overload summary line of instance `name`, captured at `stamp` (local
/// time `local`), written at monotonic time `now`.
pub fn summary_line(local: &LocalTime, stamp: Stamp, now: u64, sequence: u64, name: &str, count: u64) -> (r: Option<String>)
    ensures
        match r {
            Some(line) => chrono_rfc3339_millis(local.timestamp, local.nanos, local.offset) matches Some(t)
                && line@ == summary_line_text(t, latency_ms(now, stamp.mono), sequence, name@, count),
            None => chrono_rfc3339_millis(local.timestamp, local.nanos, local.offset) is None,
        },
{
    let time = match rfc3339_millis(local) {
        Some(t) => t,
        None => return None,
    };
    let latency = if now >= stamp.mono {
        (now - stamp.mono) / 1_000_000
    } else {
        0
    };
    Some(compose_summary_line(time.as_str(), latency, sequence, name, count))
}

/// The logical path from the local day text.
pub fn compose_path(day: &str, name: &str, destination: &str, t: &LocalTime) -> (r: Option<String>)
    ensures
        match r {
            Some(p) => p@ == path_text(day@, name@, destination@, *t) && hour_start(*t) >= i64::MIN,
            None => hour_start(*t) < i64::MIN,
        },
{
    let start = match hour_start_of(t) {
        Some(h) => h,
        None => return None,
    };
    let mut out = String::new();
    push_str(&mut out, day);
    push_str(&mut out, "/");
    push_str(&mut out, name);
    push_str(&mut out, "/");
    push_str(&mut out, destination);
    push_str(&mut out, "-");
    push_two_digits(&mut out, hour_of(t));
    push_str(&mut out, "-h");
    push_signed_decimal(&mut out, start);
    assert(out@ =~= path_text(day@, name@, destination@, *t));
    Some(out)
}

/// `day/instance/destination-HH-h<UTC start of the hour>` for an event of
/// instance `name` at local time `t`; `None` when chrono cannot render the day.
pub fn path_for(name: &str, destination: &str, t: &LocalTime) -> (r: Option<String>)
    ensures
        match r {
            Some(p) => chrono_local_day(t.timestamp, t.offset) matches Some(day) && p@ == path_text(
                day,
                name@,
                destination@,
                *t,
            ) && hour_start(*t) >= i64::MIN,
            None => chrono_local_day(t.timestamp, t.offset) is None || hour_start(*t) < i64::MIN,
        },
{
    let day = match local_day(t) {
        Some(d) => d,
        None => return None,
    };
    compose_path(day.as_str(), name, destination, t)
}

} // verus!
