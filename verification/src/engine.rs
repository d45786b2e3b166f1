//! Admission state of a runtime: health, bounded credits, sequence numbers,
//! per-instance counters and the queue of items for the writer.
//!
//! Every operation here is meant to run under the runtime's admission lock; the
//! writer's disk work happens outside it.
use vstd::prelude::*;
use std::collections::VecDeque;
use crate::fields::{entries_of, Fields};
use crate::model::{
    field_size, spec_field_size, Config, Counters, EmitResult, Error, Health, InstanceConfig,
    Refusal, Report, Source,
};
use crate::routing::{names_view, routes_view, select_destination, spec_destination};
use crate::text::{byte_len, byte_length, same_text, to_chars};
use crate::value::Level;

verus! {

/// Monotonic and wall-clock reading taken at capture.
#[derive(Clone, Copy, Debug, PartialEq, Eq, Structural)]
pub struct Stamp {
    /// Nanoseconds since the runtime started (monotonic).
    pub mono: u64,
    /// Seconds since the UNIX epoch (wall clock).
    pub wall_secs: i64,
    /// Nanoseconds within that second.
    pub wall_nanos: u32,
}

/// An accepted event, owned by the queue and then by the writer.
#[derive(Debug)]
pub struct Event {
    pub instance: usize,
    pub instance_name: String,
    pub destination: String,
    pub level: Level,
    pub source: Source,
    pub fields: Fields,
    pub message: String,
    pub thread: Option<String>,
    pub sequence: u64,
    pub stamp: Stamp,
    pub epoch: u64,
}

/// Work for the writer, in admission order.
#[derive(Debug)]
pub enum Item {
    Event(Event),
    /// Overload control line: `count` events of the instance refused as `Full`.
    Summary { instance: usize, stamp: Stamp, sequence: u64, count: u64 },
    Barrier(u64),
    Shutdown,
}

/// Sequence number carried by an item, if any.
pub open spec fn item_sequence(it: Item) -> Option<u64> {
    match it {
        Item::Event(e) => Some(e.sequence),
        Item::Summary { sequence, .. } => Some(sequence),
        _ => None,
    }
}

/// Instance an item belongs to, if any.
pub open spec fn item_instance(it: Item) -> Option<usize> {
    match it {
        Item::Event(e) => Some(e.instance),
        Item::Summary { instance, .. } => Some(instance),
        _ => None,
    }
}

/// Sequenced items appear in strictly increasing order, none beyond `sequence`,
/// and each belongs to one of the first `n` instances.
pub open spec fn queue_ordered(q: Seq<Item>, sequence: u64, n: nat) -> bool {
    &&& forall|i: int, j: int|
        0 <= i < j < q.len() && item_sequence(q[i]) is Some && item_sequence(q[j]) is Some
            ==> item_sequence(#[trigger] q[i])->0 < item_sequence(#[trigger] q[j])->0
    &&& forall|i: int|
        0 <= i < q.len() && item_sequence(#[trigger] q[i]) is Some ==> item_sequence(q[i])->0
            <= sequence
    &&& forall|i: int|
        0 <= i < q.len() && item_instance(#[trigger] q[i]) is Some ==> item_instance(q[i])->0 < n
}

/// Number of events in a queue; each holds one reserved slot.
pub open spec fn count_events(q: Seq<Item>) -> int
    decreases q.len(),
{
    if q.len() == 0 {
        0
    } else {
        (if q[0] is Event { 1int } else { 0int }) + count_events(q.drop_first())
    }
}

pub proof fn lemma_count_events_push(q: Seq<Item>, x: Item)
    ensures
        count_events(q.push(x)) == count_events(q) + if x is Event { 1int } else { 0int },
        count_events(q) >= 0,
    decreases q.len(),
{
    if q.len() > 0 {
        assert(q.push(x).drop_first() =~= q.drop_first().push(x));
        assert(q.push(x)[0] == q[0]);
        lemma_count_events_push(q.drop_first(), x);
    } else {
        assert(q.push(x).drop_first() =~= Seq::<Item>::empty());
        assert(count_events(Seq::<Item>::empty()) == 0);
        assert(q.push(x)[0] == x);
    }
}

pub proof fn lemma_count_events_nonneg(q: Seq<Item>)
    ensures
        0 <= count_events(q) <= q.len(),
    decreases q.len(),
{
    if q.len() > 0 {
        lemma_count_events_nonneg(q.drop_first());
    }
}

/// Mutable per-instance admission data.
#[derive(Clone, Copy, Debug, PartialEq, Eq, Structural)]
pub struct InstanceStats {
    pub counters: Counters,
    /// Continuity epoch: any refusal starts a new one, so groups never span a refusal.
    pub epoch: u64,
    /// `Full` refusals not yet reported by an overload summary.
    pub overload_pending: u64,
    pub summary_queued: bool,
    /// Monotonic time of the last summary, in nanoseconds.
    pub last_summary: u64,
}

/// Limits that admission enforces, from the configuration.
#[derive(Clone, Copy, Debug, PartialEq, Eq, Structural)]
pub struct Limits {
    pub max_events: usize,
    pub max_bytes: usize,
    pub max_event_bytes: usize,
    pub max_context_bytes: usize,
    pub max_instances: usize,
    pub max_destinations: usize,
    pub overload_interval: u64,
}

impl Limits {
    pub open spec fn wf(self) -> bool {
        &&& self.max_events > 0
        &&& self.max_event_bytes >= 256
        &&& self.max_bytes >= self.max_event_bytes
        &&& self.max_context_bytes >= self.max_event_bytes
        &&& self.max_instances > 0
        &&& self.max_destinations > 0
    }
}

/// Sum of a per-instance quantity.
pub open spec fn sum_of(s: Seq<InstanceStats>, f: spec_fn(InstanceStats) -> int) -> int
    decreases s.len(),
{
    if s.len() == 0 {
        0
    } else {
        sum_of(s.drop_last(), f) + f(s.last())
    }
}

pub open spec fn counter_sum(x: InstanceStats) -> int {
    x.counters.sum()
}

/// What sequence numbers can have been spent on: accepted events and `Full`
/// refusals already reported by a summary.
pub open spec fn sequence_budget(x: InstanceStats) -> int {
    x.counters.accepted + x.counters.full - x.overload_pending
}

pub proof fn lemma_sum_update(
    s: Seq<InstanceStats>,
    i: int,
    x: InstanceStats,
    f: spec_fn(InstanceStats) -> int,
)
    requires
        0 <= i < s.len(),
    ensures
        sum_of(s.update(i, x), f) == sum_of(s, f) - f(s[i]) + f(x),
    decreases s.len(),
{
    if i < s.len() - 1 {
        lemma_sum_update(s.drop_last(), i, x, f);
        assert(s.update(i, x).drop_last() =~= s.drop_last().update(i, x));
    } else {
        assert(s.update(i, x).drop_last() =~= s.drop_last());
    }
}

pub proof fn lemma_sum_push(s: Seq<InstanceStats>, x: InstanceStats, f: spec_fn(InstanceStats) -> int)
    ensures
        sum_of(s.push(x), f) == sum_of(s, f) + f(x),
{
    assert(s.push(x).drop_last() =~= s);
}

pub proof fn lemma_sum_nonneg_bound(s: Seq<InstanceStats>, i: int, f: spec_fn(InstanceStats) -> int)
    requires
        0 <= i < s.len(),
        forall|k: int| 0 <= k < s.len() ==> f(#[trigger] s[k]) >= 0,
    ensures
        f(s[i]) <= sum_of(s, f),
        sum_of(s, f) >= 0,
    decreases s.len(),
{
    lemma_sum_nonneg(s.drop_last(), f);
    if i < s.len() - 1 {
        assert forall|k: int| 0 <= k < s.len() - 1 implies f(#[trigger] s.drop_last()[k]) >= 0 by {
            assert(s.drop_last()[k] == s[k]);
        }
        lemma_sum_nonneg_bound(s.drop_last(), i, f);
    }
}

pub proof fn lemma_sum_nonneg(s: Seq<InstanceStats>, f: spec_fn(InstanceStats) -> int)
    requires
        forall|k: int| 0 <= k < s.len() ==> f(#[trigger] s[k]) >= 0,
    ensures
        sum_of(s, f) >= 0,
    decreases s.len(),
{
    if s.len() > 0 {
        assert forall|k: int| 0 <= k < s.len() - 1 implies f(#[trigger] s.drop_last()[k]) >= 0 by {
            assert(s.drop_last()[k] == s[k]);
        }
        lemma_sum_nonneg(s.drop_last(), f);
        assert(f(s[s.len() - 1]) >= 0);
    }
}

/// Field-wise total of the counters.
pub open spec fn total_counters(s: Seq<InstanceStats>) -> Counters
    decreases s.len(),
{
    if s.len() == 0 {
        Counters {
            accepted: 0,
            filtered: 0,
            full: 0,
            too_large: 0,
            closed: 0,
            failed: 0,
            invalid: 0,
            unknown_destination: 0,
            written: 0,
            lines: 0,
            overload_reported: 0,
        }
    } else {
        total_counters(s.drop_last()).plus(s.last().counters)
    }
}

/// Total number of destinations of the registered instances.
pub open spec fn dest_total(s: Seq<InstanceConfig>) -> int
    decreases s.len(),
{
    if s.len() == 0 {
        0
    } else {
        dest_total(s.drop_last()) + s.last().destinations@.len()
    }
}

/// Epoch after a continuity break (wrapping).
pub open spec fn next_epoch(e: u64) -> u64 {
    if e == u64::MAX {
        0
    } else {
        (e + 1) as u64
    }
}

/// Instance data after a refusal: its reason counted, continuity broken, and a
/// `Full` refusal added to the overload balance.
pub open spec fn refused_stats(x: InstanceStats, reason: Refusal) -> InstanceStats {
    InstanceStats {
        counters: x.counters.with_refusal(reason),
        epoch: next_epoch(x.epoch),
        overload_pending: if reason == Refusal::Full {
            (x.overload_pending + 1) as u64
        } else {
            x.overload_pending
        },
        ..x
    }
}

/// Instance data after a filtered event.
pub open spec fn filtered_stats(x: InstanceStats) -> InstanceStats {
    InstanceStats { counters: Counters { filtered: (x.counters.filtered + 1) as u64, ..x.counters }, ..x }
}

/// Instance data after an accepted event.
pub open spec fn accepted_stats(x: InstanceStats) -> InstanceStats {
    InstanceStats { counters: Counters { accepted: (x.counters.accepted + 1) as u64, ..x.counters }, ..x }
}

/// The admission state of a runtime.
pub struct State {
    pub health: Health,
    pub error: Option<String>,
    pub queue: VecDeque<Item>,
    /// Registered instances, in registration order (an instance's id is its index).
    pub instances: Vec<InstanceConfig>,
    pub stats: Vec<InstanceStats>,
    pub sequence: u64,
    pub reserved_events: usize,
    pub reserved_bytes: usize,
    pub context_bytes: usize,
    pub completed_barrier: u64,
    pub next_barrier: u64,
    pub limits: Limits,
}

impl State {
    /// The invariant that every operation keeps.
    pub open spec fn wf(&self) -> bool {
        &&& self.limits.wf()
        &&& self.reserved_events <= self.limits.max_events
        &&& self.reserved_bytes <= self.limits.max_bytes
        &&& self.reserved_bytes == self.reserved_events * self.limits.max_event_bytes
        &&& self.context_bytes <= self.limits.max_context_bytes
        &&& self.instances@.len() == self.stats@.len()
        &&& self.instances@.len() <= self.limits.max_instances
        &&& forall|i: int| 0 <= i < self.stats@.len() ==> {
            &&& (#[trigger] self.stats@[i]).overload_pending <= self.stats@[i].counters.full
            &&& self.stats@[i].counters.written <= self.stats@[i].counters.accepted
        }
        &&& forall|i: int| 0 <= i < self.instances@.len() ==> (#[trigger] self.instances@[i]).destinations@.len() > 0
        &&& sum_of(self.stats@, |x: InstanceStats| counter_sum(x)) <= u64::MAX
        &&& self.sequence <= sum_of(self.stats@, |x: InstanceStats| sequence_budget(x))
        &&& queue_ordered(self.queue@, self.sequence, self.instances@.len())
        &&& self.completed_barrier <= self.next_barrier
        &&& dest_total(self.instances@) <= self.limits.max_destinations
        &&& forall|i: int, j: int|
            0 <= i < j < self.instances@.len() ==> (#[trigger] self.instances@[i]).name@
                != (#[trigger] self.instances@[j]).name@
        &&& count_events(self.queue@) <= self.reserved_events
    }

    /// Room for `n` more counted occurrences without any counter total overflowing.
    pub open spec fn room(&self, n: int) -> bool {
        sum_of(self.stats@, |x: InstanceStats| counter_sum(x)) + n <= u64::MAX
    }

    /// Sum of all counters of all instances.
    pub fn counted(&self) -> (r: u64)
        requires
            self.wf(),
        ensures
            r == sum_of(self.stats@, |x: InstanceStats| counter_sum(x)),
    {
        let ghost f = |x: InstanceStats| counter_sum(x);
        let mut total: u64 = 0;
        let mut i: usize = 0;
        proof {
            assert forall|k: int| 0 <= k < self.stats@.len() implies f(#[trigger] self.stats@[k]) >= 0 by {}
        }
        while i < self.stats.len()
            invariant
                self.wf(),
                i <= self.stats@.len(),
                total == sum_of(self.stats@.take(i as int), f),
                f == |x: InstanceStats| counter_sum(x),
            decreases self.stats@.len() - i,
        {
            proof {
                let t = self.stats@.take(i + 1);
                assert(t.drop_last() =~= self.stats@.take(i as int));
                assert forall|k: int| 0 <= k < t.len() implies f(#[trigger] t[k]) >= 0 by {}
                assert forall|k: int| 0 <= k < self.stats@.len() implies f(#[trigger] self.stats@[k]) >= 0 by {}
                lemma_prefix_sum_bound(self.stats@, i + 1, f);
            }
            let c = self.stats[i].counters;
            total = total + c.accepted + c.filtered + c.full + c.too_large + c.closed + c.failed
                + c.invalid + c.unknown_destination + c.written + c.lines + c.overload_reported;
            i = i + 1;
        }
        assert(self.stats@.take(self.stats@.len() as int) =~= self.stats@);
        total
    }

    /// Whether `n` more counted occurrences fit.
    pub fn has_room(&self, n: u64) -> (r: bool)
        requires
            self.wf(),
        ensures
            r == self.room(n as int),
    {
        let c = self.counted();
        c <= u64::MAX - n
    }
}

/// A prefix sum of nonnegative terms is at most the whole sum.
pub proof fn lemma_prefix_sum_bound(s: Seq<InstanceStats>, i: int, f: spec_fn(InstanceStats) -> int)
    requires
        0 <= i <= s.len(),
        forall|k: int| 0 <= k < s.len() ==> f(#[trigger] s[k]) >= 0,
    ensures
        sum_of(s.take(i), f) <= sum_of(s, f),
    decreases s.len() - i,
{
    if i < s.len() {
        lemma_prefix_sum_bound(s, i + 1, f);
        assert(s.take(i + 1).drop_last() =~= s.take(i));
        assert(f(s[i]) >= 0);
    } else {
        assert(s.take(i) =~= s);
    }
}

} // verus!

verus! {

/// What admission grants an event before its message is formatted: its
/// destination, its effective fields and the bytes left for its message. The
/// grant holds one reserved slot and one event's worth of credit.
#[derive(Debug)]
pub struct Admission {
    pub instance: usize,
    pub destination: String,
    pub level: Level,
    pub source: Source,
    pub fields: Fields,
    pub limit: usize,
}

/// Where the queue capacity comes from: the slots that the credits allow, plus
/// one summary per instance and two control items.
pub open spec fn spec_queue_capacity(config: &Config) -> Option<int> {
    let slots = if config.max_events <= config.max_bytes / config.max_event_bytes {
        config.max_events as int
    } else {
        (config.max_bytes / config.max_event_bytes) as int
    };
    if slots + config.max_instances + 2 <= usize::MAX {
        Some(slots + config.max_instances + 2)
    } else {
        None
    }
}

/// `VecDeque::try_reserve_exact`: whether the allocation succeeded. The queue's
/// content is unchanged either way.
#[verifier::external_body]
fn try_reserve_queue(q: &mut VecDeque<Item>, additional: usize) -> (r: bool)
    ensures
        final(q)@ == old(q)@,
{
    q.try_reserve_exact(additional).is_ok()
}

impl State {
    /// An open runtime state with no instance, after validating the configuration
    /// and reserving the queue.
    pub fn start(config: &Config) -> (r: Result<State, Error>)
        ensures
            match r {
                Ok(st) => {
                    &&& config.spec_validate() is Ok
                    &&& spec_queue_capacity(config) is Some
                    &&& st.wf()
                    &&& st.health == Health::Open
                    &&& st.instances@.len() == 0
                    &&& st.queue@.len() == 0
                    &&& st.sequence == 0
                    &&& st.reserved_events == 0
                    &&& st.context_bytes == 0
                    &&& st.limits.max_event_bytes == config.max_event_bytes
                    &&& st.limits.max_events == config.max_events
                    &&& st.limits.max_bytes == config.max_bytes
                },
                Err(e) => match config.spec_validate() {
                    Err(v) => e == v,
                    Ok(()) => match spec_queue_capacity(config) {
                        None => e == Error::Invalid("queue capacity overflow"),
                        Some(_) => e == Error::Limit("queue allocation"),
                    },
                },
            },
    {
        match config.validate() {
            Err(e) => return Err(e),
            Ok(()) => {},
        }
        let per_bytes = config.max_bytes / config.max_event_bytes;
        let slots = if config.max_events <= per_bytes {
            config.max_events
        } else {
            per_bytes
        };
        let capacity = match slots.checked_add(config.max_instances) {
            Some(n) => n.checked_add(2),
            None => None,
        };
        let capacity = match capacity {
            Some(c) => c,
            None => return Err(Error::Invalid("queue capacity overflow")),
        };
        let mut queue: VecDeque<Item> = VecDeque::new();
        if !try_reserve_queue(&mut queue, capacity) {
            return Err(Error::Limit("queue allocation"));
        }
        let st = State {
            health: Health::Open,
            error: None,
            queue,
            instances: Vec::new(),
            stats: Vec::new(),
            sequence: 0,
            reserved_events: 0,
            reserved_bytes: 0,
            context_bytes: 0,
            completed_barrier: 0,
            next_barrier: 0,
            limits: Limits {
                max_events: config.max_events,
                max_bytes: config.max_bytes,
                max_event_bytes: config.max_event_bytes,
                max_context_bytes: config.max_context_bytes,
                max_instances: config.max_instances,
                max_destinations: config.max_destinations,
                overload_interval: config.overload_interval,
            },
        };
        assert(st.queue@ =~= Seq::<Item>::empty());
        Ok(st)
    }

    /// The recorded failure text, or the empty text.
    pub fn error_text(&self) -> (r: String)
        ensures
            r@ == match self.error {
                Some(e) => e@,
                None => Seq::<char>::empty(),
            },
    {
        match &self.error {
            Some(e) => e.clone(),
            None => String::new(),
        }
    }

    pub(crate) fn closed_error_exec(&self) -> (r: Error)
        requires
            self.health != Health::Open,
        ensures
            match self.health {
                Health::Failed => r matches Error::Failed(t) && t@ == match self.error {
                    Some(e) => e@,
                    None => Seq::<char>::empty(),
                },
                _ => r == Error::Closed,
            },
    {
        match self.health {
            Health::Failed => Error::Failed(self.error_text()),
            _ => Error::Closed,
        }
    }

    /// Registers an instance whose names, routes and context
    /// ([`crate::routing::check_instance`]) are already checked. Its id is returned.
    pub fn register(&mut self, config: InstanceConfig) -> (r: Result<usize, Error>)
        requires
            old(self).wf(),
            config.destinations@.len() > 0,
        ensures
            final(self).wf(),
            match r {
                Ok(id) => {
                    &&& old(self).health == Health::Open
                    &&& old(self).instances@.len() < old(self).limits.max_instances
                    &&& dest_total(old(self).instances@) + config.destinations@.len()
                        <= old(self).limits.max_destinations
                    &&& forall|i: int| 0 <= i < old(self).instances@.len() ==> (#[trigger] old(self).instances@[i]).name@ != config.name@
                    &&& id == old(self).instances@.len()
                    &&& final(self).instances@ == old(self).instances@.push(config)
                    &&& final(self).stats@[id as int].counters.sum() == 0
                    &&& final(self).stats@[id as int].overload_pending == 0
                    &&& final(self).stats@.drop_last() == old(self).stats@
                    &&& final(self).queue@ == old(self).queue@
                    &&& final(self).health == old(self).health
                    &&& final(self).sequence == old(self).sequence
                },
                Err(e) => {
                    &&& *final(self) == *old(self)
                    &&& if old(self).health != Health::Open {
                        matches_closed(e, *old(self))
                    } else if old(self).instances@.len() >= old(self).limits.max_instances
                        || dest_total(old(self).instances@) + config.destinations@.len()
                        > old(self).limits.max_destinations {
                        e == Error::Limit("instance/destination registry")
                    } else {
                        &&& e == Error::Invalid("duplicate instance name")
                        &&& exists|i: int| 0 <= i < old(self).instances@.len() && (#[trigger] old(self).instances@[i]).name@ == config.name@
                    }
                },
            },
    {
        if self.health != Health::Open {
            return Err(self.closed_error_exec());
        }
        let mut total: usize = 0;
        let mut i: usize = 0;
        assert(self.instances@.take(0) =~= Seq::<InstanceConfig>::empty());
        while i < self.instances.len()
            invariant
                self.wf(),
                i <= self.instances@.len(),
                total == dest_total(self.instances@.take(i as int)),
            decreases self.instances@.len() - i,
        {
            proof {
                assert(self.instances@.take(i + 1).drop_last() =~= self.instances@.take(i as int));
                lemma_dest_total_prefix(self.instances@, i + 1);
            }
            total = total + self.instances[i].destinations.len();
            i = i + 1;
        }
        assert(self.instances@.take(self.instances@.len() as int) =~= self.instances@);
        if self.instances.len() >= self.limits.max_instances || config.destinations.len()
            > self.limits.max_destinations || total > self.limits.max_destinations
            - config.destinations.len() {
            return Err(Error::Limit("instance/destination registry"));
        }
        let name = to_chars(config.name.as_str());
        let mut j: usize = 0;
        while j < self.instances.len()
            invariant
                self.wf(),
                *self == *old(self),
                self.health == Health::Open,
                self.instances@.len() < self.limits.max_instances,
                dest_total(self.instances@) + config.destinations@.len() <= self.limits.max_destinations,
                config.destinations@.len() > 0,
                name@ == config.name@,
                j <= self.instances@.len(),
                forall|k: int| 0 <= k < j ==> (#[trigger] self.instances@[k]).name@ != config.name@,
            decreases self.instances@.len() - j,
        {
            let other = to_chars(self.instances[j].name.as_str());
            if same_text(&other, &name) {
                assert(self.instances@[j as int].name@ == config.name@);
                return Err(Error::Invalid("duplicate instance name"));
            }
            j = j + 1;
        }
        let id = self.instances.len();
        let ghost old_stats = self.stats@;
        let ghost old_instances = self.instances@;
        let zero = InstanceStats {
            counters: Counters::zero(),
            epoch: 0,
            overload_pending: 0,
            summary_queued: false,
            last_summary: 0,
        };
        self.instances.push(config);
        self.stats.push(zero);
        proof {
            lemma_sum_push(old_stats, zero, |x: InstanceStats| counter_sum(x));
            lemma_sum_push(old_stats, zero, |x: InstanceStats| sequence_budget(x));
            assert(self.instances@.drop_last() =~= old_instances);
            assert(self.stats@.drop_last() =~= old_stats);
            assert forall|i: int| 0 <= i < self.stats@.len() implies {
                &&& (#[trigger] self.stats@[i]).overload_pending <= self.stats@[i].counters.full
                &&& self.stats@[i].counters.written <= self.stats@[i].counters.accepted
            } by {
                if i < old_stats.len() {
                    assert(self.stats@[i] == old_stats[i]);
                }
            }
            assert forall|i: int| 0 <= i < self.instances@.len() implies (#[trigger] self.instances@[i]).destinations@.len() > 0 by {
                if i < old_instances.len() {
                    assert(self.instances@[i] == old_instances[i]);
                }
            }
            assert forall|i: int|
                0 <= i < self.queue@.len() && item_instance(#[trigger] self.queue@[i]) is Some implies item_instance(self.queue@[i])->0 < self.instances@.len() by {}
            assert forall|i: int, j: int|
                0 <= i < j < self.instances@.len() implies (#[trigger] self.instances@[i]).name@
                    != (#[trigger] self.instances@[j]).name@ by {
                assert(self.instances@[i] == old_instances[i]);
                if j < old_instances.len() {
                    assert(self.instances@[j] == old_instances[j]);
                }
            }
        }
        Ok(id)
    }
}

/// The error of a call refused by a state that is not open.
pub open spec fn matches_closed(e: Error, st: State) -> bool {
    if st.health == Health::Failed {
        e matches Error::Failed(t) && t@ == match st.error {
            Some(x) => x@,
            None => Seq::<char>::empty(),
        }
    } else {
        e == Error::Closed
    }
}

proof fn lemma_dest_total_prefix(s: Seq<InstanceConfig>, i: int)
    requires
        0 <= i <= s.len(),
    ensures
        dest_total(s.take(i)) <= dest_total(s),
    decreases s.len() - i,
{
    if i < s.len() {
        lemma_dest_total_prefix(s, i + 1);
        assert(s.take(i + 1).drop_last() =~= s.take(i));
    } else {
        assert(s.take(i) =~= s);
    }
}

} // verus!
