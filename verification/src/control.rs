//! Overload summaries, failure, barriers, shutdown, operation contexts and the
//! writer's side of the admission state.
use vstd::prelude::*;
use crate::accounting::{lemma_summaries_keep_accounting, unwritten};
use crate::admission::{lemma_budget_le_counters, same_except_stats};
use crate::engine::{
    count_events, counter_sum, item_instance, item_sequence, lemma_count_events_nonneg,
    lemma_count_events_push, lemma_sum_nonneg_bound, lemma_sum_update, matches_closed,
    sequence_budget, sum_of, InstanceStats, Item, Stamp, State,
};
use crate::fields::{entries_of, EntryView, Fields};
use crate::model::{field_size, spec_field_size, EmitResult, Error, Health, Refusal};

verus! {

/// `a - b`, or 0 when `b` is larger.
pub open spec fn sat_sub(a: u64, b: u64) -> int {
    if a >= b {
        a - b
    } else {
        0
    }
}

/// An instance owes an overload summary: it has unreported `Full` refusals, no
/// summary of it is queued, and the interval since the last one has passed
/// (unless forced).
pub open spec fn summary_due(x: InstanceStats, now: u64, force: bool, interval: u64) -> bool {
    &&& x.overload_pending > 0
    &&& !x.summary_queued
    &&& (force || sat_sub(now, x.last_summary) >= interval)
}

/// Instance data once its summary is queued.
pub open spec fn summarized(x: InstanceStats, now: u64) -> InstanceStats {
    InstanceStats { overload_pending: 0, summary_queued: true, last_summary: now, ..x }
}

/// Ids of the instances that owe a summary, ascending.
pub open spec fn due_ids(s: Seq<InstanceStats>, now: u64, force: bool, interval: u64) -> Seq<int>
    decreases s.len(),
{
    if s.len() == 0 {
        Seq::empty()
    } else {
        let p = due_ids(s.drop_last(), now, force, interval);
        if summary_due(s.last(), now, force, interval) {
            p.push(s.len() - 1)
        } else {
            p
        }
    }
}

/// The summaries queued, in instance order, numbered after `sequence`.
pub open spec fn summary_items(
    s: Seq<InstanceStats>,
    now: Stamp,
    force: bool,
    interval: u64,
    sequence: int,
) -> Seq<Item> {
    let ids = due_ids(s, now.mono, force, interval);
    Seq::new(
        ids.len(),
        |j: int|
            Item::Summary {
                instance: ids[j] as usize,
                stamp: now,
                sequence: (sequence + 1 + j) as u64,
                count: s[ids[j]].overload_pending,
            },
    )
}

/// Instance data after the summaries are queued.
pub open spec fn summaries_stats(s: Seq<InstanceStats>, now: u64, force: bool, interval: u64) -> Seq<
    InstanceStats,
> {
    Seq::new(
        s.len(),
        |i: int|
            if summary_due(s[i], now, force, interval) {
                summarized(s[i], now)
            } else {
                s[i]
            },
    )
}

/// Health, error, credits, contexts, barriers and limits are the same.
pub open spec fn same_control(a: State, b: State) -> bool {
    &&& a.health == b.health
    &&& a.error == b.error
    &&& a.instances@ == b.instances@
    &&& a.reserved_events == b.reserved_events
    &&& a.reserved_bytes == b.reserved_bytes
    &&& a.context_bytes == b.context_bytes
    &&& a.completed_barrier == b.completed_barrier
    &&& a.next_barrier == b.next_barrier
    &&& a.limits == b.limits
}

/// The effect of queueing the due summaries.
pub open spec fn summaries_done(a: State, b: State, now: Stamp, force: bool) -> bool {
    let interval = a.limits.overload_interval;
    let items = summary_items(a.stats@, now, force, interval, a.sequence as int);
    &&& same_control(a, b)
    &&& b.stats@ == summaries_stats(a.stats@, now.mono, force, interval)
    &&& b.queue@ == a.queue@ + items
    &&& b.sequence == a.sequence + items.len()
}

pub proof fn lemma_due_ids_bound(s: Seq<InstanceStats>, now: u64, force: bool, interval: u64)
    ensures
        due_ids(s, now, force, interval).len() <= s.len(),
        forall|j: int|
            0 <= j < due_ids(s, now, force, interval).len() ==> 0 <= #[trigger] due_ids(
                s,
                now,
                force,
                interval,
            )[j] < s.len() && summary_due(s[due_ids(s, now, force, interval)[j]], now, force, interval),
    decreases s.len(),
{
    if s.len() > 0 {
        let t = s.drop_last();
        lemma_due_ids_bound(t, now, force, interval);
        let p = due_ids(t, now, force, interval);
        assert forall|j: int| 0 <= j < p.len() implies s[#[trigger] p[j]] == t[p[j]] by {}
    }
}

/// The due ids of a prefix extend by the next instance when it owes a summary.
proof fn lemma_due_ids_step(s: Seq<InstanceStats>, i: int, now: u64, force: bool, interval: u64)
    requires
        0 <= i < s.len(),
    ensures
        due_ids(s.take(i + 1), now, force, interval) == if summary_due(s[i], now, force, interval) {
            due_ids(s.take(i), now, force, interval).push(i)
        } else {
            due_ids(s.take(i), now, force, interval)
        },
{
    assert(s.take(i + 1).drop_last() =~= s.take(i));
}

/// Reserved slots left once the writer fails while holding `held` grouped
/// events: the queued events' slots and `held` more go back.
pub open spec fn writer_failure(st: State, held: int) -> int {
    let left = st.reserved_events - count_events(st.queue@);
    if left >= held {
        left - held
    } else {
        0
    }
}

impl State {
    /// Queues an overload summary for every instance that owes one, in instance
    /// order: its unreported `Full` count, the next sequence number and `now`.
    pub fn summaries(&mut self, now: Stamp, force: bool)
        requires
            old(self).wf(),
        ensures
            final(self).wf(),
            summaries_done(*old(self), *final(self), now, force),
    {
        let ghost s0 = self.stats@;
        let ghost q0 = self.queue@;
        let ghost seq0 = self.sequence;
        let ghost interval = self.limits.overload_interval;
        let n = self.stats.len();
        let mut i: usize = 0;
        assert(s0.take(0) =~= Seq::<InstanceStats>::empty());
        assert(summary_items(s0.take(0), now, force, interval, seq0 as int) =~= Seq::<Item>::empty());
        assert(q0 + Seq::<Item>::empty() =~= q0);
        while i < n
            invariant
                self.wf(),
                n == s0.len(),
                i <= n,
                interval == self.limits.overload_interval,
                same_control(*old(self), *self),
                self.stats@.len() == n,
                forall|k: int|
                    0 <= k < i ==> #[trigger] self.stats@[k] == summaries_stats(
                        s0,
                        now.mono,
                        force,
                        interval,
                    )[k],
                forall|k: int| i <= k < n ==> #[trigger] self.stats@[k] == s0[k],
                self.queue@ == q0 + summary_items(s0.take(i as int), now, force, interval, seq0 as int),
                self.sequence == seq0 + due_ids(s0.take(i as int), now.mono, force, interval).len(),
            decreases n - i,
        {
            let ghost before = *self;
            let x = self.stats[i];
            proof {
                lemma_due_ids_step(s0, i as int, now.mono, force, interval);
                assert(s0.take(i + 1)[i as int] == s0[i as int]);
            }
            let elapsed = if now.mono >= x.last_summary {
                now.mono - x.last_summary
            } else {
                0
            };
            if x.overload_pending > 0 && !x.summary_queued && (force || elapsed >= self.limits.overload_interval) {
                let count = x.overload_pending;
                let y = InstanceStats {
                    overload_pending: 0,
                    summary_queued: true,
                    last_summary: now.mono,
                    ..x
                };
                let ghost old_stats = self.stats@;
                self.stats.set(i, y);
                proof {
                    lemma_sum_update(old_stats, i as int, y, |x: InstanceStats| counter_sum(x));
                    lemma_sum_update(old_stats, i as int, y, |x: InstanceStats| sequence_budget(x));
                    assert forall|k: int| 0 <= k < self.stats@.len() implies (#[trigger] self.stats@[k]).overload_pending
                        <= self.stats@[k].counters.full by {
                        if k != i {
                            assert(self.stats@[k] == old_stats[k]);
                        }
                    }
                    lemma_budget_le_counters(self.stats@);
                }
                self.sequence = self.sequence + 1;
                let item = Item::Summary { instance: i, stamp: now, sequence: self.sequence, count };
                proof {
                    lemma_count_events_push(self.queue@, item);
                }
                let ghost q1 = self.queue@;
                self.queue.push_back(item);
                proof {
                    let items = summary_items(s0.take(i + 1), now, force, interval, seq0 as int);
                    let prev = summary_items(s0.take(i as int), now, force, interval, seq0 as int);
                    lemma_due_ids_bound(s0.take(i as int), now.mono, force, interval);
                    let ids0 = due_ids(s0.take(i as int), now.mono, force, interval);
                    let ids1 = due_ids(s0.take(i + 1), now.mono, force, interval);
                    assert(ids1 == ids0.push(i as int));
                    assert forall|j: int| 0 <= j < ids0.len() implies #[trigger] items[j] == prev[j] by {
                        assert(ids1[j] == ids0[j]);
                        assert(s0.take(i + 1)[ids0[j]] == s0.take(i as int)[ids0[j]]);
                    }
                    assert(items[ids0.len() as int] == item);
                    assert(items =~= prev.push(item));
                    assert(self.queue@ =~= q0 + items);
                    let q = self.queue@;
                    assert forall|a: int, b: int|
                        0 <= a < b < q.len() && item_sequence(q[a]) is Some && item_sequence(q[b]) is Some
                            implies item_sequence(#[trigger] q[a])->0 < item_sequence(#[trigger] q[b])->0 by {
                        if b < q.len() - 1 {
                            assert(q[a] == q1[a] && q[b] == q1[b]);
                        } else {
                            assert(q[a] == q1[a]);
                        }
                    }
                    assert forall|a: int|
                        0 <= a < q.len() && item_sequence(#[trigger] q[a]) is Some implies item_sequence(q[a])->0
                            <= self.sequence by {
                        if a < q.len() - 1 {
                            assert(q[a] == q1[a]);
                        }
                    }
                    assert forall|a: int|
                        0 <= a < q.len() && item_instance(#[trigger] q[a]) is Some implies item_instance(q[a])->0
                            < self.instances@.len() by {
                        if a < q.len() - 1 {
                            assert(q[a] == q1[a]);
                        }
                    }
                    assert forall|k: int|
                        0 <= k < self.stats@.len() implies self.stats@[k].counters.written
                            <= (#[trigger] self.stats@[k]).counters.accepted by {
                        if k != i {
                            assert(self.stats@[k] == old_stats[k]);
                        }
                    }
                }
            } else {
                proof {
                    let items = summary_items(s0.take(i + 1), now, force, interval, seq0 as int);
                    let prev = summary_items(s0.take(i as int), now, force, interval, seq0 as int);
                    lemma_due_ids_bound(s0.take(i as int), now.mono, force, interval);
                    let ids0 = due_ids(s0.take(i as int), now.mono, force, interval);
                    assert forall|j: int| 0 <= j < ids0.len() implies #[trigger] items[j] == prev[j] by {
                        assert(s0.take(i + 1)[ids0[j]] == s0.take(i as int)[ids0[j]]);
                    }
                    assert(items =~= prev);
                }
            }
            i = i + 1;
        }
        proof {
            assert(s0.take(n as int) =~= s0);
            assert(self.stats@ =~= summaries_stats(s0, now.mono, force, interval));
        }
    }

    /// The writer stopped on `error`: the runtime fails, the queued events
    /// are dropped with their slots, and the writer gives back the slots of
    /// the `held` events it still grouped (never more than remain reserved).
    pub fn writer_failed(&mut self, error: String, held: usize)
        requires
            old(self).wf(),
        ensures
            final(self).wf(),
            final(self).health == Health::Failed,
            final(self).error == Some(error),
            final(self).queue@.len() == 0,
            final(self).reserved_events == writer_failure(*old(self), held as int),
            final(self).stats@ == old(self).stats@,
            final(self).sequence == old(self).sequence,
    {
        self.fail(error);
        let ghost start = self.reserved_events;
        let mut i: usize = 0;
        while i < held && self.reserved_events > 0
            invariant
                self.wf(),
                self.queue@.len() == 0,
                self.health == Health::Failed,
                self.error == Some(error),
                self.stats@ == old(self).stats@,
                self.sequence == old(self).sequence,
                i <= held,
                self.reserved_events == start - i,
                start == old(self).reserved_events - count_events(old(self).queue@),
            decreases held - i,
        {
            proof {
                assert(self.queue@ =~= Seq::<Item>::empty());
                assert(count_events(self.queue@) == 0);
            }
            self.release();
            i = i + 1;
        }
    }

    /// An emission when the counters cannot grow any more: the runtime fails
    /// with "counter overflow" and the emission is refused as `Failed`,
    /// without being counted.
    pub fn counters_full(&mut self) -> (r: EmitResult)
        requires
            old(self).wf(),
        ensures
            final(self).wf(),
            r == EmitResult::Refused(Refusal::Failed),
            final(self).health == Health::Failed,
            final(self).error matches Some(t) && t@ == "counter overflow"@,
            final(self).stats@ == old(self).stats@,
            final(self).sequence == old(self).sequence,
    {
        self.fail("counter overflow".to_owned());
        EmitResult::Refused(Refusal::Failed)
    }

    /// Records a failure: no more admission, and the queued items are dropped
    /// with the slots of their events.
    pub fn fail(&mut self, error: String)
        requires
            old(self).wf(),
        ensures
            final(self).wf(),
            final(self).health == Health::Failed,
            final(self).error == Some(error),
            final(self).queue@.len() == 0,
            final(self).reserved_events == old(self).reserved_events - count_events(old(self).queue@),
            final(self).stats@ == old(self).stats@,
            final(self).instances@ == old(self).instances@,
            final(self).sequence == old(self).sequence,
            final(self).context_bytes == old(self).context_bytes,
            final(self).completed_barrier == old(self).completed_barrier,
            final(self).next_barrier == old(self).next_barrier,
            final(self).limits == old(self).limits,
    {
        let ghost q0 = self.queue@;
        let mut dropped: usize = 0;
        proof {
            lemma_count_events_nonneg(q0);
        }
        loop
            invariant
                self.wf(),
                self.stats@ == old(self).stats@,
                self.instances@ == old(self).instances@,
                self.sequence == old(self).sequence,
                self.context_bytes == old(self).context_bytes,
                self.completed_barrier == old(self).completed_barrier,
                self.next_barrier == old(self).next_barrier,
                self.limits == old(self).limits,
                self.reserved_events == old(self).reserved_events,
                dropped + count_events(self.queue@) == count_events(q0),
                count_events(q0) <= old(self).reserved_events,
            ensures
                self.queue@.len() == 0,
            decreases self.queue@.len(),
        {
            let ghost q = self.queue@;
            match self.queue.pop_front() {
                Some(item) => {
                    proof {
                        assert(q.drop_first() =~= self.queue@);
                        lemma_count_events_nonneg(self.queue@);
                        let q2 = self.queue@;
                        assert forall|a: int, b: int|
                            0 <= a < b < q2.len() && item_sequence(q2[a]) is Some && item_sequence(q2[b]) is Some
                                implies item_sequence(#[trigger] q2[a])->0 < item_sequence(#[trigger] q2[b])->0 by {
                            assert(q2[a] == q[a + 1] && q2[b] == q[b + 1]);
                        }
                        assert forall|a: int|
                            0 <= a < q2.len() && item_sequence(#[trigger] q2[a]) is Some implies item_sequence(q2[a])->0
                                <= self.sequence by {
                            assert(q2[a] == q[a + 1]);
                        }
                        assert forall|a: int|
                            0 <= a < q2.len() && item_instance(#[trigger] q2[a]) is Some implies item_instance(q2[a])->0
                                < self.instances@.len() by {
                            assert(q2[a] == q[a + 1]);
                        }
                    }
                    if let Item::Event(_) = item {
                        dropped = dropped + 1;
                    }
                },
                None => break,
            }
        }
        assert(count_events(self.queue@) == 0);
        proof {
            let e = self.reserved_events as int;
            let d = dropped as int;
            let m = self.limits.max_event_bytes as int;
            assert((e - d) * m == e * m - d * m) by (nonlinear_arith);
            assert(d * m <= e * m) by (nonlinear_arith)
                requires
                    0 <= d <= e,
                    m >= 0,
            ;
        }
        self.reserved_bytes = self.reserved_bytes - dropped * self.limits.max_event_bytes;
        self.reserved_events = self.reserved_events - dropped;
        self.health = Health::Failed;
        self.error = Some(error);
    }
}

} // verus!

verus! {

/// What the writer does next.
#[derive(Debug)]
pub enum WriterStep {
    /// The state failed: the writer stops.
    Stop,
    /// The next item, in admission order.
    Next(Item),
    /// Nothing is queued: the writer waits.
    Idle,
}

/// The outcome of an operation context request: the budget of its own fields
/// (at most half an event), the health, the shared context budget, then the
/// budget of the effective context (at most half an event).
pub open spec fn context_view(st: State, fields: Seq<EntryView>, effective: Seq<EntryView>) -> Result<
    (),
    Error,
> {
    let meb = st.limits.max_event_bytes;
    match spec_field_size(fields) {
        Err(e) => Err(e),
        Ok(n) => if n > meb / 2 {
            Err(Error::Invalid("operation context too large"))
        } else if st.health != Health::Open {
            Err(Error::Closed)
        } else if st.context_bytes + meb > st.limits.max_context_bytes {
            Err(Error::Limit("shared context budget"))
        } else {
            match spec_field_size(effective) {
                Err(e) => Err(e),
                Ok(m) => if m > meb / 2 {
                    Err(Error::Invalid("effective context too large"))
                } else {
                    Ok(())
                },
            }
        },
    }
}

/// Same state but for the barrier counter and the queue.
pub open spec fn same_but_queue(a: State, b: State) -> bool {
    &&& a.health == b.health
    &&& a.error == b.error
    &&& a.instances@ == b.instances@
    &&& a.stats@ == b.stats@
    &&& a.sequence == b.sequence
    &&& a.reserved_events == b.reserved_events
    &&& a.reserved_bytes == b.reserved_bytes
    &&& a.context_bytes == b.context_bytes
    &&& a.completed_barrier == b.completed_barrier
    &&& a.limits == b.limits
}

proof fn lemma_push_control(q: Seq<Item>, x: Item, sequence: u64, n: nat)
    requires
        crate::engine::queue_ordered(q, sequence, n),
        item_sequence(x) is None,
        item_instance(x) is None,
    ensures
        crate::engine::queue_ordered(q.push(x), sequence, n),
        count_events(q.push(x)) == count_events(q) + if x is Event { 1int } else { 0int },
{
    lemma_count_events_push(q, x);
    let p = q.push(x);
    assert forall|a: int| 0 <= a < q.len() implies #[trigger] p[a] == q[a] by {}
}

impl State {
    /// Queues a barrier after the due summaries (forced); its number is returned.
    /// A state that is not open refuses.
    pub fn request_barrier(&mut self, now: Stamp) -> (r: Result<u64, Error>)
        requires
            old(self).wf(),
            old(self).next_barrier < u64::MAX,
        ensures
            final(self).wf(),
            match r {
                Ok(b) => {
                    &&& old(self).health == Health::Open
                    &&& b == old(self).next_barrier + 1
                    &&& final(self).next_barrier == b
                    &&& exists|mid: State|
                        summaries_done(*old(self), mid, now, true) && #[trigger] same_but_queue(
                            mid,
                            *final(self),
                        ) && final(self).queue@ == mid.queue@.push(Item::Barrier(b))
                },
                Err(e) => {
                    &&& old(self).health != Health::Open
                    &&& matches_closed(e, *old(self))
                    &&& *final(self) == *old(self)
                },
            },
    {
        if self.health != Health::Open {
            return Err(self.closed_error_exec());
        }
        self.summaries(now, true);
        let ghost mid = *self;
        self.next_barrier = self.next_barrier + 1;
        let b = self.next_barrier;
        proof {
            lemma_push_control(self.queue@, Item::Barrier(b), self.sequence, self.instances@.len());
        }
        self.queue.push_back(Item::Barrier(b));
        assert(same_but_queue(mid, *self));
        Ok(b)
    }

    /// Whether a caller waiting for barrier `barrier` is done: with an error once
    /// the state failed, with success once the barrier is completed; `None` while
    /// it must wait.
    pub fn barrier_status(&self, barrier: u64) -> (r: Option<Result<(), Error>>)
        ensures
            match r {
                None => self.health != Health::Failed && self.completed_barrier < barrier,
                Some(Ok(())) => self.health != Health::Failed && self.completed_barrier >= barrier,
                Some(Err(e)) => self.health == Health::Failed && matches_closed(e, *self),
            },
    {
        if self.health == Health::Failed {
            Some(Err(self.closed_error_exec()))
        } else if self.completed_barrier >= barrier {
            Some(Ok(()))
        } else {
            None
        }
    }

    /// Closes admission of an open state: it becomes `Closing`, the due summaries
    /// are queued (forced), then the shutdown marker. Returns whether it did.
    pub fn begin_shutdown(&mut self, now: Stamp) -> (r: bool)
        requires
            old(self).wf(),
        ensures
            final(self).wf(),
            r == (old(self).health == Health::Open),
            !r ==> *final(self) == *old(self),
            r ==> {
                &&& final(self).health == Health::Closing
                &&& exists|mid: State|
                    summaries_done(*old(self), mid, now, true) && #[trigger] same_but_queue(
                        State { health: Health::Closing, ..mid },
                        *final(self),
                    ) && final(self).next_barrier == mid.next_barrier && final(self).queue@
                        == mid.queue@.push(Item::Shutdown)
            },
    {
        if self.health != Health::Open {
            return false;
        }
        self.health = Health::Closing;
        self.summaries(now, true);
        let ghost mid = State { health: Health::Open, ..*self };
        proof {
            lemma_push_control(self.queue@, Item::Shutdown, self.sequence, self.instances@.len());
        }
        self.queue.push_back(Item::Shutdown);
        assert(same_but_queue(State { health: Health::Closing, ..mid }, *self));
        true
    }

    /// The writer met the shutdown marker: the summaries owed since are queued
    /// (forced); if anything is queued, the marker goes back behind it and `true`
    /// is returned, else `false` and the writer finishes.
    pub fn shutdown_step(&mut self, now: Stamp) -> (r: bool)
        requires
            old(self).wf(),
        ensures
            final(self).wf(),
            exists|mid: State|
                summaries_done(*old(self), mid, now, true) && #[trigger] same_but_queue(
                    mid,
                    *final(self),
                ) && final(self).next_barrier == mid.next_barrier && (r == (mid.queue@.len() > 0))
                    && final(self).queue@ == if r {
                    mid.queue@.push(Item::Shutdown)
                } else {
                    mid.queue@
                },
    {
        self.summaries(now, true);
        let ghost mid = *self;
        if self.queue.len() > 0 {
            proof {
                lemma_push_control(self.queue@, Item::Shutdown, self.sequence, self.instances@.len());
            }
            self.queue.push_back(Item::Shutdown);
            assert(same_but_queue(mid, *self));
            true
        } else {
            assert(same_but_queue(mid, *self));
            false
        }
    }

    /// The writer has finished: the state is closed.
    pub fn mark_closed(&mut self)
        requires
            old(self).wf(),
        ensures
            final(self).wf(),
            *final(self) == (State { health: Health::Closed, ..*old(self) }),
    {
        self.health = Health::Closed;
    }

    /// The writer's next step: stop once failed; otherwise, when open, queue the
    /// due summaries, then take the first queued item, if any.
    pub fn next_step(&mut self, now: Stamp) -> (r: WriterStep)
        requires
            old(self).wf(),
        ensures
            final(self).wf(),
            old(self).health == Health::Failed ==> r is Stop && *final(self) == *old(self),
            old(self).health != Health::Failed ==> exists|mid: State|
                (if old(self).health == Health::Open {
                    summaries_done(*old(self), mid, now, false)
                } else {
                    mid == *old(self)
                }) && #[trigger] same_but_queue(mid, *final(self)) && final(self).next_barrier
                    == mid.next_barrier && match r {
                    WriterStep::Next(it) => mid.queue@.len() > 0 && it == mid.queue@[0]
                        && final(self).queue@ == mid.queue@.drop_first(),
                    WriterStep::Idle => mid.queue@.len() == 0 && final(self).queue@ == mid.queue@,
                    WriterStep::Stop => false,
                },
            old(self).health != Health::Failed ==> unwritten(final(self).stats@) == unwritten(old(self).stats@)
                && count_events(final(self).queue@) == count_events(old(self).queue@) - (if r matches WriterStep::Next(
                Item::Event(_),
            ) {
                1int
            } else {
                0int
            }),
    {
        if self.health == Health::Failed {
            return WriterStep::Stop;
        }
        let ghost before = *self;
        if self.health == Health::Open {
            self.summaries(now, false);
            proof {
                lemma_summaries_keep_accounting(before, *self, now, false);
            }
        }
        let ghost mid = *self;
        let ghost q = self.queue@;
        match self.queue.pop_front() {
            Some(item) => {
                proof {
                    assert(q.drop_first() =~= self.queue@);
                    let q2 = self.queue@;
                    assert forall|a: int, b: int|
                        0 <= a < b < q2.len() && item_sequence(q2[a]) is Some && item_sequence(q2[b]) is Some
                            implies item_sequence(#[trigger] q2[a])->0 < item_sequence(#[trigger] q2[b])->0 by {
                        assert(q2[a] == q[a + 1] && q2[b] == q[b + 1]);
                    }
                    assert forall|a: int|
                        0 <= a < q2.len() && item_sequence(#[trigger] q2[a]) is Some implies item_sequence(q2[a])->0
                            <= self.sequence by {
                        assert(q2[a] == q[a + 1]);
                    }
                    assert forall|a: int|
                        0 <= a < q2.len() && item_instance(#[trigger] q2[a]) is Some implies item_instance(q2[a])->0
                            < self.instances@.len() by {
                        assert(q2[a] == q[a + 1]);
                    }
                    assert(same_but_queue(mid, *self));
                }
                WriterStep::Next(item)
            },
            None => {
                assert(same_but_queue(mid, *self));
                WriterStep::Idle
            },
        }
    }

    /// The overload summary of instance `id` was written: another may be queued.
    pub fn summary_written(&mut self, id: usize)
        requires
            old(self).wf(),
            id < old(self).stats@.len(),
        ensures
            final(self).wf(),
            final(self).stats@ == old(self).stats@.update(
                id as int,
                InstanceStats { summary_queued: false, ..old(self).stats@[id as int] },
            ),
            same_except_stats(*old(self), *final(self)),
    {
        let ghost old_stats = self.stats@;
        let x = self.stats[id];
        let y = InstanceStats { summary_queued: false, ..x };
        self.stats.set(id, y);
        proof {
            lemma_sum_update(old_stats, id as int, y, |x: InstanceStats| counter_sum(x));
            lemma_sum_update(old_stats, id as int, y, |x: InstanceStats| sequence_budget(x));
            assert forall|i: int| 0 <= i < self.stats@.len() implies {
                &&& (#[trigger] self.stats@[i]).overload_pending <= self.stats@[i].counters.full
                &&& self.stats@[i].counters.written <= self.stats@[i].counters.accepted
            } by {
                if i != id {
                    assert(self.stats@[i] == old_stats[i]);
                }
            }
        }
    }

    /// Barrier `barrier` is completed.
    pub fn complete_barrier(&mut self, barrier: u64)
        requires
            old(self).wf(),
            barrier <= old(self).next_barrier,
        ensures
            final(self).wf(),
            *final(self) == (State { completed_barrier: barrier, ..*old(self) }),
    {
        self.completed_barrier = barrier;
    }

    /// Confirms what the writer flushed for instance `id`: occurrences written,
    /// lines written and `Full` refusals reported.
    pub fn confirm(&mut self, id: usize, occurrences: u64, lines: u64, overload: u64)
        requires
            old(self).wf(),
            id < old(self).stats@.len(),
            old(self).stats@[id as int].counters.written + occurrences
                <= old(self).stats@[id as int].counters.accepted,
            old(self).room(occurrences + lines + overload),
        ensures
            final(self).wf(),
            final(self).stats@ == old(self).stats@.update(
                id as int,
                InstanceStats {
                    counters: crate::model::Counters {
                        written: (old(self).stats@[id as int].counters.written + occurrences) as u64,
                        lines: (old(self).stats@[id as int].counters.lines + lines) as u64,
                        overload_reported: (old(self).stats@[id as int].counters.overload_reported
                            + overload) as u64,
                        ..old(self).stats@[id as int].counters
                    },
                    ..old(self).stats@[id as int]
                },
            ),
            same_except_stats(*old(self), *final(self)),
    {
        let ghost old_stats = self.stats@;
        proof {
            let f = |x: InstanceStats| counter_sum(x);
            assert forall|k: int| 0 <= k < old_stats.len() implies f(#[trigger] old_stats[k]) >= 0 by {}
            lemma_sum_nonneg_bound(old_stats, id as int, f);
        }
        let x = self.stats[id];
        let y = InstanceStats {
            counters: crate::model::Counters {
                written: x.counters.written + occurrences,
                lines: x.counters.lines + lines,
                overload_reported: x.counters.overload_reported + overload,
                ..x.counters
            },
            ..x
        };
        self.stats.set(id, y);
        proof {
            lemma_sum_update(old_stats, id as int, y, |x: InstanceStats| counter_sum(x));
            lemma_sum_update(old_stats, id as int, y, |x: InstanceStats| sequence_budget(x));
            assert forall|i: int| 0 <= i < self.stats@.len() implies {
                &&& (#[trigger] self.stats@[i]).overload_pending <= self.stats@[i].counters.full
                &&& self.stats@[i].counters.written <= self.stats@[i].counters.accepted
            } by {
                if i != id {
                    assert(self.stats@[i] == old_stats[i]);
                }
            }
        }
    }

    /// An operation context: `base` (the context in effect) overridden by
    /// `fields`. It holds one event's worth of the shared context budget until
    /// [`State::release_context`].
    pub fn with_context(&mut self, base: &Fields, fields: &Fields) -> (r: Result<Fields, Error>)
        requires
            old(self).wf(),
        ensures
            final(self).wf(),
            ({
                let effective = entries_of(base.map().union_prefer_right(fields.map()));
                match r {
                    Ok(ctx) => {
                        &&& context_view(*old(self), fields@, effective) is Ok
                        &&& ctx@ == effective
                        &&& *final(self) == State {
                            context_bytes: (old(self).context_bytes + old(self).limits.max_event_bytes) as usize,
                            ..*old(self)
                        }
                    },
                    Err(e) => {
                        &&& context_view(*old(self), fields@, effective) == Err::<(), Error>(e)
                        &&& *final(self) == *old(self)
                    },
                }
            }),
    {
        let meb = self.limits.max_event_bytes;
        match field_size(fields) {
            Err(e) => return Err(e),
            Ok(n) => if n > meb / 2 {
                return Err(Error::Invalid("operation context too large"));
            },
        }
        if self.health != Health::Open {
            return Err(Error::Closed);
        }
        if meb > self.limits.max_context_bytes - self.context_bytes {
            return Err(Error::Limit("shared context budget"));
        }
        let mut ctx = base.duplicate();
        ctx.extend(fields);
        let _ = ctx.len();
        match field_size(&ctx) {
            Err(e) => Err(e),
            Ok(m) => if m > meb / 2 {
                Err(Error::Invalid("effective context too large"))
            } else {
                self.context_bytes = self.context_bytes + meb;
                Ok(ctx)
            },
        }
    }

    /// An operation context is dropped: its share of the budget comes back.
    pub fn release_context(&mut self)
        requires
            old(self).wf(),
            old(self).context_bytes >= old(self).limits.max_event_bytes,
        ensures
            final(self).wf(),
            *final(self) == (State {
                context_bytes: (old(self).context_bytes - old(self).limits.max_event_bytes) as usize,
                ..*old(self)
            }),
    {
        self.context_bytes = self.context_bytes - self.limits.max_event_bytes;
    }
}

} // verus!
