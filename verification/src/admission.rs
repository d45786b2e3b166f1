//! Admission of one event: filtering, destination, budgets, health and credits,
//! then the commit of its formatted message.
use vstd::prelude::*;
use crate::engine::{
    accepted_stats, count_events, counter_sum, filtered_stats, item_instance, item_sequence,
    lemma_count_events_nonneg, lemma_count_events_push, lemma_sum_nonneg_bound, lemma_sum_update, queue_ordered,
    dest_total, refused_stats, sequence_budget, sum_of, Admission, Event, InstanceStats, Item, Stamp, State,
};
use crate::accounting::{lemma_unwritten_update, unwritten};
use crate::fields::{entries_of, EntryView, Fields};
use crate::model::{field_size, spec_field_size, Counters, EmitResult, Error, Health, InstanceConfig, Refusal, Source};
use crate::routing::{names_view, routes_view, select_destination, spec_check_instance, spec_destination};
use crate::text::{byte_len, byte_length};
use crate::value::Level;

verus! {

/// One emission's effect on the sequence numbers: an accepted event takes the
/// next number; any other outcome takes none.
pub open spec fn emission_step(a: State, b: State, r: EmitResult) -> bool {
    match r {
        EmitResult::Accepted(s) => b.sequence == a.sequence + 1 && s == b.sequence,
        _ => b.sequence == a.sequence,
    }
}

/// Everything but the per-instance data is unchanged.
pub open spec fn same_except_stats(a: State, b: State) -> bool {
    &&& a.health == b.health
    &&& a.error == b.error
    &&& a.queue@ == b.queue@
    &&& a.instances@ == b.instances@
    &&& a.sequence == b.sequence
    &&& a.reserved_events == b.reserved_events
    &&& a.reserved_bytes == b.reserved_bytes
    &&& a.context_bytes == b.context_bytes
    &&& a.completed_barrier == b.completed_barrier
    &&& a.next_barrier == b.next_barrier
    &&& a.limits == b.limits
}

/// What admission decides for an event.
pub enum GrantView {
    Filtered,
    Refused(Refusal),
    /// Granted, with its destination and the bytes left for its message.
    Granted { destination: Seq<char>, limit: int },
}

/// The decision of admission for an event of instance `id`: the level filter,
/// the source size, the destination, the budget of the event's own fields, the
/// health, the credits, then the budget of the effective fields (context and
/// event fields) with 256 bytes kept for destination and thread.
pub open spec fn grant_view(
    st: State,
    id: int,
    level: Level,
    source: Source,
    explicit: Option<Seq<char>>,
    fields: Seq<EntryView>,
    effective: Seq<EntryView>,
) -> GrantView {
    let inst = st.instances@[id];
    let meb = st.limits.max_event_bytes;
    if level.spec_rank() < inst.level.spec_rank() {
        GrantView::Filtered
    } else if byte_len(source.module@) > 512 || byte_len(source.file@) > 1024 {
        GrantView::Refused(Refusal::TooLarge)
    } else {
        match spec_destination(
            names_view(inst.destinations@),
            routes_view(inst.routes@),
            source.module@,
            explicit,
        ) {
            Err(e) => GrantView::Refused(e),
            Ok(d) => match spec_field_size(fields) {
                Err(_) => GrantView::Refused(Refusal::Invalid),
                Ok(n) => if n > meb {
                    GrantView::Refused(Refusal::TooLarge)
                } else if st.health == Health::Failed {
                    GrantView::Refused(Refusal::Failed)
                } else if st.health != Health::Open {
                    GrantView::Refused(Refusal::Closed)
                } else if st.reserved_events >= st.limits.max_events || meb + st.reserved_bytes
                    > st.limits.max_bytes {
                    GrantView::Refused(Refusal::Full)
                } else {
                    match spec_field_size(effective) {
                        Err(_) => GrantView::Refused(Refusal::Invalid),
                        Ok(s) => if s + 256 > meb {
                            GrantView::Refused(Refusal::TooLarge)
                        } else {
                            GrantView::Granted { destination: d, limit: meb - 256 - s }
                        },
                    }
                },
            },
        }
    }
}

/// The effective fields of an event: the context, overridden by the event's own.
pub open spec fn effective_fields(base: Fields, fields: Fields) -> Seq<EntryView> {
    entries_of(base.map().union_prefer_right(fields.map()))
}

/// The refusal of a state that is not open.
pub open spec fn health_refusal(h: Health) -> Refusal {
    if h == Health::Failed {
        Refusal::Failed
    } else {
        Refusal::Closed
    }
}

proof fn lemma_counter_room(s: Seq<InstanceStats>, id: int)
    requires
        0 <= id < s.len(),
    ensures
        counter_sum(s[id]) <= sum_of(s, |x: InstanceStats| counter_sum(x)),
        sum_of(s, |x: InstanceStats| counter_sum(x)) >= 0,
{
    let f = |x: InstanceStats| counter_sum(x);
    assert forall|k: int| 0 <= k < s.len() implies f(#[trigger] s[k]) >= 0 by {}
    lemma_sum_nonneg_bound(s, id, f);
}

impl State {
    /// Counts a refusal of `reason` for instance `id` and starts a new
    /// continuity epoch for it; a `Full` refusal also joins the overload balance.
    pub fn refusal(&mut self, id: usize, reason: Refusal) -> (r: EmitResult)
        requires
            old(self).wf(),
            id < old(self).stats@.len(),
            old(self).room(1),
        ensures
            final(self).wf(),
            r == EmitResult::Refused(reason),
            final(self).stats@ == old(self).stats@.update(
                id as int,
                refused_stats(old(self).stats@[id as int], reason),
            ),
            same_except_stats(*old(self), *final(self)),
            emission_step(*old(self), *final(self), r),
    {
        let ghost old_stats = self.stats@;
        proof {
            lemma_counter_room(old_stats, id as int);
        }
        let x = self.stats[id];
        let c = x.counters;
        let counters = match reason {
            Refusal::Full => Counters { full: c.full + 1, ..c },
            Refusal::TooLarge => Counters { too_large: c.too_large + 1, ..c },
            Refusal::Closed => Counters { closed: c.closed + 1, ..c },
            Refusal::Failed => Counters { failed: c.failed + 1, ..c },
            Refusal::Invalid => Counters { invalid: c.invalid + 1, ..c },
            Refusal::UnknownDestination => Counters {
                unknown_destination: c.unknown_destination + 1,
                ..c
            },
        };
        let epoch = if x.epoch == u64::MAX {
            0
        } else {
            x.epoch + 1
        };
        let pending = match reason {
            Refusal::Full => x.overload_pending + 1,
            _ => x.overload_pending,
        };
        let y = InstanceStats { counters, epoch, overload_pending: pending, ..x };
        assert(y == refused_stats(x, reason));
        self.stats.set(id, y);
        proof {
            lemma_sum_update(old_stats, id as int, y, |x: InstanceStats| counter_sum(x));
            lemma_sum_update(old_stats, id as int, y, |x: InstanceStats| sequence_budget(x));
            assert forall|i: int| 0 <= i < self.stats@.len() implies {
                &&& (#[trigger] self.stats@[i]).overload_pending <= self.stats@[i].counters.full
                &&& self.stats@[i].counters.written <= self.stats@[i].counters.accepted
            } by {
                if i != id {
                    assert(self.stats@[i] == old_stats[i]);
                }
            }
        }
        EmitResult::Refused(reason)
    }

    /// Counts a filtered event of instance `id`.
    pub fn filtered(&mut self, id: usize) -> (r: EmitResult)
        requires
            old(self).wf(),
            id < old(self).stats@.len(),
            old(self).room(1),
        ensures
            final(self).wf(),
            r == EmitResult::Filtered,
            final(self).stats@ == old(self).stats@.update(
                id as int,
                filtered_stats(old(self).stats@[id as int]),
            ),
            same_except_stats(*old(self), *final(self)),
            emission_step(*old(self), *final(self), r),
    {
        let ghost old_stats = self.stats@;
        proof {
            lemma_counter_room(old_stats, id as int);
        }
        let x = self.stats[id];
        let y = InstanceStats {
            counters: Counters { filtered: x.counters.filtered + 1, ..x.counters },
            ..x
        };
        self.stats.set(id, y);
        proof {
            lemma_sum_update(old_stats, id as int, y, |x: InstanceStats| counter_sum(x));
            lemma_sum_update(old_stats, id as int, y, |x: InstanceStats| sequence_budget(x));
            assert forall|i: int| 0 <= i < self.stats@.len() implies {
                &&& (#[trigger] self.stats@[i]).overload_pending <= self.stats@[i].counters.full
                &&& self.stats@[i].counters.written <= self.stats@[i].counters.accepted
            } by {
                if i != id {
                    assert(self.stats@[i] == old_stats[i]);
                }
            }
        }
        EmitResult::Filtered
    }

    /// Gives back the slot and the credit of one event held outside the queue.
    pub fn release(&mut self)
        requires
            old(self).wf(),
            old(self).reserved_events > count_events(old(self).queue@),
        ensures
            final(self).wf(),
            final(self).reserved_events == old(self).reserved_events - 1,
            final(self).reserved_bytes == old(self).reserved_bytes
                - old(self).limits.max_event_bytes,
            final(self).stats@ == old(self).stats@,
            final(self).health == old(self).health,
            final(self).error == old(self).error,
            final(self).queue@ == old(self).queue@,
            final(self).instances@ == old(self).instances@,
            final(self).sequence == old(self).sequence,
            final(self).context_bytes == old(self).context_bytes,
            final(self).completed_barrier == old(self).completed_barrier,
            final(self).next_barrier == old(self).next_barrier,
            final(self).limits == old(self).limits,
    {
        proof {
            lemma_count_events_nonneg(self.queue@);
            let e = self.reserved_events as int;
            let m = self.limits.max_event_bytes as int;
            assert((e - 1) * m == e * m - m) by (nonlinear_arith);
            assert(e * m >= m) by (nonlinear_arith)
                requires
                    e >= 1,
                    m >= 0,
            ;
        }
        self.reserved_events = self.reserved_events - 1;
        self.reserved_bytes = self.reserved_bytes - self.limits.max_event_bytes;
    }

    /// Reserves one slot and one event's worth of credit.
    fn reserve(&mut self)
        requires
            old(self).wf(),
            old(self).reserved_events < old(self).limits.max_events,
            old(self).reserved_bytes + old(self).limits.max_event_bytes
                <= old(self).limits.max_bytes,
        ensures
            final(self).wf(),
            final(self).reserved_events == old(self).reserved_events + 1,
            final(self).reserved_bytes == old(self).reserved_bytes
                + old(self).limits.max_event_bytes,
            final(self).stats@ == old(self).stats@,
            final(self).health == old(self).health,
            final(self).error == old(self).error,
            final(self).queue@ == old(self).queue@,
            final(self).instances@ == old(self).instances@,
            final(self).sequence == old(self).sequence,
            final(self).context_bytes == old(self).context_bytes,
            final(self).completed_barrier == old(self).completed_barrier,
            final(self).next_barrier == old(self).next_barrier,
            final(self).limits == old(self).limits,
    {
        proof {
            let e = self.reserved_events as int;
            let m = self.limits.max_event_bytes as int;
            assert((e + 1) * m == e * m + m) by (nonlinear_arith);
        }
        self.reserved_events = self.reserved_events + 1;
        self.reserved_bytes = self.reserved_bytes + self.limits.max_event_bytes;
    }

    /// Admission of an event of instance `id` at `level`, produced at `source`,
    /// with an optional explicit destination, its own `fields`, and `base` as
    /// the context in effect. A filtered or refused event is counted and its
    /// result returned; a granted one holds a reserved slot.
    pub fn grant(
        &mut self,
        id: usize,
        level: Level,
        source: Source,
        explicit: Option<&str>,
        fields: &Fields,
        base: &Fields,
    ) -> (r: Result<Admission, EmitResult>)
        requires
            old(self).wf(),
            id < old(self).stats@.len(),
            old(self).room(1),
        ensures
            final(self).wf(),
            ({
                let view = grant_view(
                    *old(self),
                    id as int,
                    level,
                    source,
                    match explicit {
                        Some(e) => Some(e@),
                        None => None,
                    },
                    fields@,
                    effective_fields(*base, *fields),
                );
                match r {
                    Ok(adm) => {
                        &&& view matches GrantView::Granted { destination, limit } && adm.destination@
                            == destination && adm.limit == limit
                        &&& adm.instance == id
                        &&& adm.level == level
                        &&& adm.source == source
                        &&& adm.fields@ == effective_fields(*base, *fields)
                        &&& final(self).reserved_events == old(self).reserved_events + 1
                        &&& final(self).reserved_bytes == old(self).reserved_bytes
                            + old(self).limits.max_event_bytes
                        &&& final(self).stats@ == old(self).stats@
                        &&& final(self).queue@ == old(self).queue@
                        &&& final(self).health == old(self).health
                        &&& final(self).sequence == old(self).sequence
                        &&& final(self).instances@ == old(self).instances@
                    },
                    Err(EmitResult::Filtered) => {
                        &&& view == GrantView::Filtered
                        &&& final(self).stats@ == old(self).stats@.update(
                            id as int,
                            filtered_stats(old(self).stats@[id as int]),
                        )
                        &&& same_except_stats(*old(self), *final(self))
                    },
                    Err(EmitResult::Refused(reason)) => {
                        &&& view == GrantView::Refused(reason)
                        &&& final(self).stats@ == old(self).stats@.update(
                            id as int,
                            refused_stats(old(self).stats@[id as int], reason),
                        )
                        &&& same_except_stats(*old(self), *final(self))
                    },
                    Err(EmitResult::Accepted(_)) => false,
                }
            }),
    {
        let ghost st = *self;
        let ghost ex = match explicit {
            Some(e) => Some(e@),
            None => None,
        };
        if !level.at_least(self.instances[id].level) {
            return Err(self.filtered(id));
        }
        if byte_length(source.module) > 512 || byte_length(source.file) > 1024 {
            return Err(self.refusal(id, Refusal::TooLarge));
        }
        let destination = match select_destination(
            &self.instances[id].destinations,
            &self.instances[id].routes,
            source.module,
            explicit,
        ) {
            Ok(d) => d,
            Err(e) => return Err(self.refusal(id, e)),
        };
        let meb = self.limits.max_event_bytes;
        match field_size(fields) {
            Err(_) => return Err(self.refusal(id, Refusal::Invalid)),
            Ok(n) => if n > meb {
                return Err(self.refusal(id, Refusal::TooLarge));
            },
        }
        match self.health {
            Health::Failed => return Err(self.refusal(id, Refusal::Failed)),
            Health::Open => {},
            _ => return Err(self.refusal(id, Refusal::Closed)),
        }
        if self.reserved_events >= self.limits.max_events || meb > self.limits.max_bytes
            - self.reserved_bytes {
            return Err(self.refusal(id, Refusal::Full));
        }
        let mut effective = base.duplicate();
        effective.extend(fields);
        let _ = effective.len();
        match field_size(&effective) {
            Err(_) => return Err(self.refusal(id, Refusal::Invalid)),
            Ok(size) => {
                if size > meb - 256 {
                    return Err(self.refusal(id, Refusal::TooLarge));
                }
                self.reserve();
                Ok(
                    Admission {
                        instance: id,
                        destination,
                        level,
                        source,
                        fields: effective,
                        limit: meb - 256 - size,
                    },
                )
            },
        }
    }

    /// Queues the event of a grant with its formatted `message`, the capturing
    /// thread's name, if captured, and the capture time; it gets the next
    /// sequence number. A message over the grant's limit is refused as
    /// `TooLarge`, and a state that stopped being open refuses the event; either
    /// way the grant's slot is given back.
    pub fn commit(&mut self, adm: Admission, message: String, thread: Option<String>, stamp: Stamp) -> (r: EmitResult)
        requires
            old(self).wf(),
            adm.instance < old(self).stats@.len(),
            old(self).reserved_events > count_events(old(self).queue@),
            old(self).room(1),
        ensures
            final(self).wf(),
            final(self).instances@ == old(self).instances@,
            final(self).health == old(self).health,
            if byte_len(message@) > adm.limit || old(self).health != Health::Open {
                let reason = if byte_len(message@) > adm.limit {
                    Refusal::TooLarge
                } else {
                    health_refusal(old(self).health)
                };
                &&& r == EmitResult::Refused(reason)
                &&& final(self).stats@ == old(self).stats@.update(
                    adm.instance as int,
                    refused_stats(old(self).stats@[adm.instance as int], reason),
                )
                &&& final(self).reserved_events == old(self).reserved_events - 1
                &&& final(self).queue@ == old(self).queue@
                &&& final(self).sequence == old(self).sequence
            } else {
                &&& r == EmitResult::Accepted((old(self).sequence + 1) as u64)
                &&& final(self).sequence == old(self).sequence + 1
                &&& final(self).stats@ == old(self).stats@.update(
                    adm.instance as int,
                    accepted_stats(old(self).stats@[adm.instance as int]),
                )
                &&& final(self).reserved_events == old(self).reserved_events
                &&& final(self).queue@.drop_last() == old(self).queue@
                &&& final(self).queue@.last() matches Item::Event(e) && {
                    &&& e.instance == adm.instance
                    &&& e.instance_name@ == old(self).instances@[adm.instance as int].name@
                    &&& e.destination@ == adm.destination@
                    &&& e.level == adm.level
                    &&& e.source == adm.source
                    &&& e.fields@ == adm.fields@
                    &&& e.message@ == message@
                    &&& e.thread == thread
                    &&& e.sequence == old(self).sequence + 1
                    &&& e.stamp == stamp
                    &&& e.epoch == old(self).stats@[adm.instance as int].epoch
                }
            },
            emission_step(*old(self), *final(self), r),
            unwritten(final(self).stats@) - count_events(final(self).queue@) == unwritten(old(self).stats@)
                - count_events(old(self).queue@),
    {
        let id = adm.instance;
        if byte_length(message.as_str()) > adm.limit {
            self.release();
            return self.refused_keeping_accounting(id, Refusal::TooLarge);
        }
        match self.health {
            Health::Open => {},
            Health::Failed => {
                self.release();
                return self.refused_keeping_accounting(id, Refusal::Failed);
            },
            _ => {
                self.release();
                return self.refused_keeping_accounting(id, Refusal::Closed);
            },
        }
        let ghost old_stats = self.stats@;
        let ghost old_queue = self.queue@;
        proof {
            lemma_counter_room(old_stats, id as int);
            lemma_budget_le_counters(old_stats);
        }
        let x = self.stats[id];
        let y = InstanceStats {
            counters: Counters { accepted: x.counters.accepted + 1, ..x.counters },
            ..x
        };
        self.stats.set(id, y);
        self.sequence = self.sequence + 1;
        let sequence = self.sequence;
        let event = Event {
            instance: id,
            instance_name: self.instances[id].name.clone(),
            destination: adm.destination,
            level: adm.level,
            source: adm.source,
            fields: adm.fields,
            message,
            thread,
            sequence,
            stamp,
            epoch: x.epoch,
        };
        let item = Item::Event(event);
        proof {
            lemma_count_events_push(old_queue, item);
        }
        self.queue.push_back(item);
        proof {
            lemma_sum_update(old_stats, id as int, y, |x: InstanceStats| counter_sum(x));
            lemma_sum_update(old_stats, id as int, y, |x: InstanceStats| sequence_budget(x));
            assert forall|i: int| 0 <= i < self.stats@.len() implies {
                &&& (#[trigger] self.stats@[i]).overload_pending <= self.stats@[i].counters.full
                &&& self.stats@[i].counters.written <= self.stats@[i].counters.accepted
            } by {
                if i != id {
                    assert(self.stats@[i] == old_stats[i]);
                }
            }
            assert(self.queue@.drop_last() =~= old_queue);
            let q = self.queue@;
            assert forall|i: int, j: int|
                0 <= i < j < q.len() && item_sequence(q[i]) is Some && item_sequence(q[j]) is Some
                    implies item_sequence(#[trigger] q[i])->0 < item_sequence(#[trigger] q[j])->0 by {
                if j < q.len() - 1 {
                    assert(q[i] == old_queue[i] && q[j] == old_queue[j]);
                } else {
                    assert(q[i] == old_queue[i]);
                }
            }
            assert forall|i: int|
                0 <= i < q.len() && item_sequence(#[trigger] q[i]) is Some implies item_sequence(q[i])->0
                    <= self.sequence by {
                if i < q.len() - 1 {
                    assert(q[i] == old_queue[i]);
                }
            }
            assert forall|i: int|
                0 <= i < q.len() && item_instance(#[trigger] q[i]) is Some implies item_instance(q[i])->0
                    < self.instances@.len() by {
                if i < q.len() - 1 {
                    assert(q[i] == old_queue[i]);
                }
            }
            lemma_unwritten_update(old_stats, id as int, y);
        }
        EmitResult::Accepted(sequence)
    }

    /// [`State::refusal`], which keeps the events not yet written.
    fn refused_keeping_accounting(&mut self, id: usize, reason: Refusal) -> (r: EmitResult)
        requires
            old(self).wf(),
            id < old(self).stats@.len(),
            old(self).room(1),
        ensures
            final(self).wf(),
            r == EmitResult::Refused(reason),
            final(self).stats@ == old(self).stats@.update(
                id as int,
                refused_stats(old(self).stats@[id as int], reason),
            ),
            same_except_stats(*old(self), *final(self)),
            unwritten(final(self).stats@) == unwritten(old(self).stats@),
    {
        let ghost s = self.stats@;
        let r = self.refusal(id, reason);
        proof {
            lemma_unwritten_update(s, id as int, refused_stats(s[id as int], reason));
        }
        r
    }
}

/// Each instance's sequence budget is at most its counter sum, so the budgets
/// total at most the counters' total.
pub proof fn lemma_budget_le_counters(s: Seq<InstanceStats>)
    requires
        forall|i: int| 0 <= i < s.len() ==> (#[trigger] s[i]).overload_pending <= s[i].counters.full,
    ensures
        sum_of(s, |x: InstanceStats| sequence_budget(x)) <= sum_of(s, |x: InstanceStats| counter_sum(x)),
    decreases s.len(),
{
    if s.len() > 0 {
        let t = s.drop_last();
        assert forall|i: int| 0 <= i < t.len() implies (#[trigger] t[i]).overload_pending <= t[i].counters.full by {
            assert(t[i] == s[i]);
        }
        lemma_budget_le_counters(t);
        assert(s.last() == s[s.len() - 1]);
    }
}

} // verus!

verus! {

/// The outcome of an emission whose message is known.
pub open spec fn emit_view(
    st: State,
    id: int,
    level: Level,
    source: Source,
    explicit: Option<Seq<char>>,
    fields: Seq<EntryView>,
    effective: Seq<EntryView>,
    message: Seq<char>,
) -> EmitResult {
    match grant_view(st, id, level, source, explicit, fields, effective) {
        GrantView::Filtered => EmitResult::Filtered,
        GrantView::Refused(r) => EmitResult::Refused(r),
        GrantView::Granted { limit, .. } => if byte_len(message) > limit {
            EmitResult::Refused(Refusal::TooLarge)
        } else {
            EmitResult::Accepted((st.sequence + 1) as u64)
        },
    }
}

impl State {
    /// Registers an instance: its names, destinations and routes are checked,
    /// its context is the application's overridden by its own (at most half an
    /// event), then the registry admits it ([`State::register`]).
    pub fn instance(&mut self, config: InstanceConfig, app_context: &Fields) -> (r: Result<usize, Error>)
        requires
            old(self).wf(),
        ensures
            final(self).wf(),
            ({
                let checked = spec_check_instance(
                    config.name@,
                    names_view(config.destinations@),
                    routes_view(config.routes@),
                    app_context.map().union_prefer_right(config.context.map()),
                    old(self).limits.max_event_bytes,
                );
                let admitted = old(self).health == Health::Open && old(self).instances@.len()
                    < old(self).limits.max_instances && dest_total(old(self).instances@) + config.destinations@.len()
                    <= old(self).limits.max_destinations && forall|i: int|
                    0 <= i < old(self).instances@.len() ==> (#[trigger] old(self).instances@[i]).name@ != config.name@;
                match r {
                    Ok(id) => {
                        &&& checked is Ok && admitted
                        &&& id == old(self).instances@.len() && final(self).instances@.len() == id + 1
                        &&& final(self).instances@.drop_last() == old(self).instances@
                        &&& final(self).instances@[id as int].name@ == config.name@
                        &&& final(self).instances@[id as int].destinations@ == config.destinations@
                        &&& final(self).instances@[id as int].context.map() == app_context.map().union_prefer_right(
                            config.context.map(),
                        )
                    },
                    Err(e) => {
                        &&& *final(self) == *old(self)
                        &&& checked is Err ==> checked == Err::<(), Error>(e)
                        &&& checked is Ok ==> !admitted
                        &&& checked is Ok ==> if old(self).health != Health::Open {
                            crate::engine::matches_closed(e, *old(self))
                        } else if old(self).instances@.len() >= old(self).limits.max_instances || dest_total(
                            old(self).instances@,
                        ) + config.destinations@.len() > old(self).limits.max_destinations {
                            e == Error::Limit("instance/destination registry")
                        } else {
                            e == Error::Invalid("duplicate instance name")
                        }
                    },
                }
            }),
    {
        let merged = match crate::routing::check_instance(&config, app_context, self.limits.max_event_bytes) {
            Ok(m) => m,
            Err(e) => return Err(e),
        };
        let config = InstanceConfig { context: merged, ..config };
        self.register(config)
    }

    /// One emission with its formatted message, captured at `stamp`:
    /// [`State::grant`] then [`State::commit`].
    pub fn emit(
        &mut self,
        id: usize,
        level: Level,
        source: Source,
        explicit: Option<&str>,
        fields: &Fields,
        base: &Fields,
        message: String,
        thread: Option<String>,
        stamp: Stamp,
    ) -> (r: EmitResult)
        requires
            old(self).wf(),
            id < old(self).stats@.len(),
            old(self).room(1),
        ensures
            final(self).wf(),
            r == emit_view(
                *old(self),
                id as int,
                level,
                source,
                match explicit {
                    Some(e) => Some(e@),
                    None => None,
                },
                fields@,
                effective_fields(*base, *fields),
                message@,
            ),
            emission_step(*old(self), *final(self), r),
            final(self).instances@ == old(self).instances@,
            final(self).health == old(self).health,
            final(self).stats@ == match r {
                EmitResult::Accepted(_) => old(self).stats@.update(id as int, accepted_stats(old(self).stats@[id as int])),
                EmitResult::Filtered => old(self).stats@.update(id as int, filtered_stats(old(self).stats@[id as int])),
                EmitResult::Refused(reason) => old(self).stats@.update(
                    id as int,
                    refused_stats(old(self).stats@[id as int], reason),
                ),
            },
            match r {
                EmitResult::Accepted(seq) => {
                    &&& final(self).reserved_events == old(self).reserved_events + 1
                    &&& final(self).queue@.drop_last() == old(self).queue@
                    &&& final(self).queue@.last() matches Item::Event(e) && {
                        &&& e.instance == id
                        &&& e.instance_name@ == old(self).instances@[id as int].name@
                        &&& grant_view(
                            *old(self),
                            id as int,
                            level,
                            source,
                            match explicit {
                                Some(x) => Some(x@),
                                None => None,
                            },
                            fields@,
                            effective_fields(*base, *fields),
                        ) matches GrantView::Granted { destination, .. } && e.destination@ == destination
                        &&& e.level == level
                        &&& e.source == source
                        &&& e.fields@ == effective_fields(*base, *fields)
                        &&& e.message@ == message@
                        &&& e.thread == thread
                        &&& e.sequence == seq
                        &&& e.stamp == stamp
                        &&& e.epoch == old(self).stats@[id as int].epoch
                    }
                },
                _ => {
                    &&& final(self).reserved_events == old(self).reserved_events
                    &&& final(self).queue@ == old(self).queue@
                },
            },
    {
        proof {
            lemma_count_events_nonneg(self.queue@);
        }
        match self.grant(id, level, source, explicit, fields, base) {
            Err(result) => result,
            Ok(adm) => self.commit(adm, message, thread, stamp),
        }
    }
}

} // verus!
