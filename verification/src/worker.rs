//! The writer's work on each queued item: grouping events, writing lines,
//! summaries and barriers, and confirming what was flushed.
use vstd::prelude::*;
use crate::engine::{Event, Stamp, State, count_events, counter_sum, lemma_sum_nonneg_bound, sum_of, InstanceStats};
use crate::grouping::{distinct_keys, elapsed, joined, mergeable, same_key, started, Groups, Placed, Selector};
use crate::time::{chrono_local_day, chrono_rfc3339_millis, hour_start, LocalTime};
use crate::accounting::{
    awaiting, grouped, lemma_awaiting_append, lemma_grouped_remove, lemma_grouped_update, lemma_unwritten_update, unwritten,
};
use crate::writer::{finish_line, group_line, latency_ms, path_for, path_text, summary_line, Group};

verus! {

/// A line to append to a logical file.
#[derive(Debug)]
pub struct Line {
    pub path: String,
    pub text: String,
}

/// Written for an instance and not yet confirmed by a flush.
#[derive(Clone, Copy, Debug, PartialEq, Eq, Structural)]
pub struct Confirmation {
    pub instance: usize,
    pub occurrences: u64,
    pub lines: u64,
    pub overload: u64,
}

/// Why the writer stops: chrono cannot render a capture time or a path.
#[derive(Clone, Copy, Debug, PartialEq, Eq, Structural)]
pub enum WorkerError {
    Time,
    Path,
}

/// The lines to write, and how many events the writer let go of (each gives
/// back its slot).
#[derive(Debug)]
pub struct Outcome {
    pub lines: Vec<Line>,
    pub released: u64,
}

/// The writer's state between items.
#[derive(Debug)]
pub struct Worker {
    pub groups: Groups,
    pub unconfirmed: Vec<Confirmation>,
    /// Monotonic time of the last flush, in nanoseconds.
    pub last_flush: u64,
}

/// The line of a finished group, as [`finish_line`] writes it.
pub open spec fn finished_text(g: Group, now: u64) -> Option<Seq<char>> {
    match chrono_rfc3339_millis(g.local.timestamp, g.local.nanos, g.local.offset) {
        None => None,
        Some(first) => if g.count > 1 {
            match chrono_rfc3339_millis(g.last_local.timestamp, g.last_local.nanos, g.last_local.offset) {
                None => None,
                Some(last) => Some(group_line(g, first, last, latency_ms(now, g.first.stamp.mono))),
            }
        } else {
            Some(group_line(g, first, Seq::empty(), latency_ms(now, g.first.stamp.mono)))
        },
    }
}

/// Lines of finished groups, in order.
pub open spec fn finished_lines(gs: Seq<Group>, now: u64) -> Option<Seq<(Seq<char>, Seq<char>)>>
    decreases gs.len(),
{
    if gs.len() == 0 {
        Some(Seq::empty())
    } else {
        match finished_lines(gs.drop_last(), now) {
            None => None,
            Some(prev) => match finished_text(gs.last(), now) {
                None => None,
                Some(t) => Some(prev.push((gs.last().path@, t))),
            },
        }
    }
}

pub open spec fn lines_view(ls: Seq<Line>) -> Seq<(Seq<char>, Seq<char>)> {
    ls.map_values(|l: Line| (l.path@, l.text@))
}

/// Confirmations of finished groups: one line and their occurrences each.
pub open spec fn group_confirmations(gs: Seq<Group>) -> Seq<Confirmation> {
    gs.map_values(|g: Group| Confirmation { instance: g.first.instance, occurrences: g.count, lines: 1, overload: 0 })
}

/// The position of the group of an event's key.
pub open spec fn key_index(before: Seq<Group>, e: Event) -> int {
    choose|k: int| 0 <= k < before.len() && same_key(#[trigger] before[k], e)
}

/// Groups of distinct keys have one position for each key.
proof fn lemma_key_index(before: Seq<Group>, e: Event, k: int)
    requires
        distinct_keys(before),
        0 <= k < before.len(),
        same_key(before[k], e),
    ensures
        key_index(before, e) == k,
{
    let j = key_index(before, e);
    assert(0 <= j < before.len() && same_key(before[j], e));
    if j < k {
        assert(!same_key(before[j], before[k].first));
    } else if k < j {
        assert(!same_key(before[k], before[j].first));
    }
}

/// The groups after an event with local time `local` and logical path `p` was
/// given to groups `before`, as [`Groups::place`] does; `Some` of the groups it
/// finished (the one of its key it could not join) when `after` is one of the
/// outcomes, `None` when it is not.
pub open spec fn placed_event(
    before: Seq<Group>,
    after: Seq<Group>,
    e: Event,
    local: LocalTime,
    p: Seq<char>,
    group_duration: u64,
) -> Option<Seq<Group>> {
    if exists|k: int| 0 <= k < before.len() && same_key(#[trigger] before[k], e) {
        let k = key_index(before, e);
        if mergeable(before[k], e, local, p, group_duration) {
            if after == before.update(k, joined(before[k], e, local)) {
                Some(Seq::empty())
            } else {
                None
            }
        } else if after.len() == before.len() && after.drop_last() == before.remove(k) && after.last() == started(
            e,
            local,
            after.last().path,
        ) && after.last().path@ == p {
            Some(seq![before[k]])
        } else {
            None
        }
    } else if after.len() == before.len() + 1 && after.drop_last() == before && after.last() == started(
        e,
        local,
        after.last().path,
    ) && after.last().path@ == p {
        Some(Seq::empty())
    } else {
        None
    }
}

impl Worker {
    pub fn new() -> (r: Worker)
        ensures
            r.groups.list@.len() == 0,
            r.unconfirmed@.len() == 0,
            r.last_flush == 0,
    {
        Worker { groups: Groups::new(), unconfirmed: Vec::new(), last_flush: 0 }
    }

    /// The lines of finished groups; each is to be confirmed.
    fn finish_groups(&mut self, gs: Vec<Group>, now: u64) -> (r: Result<Vec<Line>, WorkerError>)
        ensures
            final(self).groups == old(self).groups,
            final(self).last_flush == old(self).last_flush,
            match r {
                Ok(ls) => finished_lines(gs@, now) == Some(lines_view(ls@)) && final(self).unconfirmed@
                    == old(self).unconfirmed@ + group_confirmations(gs@),
                Err(e) => finished_lines(gs@, now) is None && e == WorkerError::Time,
            },
    {
        let ghost g0 = gs@;
        let mut rest = gs;
        let mut out: Vec<Line> = Vec::new();
        let mut i: usize = 0;
        let n = rest.len();
        assert(g0.take(0) =~= Seq::<Group>::empty());
        assert(g0.skip(0) =~= g0);
        assert(lines_view(out@) =~= Seq::<(Seq<char>, Seq<char>)>::empty());
        assert(group_confirmations(g0.take(0)) =~= Seq::<Confirmation>::empty());
        assert(old(self).unconfirmed@ + Seq::<Confirmation>::empty() =~= old(self).unconfirmed@);
        let mut failed = false;
        while rest.len() > 0 && !failed
            invariant
                !failed ==> finished_lines(g0.take(i as int), now) == Some(lines_view(out@)),
                failed ==> finished_lines(g0, now) is None,
                n == g0.len(),
                i <= n,
                rest@ == g0.skip(i as int),
                !failed ==> self.unconfirmed@ == old(self).unconfirmed@ + group_confirmations(g0.take(i as int)),
                self.groups == old(self).groups,
                self.last_flush == old(self).last_flush,
            decreases rest@.len(),
        {
            let g = rest.remove(0);
            proof {
                assert(g0.skip(i as int)[0] == g0[i as int]);
                assert(g0.skip(i + 1) =~= g0.skip(i as int).drop_first());
                assert(g0.take(i + 1).drop_last() =~= g0.take(i as int));
                assert(g0.take(i + 1).last() == g0[i as int]);
            }
            match finish_line(&g, now) {
                None => {
                    proof {
                        lemma_finished_prefix_none(g0, i as int, now);
                    }
                    failed = true;
                },
                Some(text) => {
                    let ghost before_lines = out@;
                    let c = Confirmation { instance: g.first.instance, occurrences: g.count, lines: 1, overload: 0 };
                    self.unconfirmed.push(c);
                    out.push(Line { path: g.path, text });
                    proof {
                        assert(lines_view(out@) =~= lines_view(before_lines).push((g0[i as int].path@, text@)));
                        assert(group_confirmations(g0.take(i + 1)) =~= group_confirmations(g0.take(i as int)).push(c));
                        assert(self.unconfirmed@ =~= old(self).unconfirmed@ + group_confirmations(g0.take(i + 1)));
                    }
                },
            }
            i = i + 1;
        }
        if failed {
            return Err(WorkerError::Time);
        }
        assert(g0.take(n as int) =~= g0);
        Ok(out)
    }

    /// Handles an event captured at local time `local`, at monotonic time `now`.
    pub fn on_event(&mut self, e: Event, local: LocalTime, now: u64, group_duration: u64) -> (r: Result<Outcome, WorkerError>)
        requires
            distinct_keys(old(self).groups.list@),
        ensures
            distinct_keys(final(self).groups.list@),
            final(self).last_flush == old(self).last_flush,
            match r {
                Ok(o) => chrono_local_day(local.timestamp, local.offset) matches Some(day) && placed_event(
                    old(self).groups.list@,
                    final(self).groups.list@,
                    e,
                    local,
                    path_text(day, e.instance_name@, e.destination@, local),
                    group_duration,
                ) matches Some(done) && finished_lines(done, now) == Some(lines_view(o.lines@)) && o.released
                    == (if old(self).groups.list@.len() == final(self).groups.list@.len() { 1int } else { 0int })
                    && final(self).unconfirmed@ == old(self).unconfirmed@ + group_confirmations(done)
                    && grouped(final(self).groups.list@) + awaiting(final(self).unconfirmed@) == grouped(
                    old(self).groups.list@,
                ) + awaiting(old(self).unconfirmed@) + 1,
                Err(WorkerError::Path) => (chrono_local_day(local.timestamp, local.offset) is None || hour_start(
                    local,
                ) < i64::MIN) && *final(self) == *old(self),
                Err(WorkerError::Time) => chrono_local_day(local.timestamp, local.offset) matches Some(day)
                    && placed_event(
                    old(self).groups.list@,
                    final(self).groups.list@,
                    e,
                    local,
                    path_text(day, e.instance_name@, e.destination@, local),
                    group_duration,
                ) matches Some(done) && finished_lines(done, now) is None,
            },
    {
        let path = match path_for(e.instance_name.as_str(), e.destination.as_str(), &local) {
            Some(p) => p,
            None => return Err(WorkerError::Path),
        };
        let ghost before = self.groups.list@;
        let ghost p = path@;
        let ghost ev = e;
        match self.groups.place(e, local, path, group_duration) {
            Placed::Joined(_) => {
                proof {
                    let k = choose|k: int|
                        0 <= k < before.len() && same_key(#[trigger] before[k], ev) && mergeable(
                            before[k],
                            ev,
                            local,
                            p,
                            group_duration,
                        ) && self.groups.list@ == before.update(k, joined(before[k], ev, local));
                    lemma_key_index(before, ev, k);
                    assert(group_confirmations(Seq::empty()) =~= Seq::<Confirmation>::empty());
                    assert(old(self).unconfirmed@ + Seq::<Confirmation>::empty() =~= old(self).unconfirmed@);
                    lemma_grouped_update(before, k, joined(before[k], ev, local));
                }
                Ok(Outcome { lines: Vec::new(), released: 1 })
            },
            Placed::Started(None) => {
                proof {
                    assert(self.groups.list@.drop_last() =~= before);
                    assert(group_confirmations(Seq::empty()) =~= Seq::<Confirmation>::empty());
                    assert(old(self).unconfirmed@ + Seq::<Confirmation>::empty() =~= old(self).unconfirmed@);
                    assert(grouped(self.groups.list@) == grouped(before) + 1);
                }
                Ok(Outcome { lines: Vec::new(), released: 0 })
            },
            Placed::Started(Some(prev)) => {
                proof {
                    let k = choose|k: int|
                        0 <= k < before.len() && #[trigger] before[k] == prev && same_key(prev, ev) && !mergeable(
                            prev,
                            ev,
                            local,
                            p,
                            group_duration,
                        ) && self.groups.list@ == before.remove(k).push(started(ev, local, self.groups.list@.last().path));
                    lemma_key_index(before, ev, k);
                    assert(self.groups.list@.drop_last() =~= before.remove(k));
                    lemma_grouped_remove(before, k);
                }
                let ghost after_groups = self.groups.list@;
                let mut gs: Vec<Group> = Vec::new();
                gs.push(prev);
                assert(gs@ =~= seq![prev]);
                let lines = match self.finish_groups(gs, now) {
                    Ok(l) => l,
                    Err(e) => return Err(e),
                };
                proof {
                    lemma_confirmations_count(seq![prev]);
                    assert(seq![prev].drop_last() =~= Seq::<Group>::empty());
                    lemma_awaiting_append(old(self).unconfirmed@, group_confirmations(seq![prev]));
                    assert(grouped(after_groups) == grouped(after_groups.drop_last()) + 1);
                    assert(grouped(Seq::<Group>::empty()) == 0);
                    assert(seq![prev].last() == prev);
                    assert(grouped(seq![prev]) == prev.count);
                    assert(self.groups.list@ == after_groups);
                }
                Ok(Outcome { lines, released: 1 })
            },
        }
    }

    /// Finishes the selected groups at monotonic time `now`.
    pub fn finish(&mut self, sel: Selector, now: u64) -> (r: Result<Outcome, WorkerError>)
        requires
            distinct_keys(old(self).groups.list@),
        ensures
            distinct_keys(final(self).groups.list@),
            final(self).groups.list@ == old(self).groups.list@.filter(|g: Group| !crate::grouping::selected(sel, g)),
            final(self).last_flush == old(self).last_flush,
            match r {
                Ok(o) => {
                    let gs = old(self).groups.list@.filter(|g: Group| crate::grouping::selected(sel, g));
                    &&& finished_lines(gs, now) == Some(lines_view(o.lines@))
                    &&& o.released == gs.len()
                    &&& final(self).unconfirmed@ == old(self).unconfirmed@ + group_confirmations(gs)
                    &&& grouped(final(self).groups.list@) + awaiting(final(self).unconfirmed@) == grouped(
                        old(self).groups.list@,
                    ) + awaiting(old(self).unconfirmed@)
                },
                Err(e) => e == WorkerError::Time && finished_lines(
                    old(self).groups.list@.filter(|g: Group| crate::grouping::selected(sel, g)),
                    now,
                ) is None,
            },
    {
        let gs = self.groups.take(sel);
        let n = gs.len() as u64;
        match self.finish_groups(gs, now) {
            Ok(lines) => {
                proof {
                    let all = old(self).groups.list@;
                    let taken = all.filter(|g: Group| crate::grouping::selected(sel, g));
                    lemma_grouped_split(all, sel);
                    lemma_confirmations_count(taken);
                    lemma_awaiting_append(old(self).unconfirmed@, group_confirmations(taken));
                }
                Ok(Outcome { lines, released: n })
            },
            Err(e) => Err(e),
        }
    }

    /// An overload summary of instance `id` named `name` (first destination
    /// `destination`), captured at `stamp` (local time `local`): the
    /// instance's groups are finished first, then the summary line follows.
    pub fn on_summary(
        &mut self,
        id: usize,
        name: &str,
        destination: &str,
        stamp: Stamp,
        local: LocalTime,
        sequence: u64,
        count: u64,
        now: u64,
    ) -> (r: Result<Outcome, WorkerError>)
        requires
            distinct_keys(old(self).groups.list@),
        ensures
            distinct_keys(final(self).groups.list@),
            final(self).groups.list@ == old(self).groups.list@.filter(
                |g: Group| !crate::grouping::selected(Selector::Instance(id), g),
            ),
            match r {
                Ok(o) => {
                    let gs = old(self).groups.list@.filter(|g: Group| crate::grouping::selected(Selector::Instance(id), g));
                    &&& o.released == gs.len()
                    &&& o.lines@.len() == gs.len() + 1
                    &&& finished_lines(gs, now) == Some(lines_view(o.lines@.drop_last()))
                    &&& chrono_local_day(local.timestamp, local.offset) matches Some(day)
                    &&& o.lines@.last().path@ == path_text(day, name@, destination@, local)
                    &&& chrono_rfc3339_millis(local.timestamp, local.nanos, local.offset) matches Some(t)
                    &&& o.lines@.last().text@ == crate::writer::summary_line_text(t, latency_ms(now, stamp.mono), sequence, name@, count)
                    &&& final(self).unconfirmed@ == old(self).unconfirmed@ + group_confirmations(gs).push(
                        Confirmation { instance: id, occurrences: 0, lines: 1, overload: count },
                    )
                    &&& grouped(final(self).groups.list@) + awaiting(final(self).unconfirmed@) == grouped(
                        old(self).groups.list@,
                    ) + awaiting(old(self).unconfirmed@)
                },
                Err(e) => {
                    let gs = old(self).groups.list@.filter(|g: Group| crate::grouping::selected(Selector::Instance(id), g));
                    if finished_lines(gs, now) is None {
                        e == WorkerError::Time
                    } else if chrono_local_day(local.timestamp, local.offset) is None || hour_start(local) < i64::MIN {
                        e == WorkerError::Path
                    } else {
                        e == WorkerError::Time && chrono_rfc3339_millis(local.timestamp, local.nanos, local.offset) is None
                    }
                },
            },
    {
        let mut out = match self.finish(Selector::Instance(id), now) {
            Ok(o) => o,
            Err(e) => return Err(e),
        };
        let path = match path_for(name, destination, &local) {
            Some(p) => p,
            None => return Err(WorkerError::Path),
        };
        let text = match summary_line(&local, stamp, now, sequence, name, count) {
            Some(t) => t,
            None => return Err(WorkerError::Time),
        };
        let ghost before = out.lines@;
        let ghost conf_before = self.unconfirmed@;
        proof {
            lemma_finished_len(old(self).groups.list@.filter(|g: Group| crate::grouping::selected(Selector::Instance(id), g)), now);
        }
        out.lines.push(Line { path, text });
        assert(out.lines@.drop_last() =~= before);
        let c = Confirmation { instance: id, occurrences: 0, lines: 1, overload: count };
        self.unconfirmed.push(c);
        proof {
            let gs = old(self).groups.list@.filter(|g: Group| crate::grouping::selected(Selector::Instance(id), g));
            assert(self.unconfirmed@ =~= old(self).unconfirmed@ + group_confirmations(gs).push(c));
            assert(self.unconfirmed@.drop_last() =~= old(self).unconfirmed@ + group_confirmations(gs));
            lemma_grouped_split(old(self).groups.list@, Selector::Instance(id));
            lemma_confirmations_count(gs);
            lemma_awaiting_append(old(self).unconfirmed@, group_confirmations(gs));
        }
        Ok(out)
    }

    /// Whether a flush is due at monotonic time `now`.
    pub fn flush_due(&self, now: u64, interval: u64) -> (r: bool)
        ensures
            r == (elapsed(now, self.last_flush) >= interval),
    {
        let age = if now >= self.last_flush {
            now - self.last_flush
        } else {
            0
        };
        age >= interval
    }

    /// What was written and not yet confirmed; nothing remains unconfirmed.
    pub fn take_confirmations(&mut self) -> (r: Vec<Confirmation>)
        ensures
            r@ == old(self).unconfirmed@,
            final(self).unconfirmed@.len() == 0,
            final(self).groups == old(self).groups,
            final(self).last_flush == old(self).last_flush,
    {
        let mut taken: Vec<Confirmation> = Vec::new();
        std::mem::swap(&mut taken, &mut self.unconfirmed);
        taken
    }
}

proof fn lemma_finished_len(gs: Seq<Group>, now: u64)
    ensures
        finished_lines(gs, now) matches Some(v) ==> v.len() == gs.len(),
    decreases gs.len(),
{
    if gs.len() > 0 {
        lemma_finished_len(gs.drop_last(), now);
    }
}

/// Once a prefix of groups cannot be rendered, no longer prefix can.
proof fn lemma_finished_prefix_none(gs: Seq<Group>, i: int, now: u64)
    requires
        0 <= i < gs.len(),
        finished_lines(gs.take(i), now) is Some,
        finished_text(gs[i], now) is None,
    ensures
        finished_lines(gs, now) is None,
    decreases gs.len() - i,
{
    lemma_finished_extend_none(gs, i + 1, now);
    assert(gs.take(i + 1).drop_last() =~= gs.take(i));
    assert(gs.take(i + 1).last() == gs[i]);
}

proof fn lemma_finished_extend_none(gs: Seq<Group>, j: int, now: u64)
    requires
        0 <= j <= gs.len(),
    ensures
        finished_lines(gs.take(j), now) is None ==> finished_lines(gs, now) is None,
    decreases gs.len() - j,
{
    if j < gs.len() {
        assert(gs.take(j + 1).drop_last() =~= gs.take(j));
        lemma_finished_extend_none(gs, j + 1, now);
    } else {
        assert(gs.take(j) =~= gs);
    }
}

/// The counters of an instance once a confirmation is applied: occurrences
/// written, lines written and `Full` refusals reported.
pub open spec fn confirmed_stats(x: InstanceStats, c: Confirmation) -> InstanceStats {
    InstanceStats {
        counters: crate::model::Counters {
            written: (x.counters.written + c.occurrences) as u64,
            lines: (x.counters.lines + c.lines) as u64,
            overload_reported: (x.counters.overload_reported + c.overload) as u64,
            ..x.counters
        },
        ..x
    }
}

/// A confirmation fits the counters: its instance exists, no more is written
/// than accepted, and the counter total stays within `u64`.
pub open spec fn confirmation_fits(s: Seq<InstanceStats>, c: Confirmation) -> bool {
    &&& c.instance < s.len()
    &&& s[c.instance as int].counters.written + c.occurrences <= s[c.instance as int].counters.accepted
    &&& crate::engine::sum_of(s, |x: InstanceStats| crate::engine::counter_sum(x)) + c.occurrences + c.lines
        + c.overload <= u64::MAX
}

/// Confirmations applied in order to the counters `s`: the counters reached,
/// and whether every one fitted. The run stops at the first that does not.
pub open spec fn confirm_run(s: Seq<InstanceStats>, list: Seq<Confirmation>) -> (Seq<InstanceStats>, bool)
    decreases list.len(),
{
    if list.len() == 0 {
        (s, true)
    } else {
        let (t, ok) = confirm_run(s, list.drop_last());
        let c = list.last();
        if !ok {
            (t, false)
        } else if confirmation_fits(t, c) {
            (t.update(c.instance as int, confirmed_stats(t[c.instance as int], c)), true)
        } else {
            (t, false)
        }
    }
}

/// A run that stopped on a prefix gives the same counters on the whole list.
proof fn lemma_confirm_run_stops(s: Seq<InstanceStats>, list: Seq<Confirmation>, k: int)
    requires
        0 <= k <= list.len(),
        !confirm_run(s, list.take(k)).1,
    ensures
        confirm_run(s, list) == confirm_run(s, list.take(k)),
    decreases list.len() - k,
{
    if k < list.len() {
        assert(list.take(k + 1).drop_last() =~= list.take(k));
        lemma_confirm_run_stops(s, list, k + 1);
    } else {
        assert(list.take(k) =~= list);
    }
}

impl State {
    /// Confirms what the writer flushed: the confirmations are applied in
    /// order. At the first that does not fit the counters (an unknown
    /// instance, more written than accepted, or a counter total overflowing)
    /// it stops and returns `false`; those before it stay applied.
    pub fn confirm_all(&mut self, list: &Vec<Confirmation>) -> (r: bool)
        requires
            old(self).wf(),
        ensures
            final(self).wf(),
            final(self).health == old(self).health,
            final(self).queue@ == old(self).queue@,
            final(self).sequence == old(self).sequence,
            final(self).reserved_events == old(self).reserved_events,
            final(self).instances@ == old(self).instances@,
            r == confirm_run(old(self).stats@, list@).1,
            final(self).stats@ == confirm_run(old(self).stats@, list@).0,
            r ==> unwritten(final(self).stats@) == unwritten(old(self).stats@) - awaiting(list@),
    {
        let mut i: usize = 0;
        assert(list@.take(0) =~= Seq::<Confirmation>::empty());
        while i < list.len()
            invariant
                self.wf(),
                i <= list@.len(),
                self.health == old(self).health,
                self.queue@ == old(self).queue@,
                self.sequence == old(self).sequence,
                self.reserved_events == old(self).reserved_events,
                self.instances@ == old(self).instances@,
                confirm_run(old(self).stats@, list@.take(i as int)) == (self.stats@, true),
                unwritten(self.stats@) == unwritten(old(self).stats@) - awaiting(list@.take(i as int)),
            decreases list@.len() - i,
        {
            let c = list[i];
            proof {
                assert(list@.take(i + 1).drop_last() =~= list@.take(i as int));
                assert(list@.take(i + 1).last() == c);
            }
            if c.instance >= self.stats.len() {
                proof {
                    lemma_confirm_run_stops(old(self).stats@, list@, i + 1);
                }
                return false;
            }
            let x = self.stats[c.instance].counters;
            if x.accepted - x.written < c.occurrences {
                proof {
                    lemma_confirm_run_stops(old(self).stats@, list@, i + 1);
                }
                return false;
            }
            let total = self.counted();
            if c.occurrences > u64::MAX - total || c.lines > u64::MAX - total - c.occurrences || c.overload
                > u64::MAX - total - c.occurrences - c.lines {
                proof {
                    lemma_confirm_run_stops(old(self).stats@, list@, i + 1);
                }
                return false;
            }
            let ghost s0 = self.stats@;
            self.confirm(c.instance, c.occurrences, c.lines, c.overload);
            proof {
                lemma_unwritten_update(s0, c.instance as int, self.stats@[c.instance as int]);
                assert(s0.update(c.instance as int, self.stats@[c.instance as int]) =~= self.stats@);
                assert(self.stats@ =~= s0.update(c.instance as int, confirmed_stats(s0[c.instance as int], c)));
            }
            i = i + 1;
        }
        assert(list@.take(i as int) =~= list@);
        true
    }
}


/// Confirmations of finished groups carry the groups' occurrences.
proof fn lemma_confirmations_count(gs: Seq<Group>)
    ensures
        awaiting(group_confirmations(gs)) == grouped(gs),
    decreases gs.len(),
{
    if gs.len() > 0 {
        lemma_confirmations_count(gs.drop_last());
        assert(group_confirmations(gs).drop_last() =~= group_confirmations(gs.drop_last()));
    }
}

/// The groups a selector takes and those it leaves hold all occurrences.
proof fn lemma_grouped_split(s: Seq<Group>, sel: Selector)
    ensures
        grouped(s.filter(|g: Group| crate::grouping::selected(sel, g))) + grouped(
            s.filter(|g: Group| !crate::grouping::selected(sel, g)),
        ) == grouped(s),
    decreases s.len(),
{
    if s.len() > 0 {
        let t = s.drop_last();
        let x = s.last();
        lemma_grouped_split(t, sel);
        assert(s =~= t.push(x));
        t.lemma_filter_push(x, |g: Group| crate::grouping::selected(sel, g));
        t.lemma_filter_push(x, |g: Group| !crate::grouping::selected(sel, g));
        let fp = t.filter(|g: Group| crate::grouping::selected(sel, g));
        let fq = t.filter(|g: Group| !crate::grouping::selected(sel, g));
        assert(fp.push(x).drop_last() =~= fp);
        assert(fq.push(x).drop_last() =~= fq);
        if crate::grouping::selected(sel, x) {
            assert(s.filter(|g: Group| crate::grouping::selected(sel, g)) == fp.push(x));
            assert(s.filter(|g: Group| !crate::grouping::selected(sel, g)) == fq);
        } else {
            assert(s.filter(|g: Group| crate::grouping::selected(sel, g)) == fp);
            assert(s.filter(|g: Group| !crate::grouping::selected(sel, g)) == fq.push(x));
        }
    } else {
        reveal(Seq::filter);
        assert(s.filter(|g: Group| crate::grouping::selected(sel, g)) =~= Seq::<Group>::empty());
        assert(s.filter(|g: Group| !crate::grouping::selected(sel, g)) =~= Seq::<Group>::empty());
    }
}

} // verus!
