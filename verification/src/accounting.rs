//! Where accepted events are until they are written: queued, held by an open
//! group, or written and awaiting the flush that confirms them.
use vstd::prelude::*;
use crate::control::{summaries_done, summaries_stats, summary_items};
use crate::engine::{count_events, InstanceStats, Item, Stamp, State};
use crate::worker::{Confirmation, Worker};
use crate::writer::Group;

verus! {

/// Accepted events of an instance not yet confirmed written.
pub open spec fn unwritten_of(x: InstanceStats) -> int {
    x.counters.accepted - x.counters.written
}

/// Accepted events not yet confirmed written, over all instances.
pub open spec fn unwritten(s: Seq<InstanceStats>) -> int
    decreases s.len(),
{
    if s.len() == 0 {
        0
    } else {
        unwritten(s.drop_last()) + unwritten_of(s.last())
    }
}

/// Occurrences held by open groups.
pub open spec fn grouped(gs: Seq<Group>) -> int
    decreases gs.len(),
{
    if gs.len() == 0 {
        0
    } else {
        grouped(gs.drop_last()) + gs.last().count
    }
}

/// Occurrences written and awaiting the flush that confirms them.
pub open spec fn awaiting(cs: Seq<Confirmation>) -> int
    decreases cs.len(),
{
    if cs.len() == 0 {
        0
    } else {
        awaiting(cs.drop_last()) + cs.last().occurrences
    }
}

/// Every accepted event not yet written is queued, grouped, or awaiting
/// confirmation.
pub open spec fn accounted(st: State, w: Worker) -> bool {
    unwritten(st.stats@) == count_events(st.queue@) + grouped(w.groups.list@) + awaiting(w.unconfirmed@)
}

pub proof fn lemma_unwritten_update(s: Seq<InstanceStats>, i: int, x: InstanceStats)
    requires
        0 <= i < s.len(),
    ensures
        unwritten(s.update(i, x)) == unwritten(s) - unwritten_of(s[i]) + unwritten_of(x),
    decreases s.len(),
{
    if i < s.len() - 1 {
        lemma_unwritten_update(s.drop_last(), i, x);
        assert(s.update(i, x).drop_last() =~= s.drop_last().update(i, x));
    } else {
        assert(s.update(i, x).drop_last() =~= s.drop_last());
    }
}

/// Statistics with the same counters have the same unwritten events.
pub proof fn lemma_unwritten_same_counters(a: Seq<InstanceStats>, b: Seq<InstanceStats>)
    requires
        a.len() == b.len(),
        forall|i: int| 0 <= i < a.len() ==> (#[trigger] a[i]).counters == b[i].counters,
    ensures
        unwritten(a) == unwritten(b),
    decreases a.len(),
{
    if a.len() > 0 {
        lemma_unwritten_same_counters(a.drop_last(), b.drop_last());
        assert(a.last().counters == b[b.len() - 1].counters);
    }
}

pub proof fn lemma_count_events_append(q: Seq<Item>, t: Seq<Item>)
    ensures
        count_events(q + t) == count_events(q) + count_events(t),
    decreases q.len(),
{
    if q.len() > 0 {
        lemma_count_events_append(q.drop_first(), t);
        assert((q + t).drop_first() =~= q.drop_first() + t);
    } else {
        assert(q + t =~= t);
    }
}

/// Items that are not events count no event.
pub proof fn lemma_count_no_events(t: Seq<Item>)
    requires
        forall|i: int| 0 <= i < t.len() ==> !(#[trigger] t[i] is Event),
    ensures
        count_events(t) == 0,
    decreases t.len(),
{
    if t.len() > 0 {
        assert forall|i: int| 0 <= i < t.drop_first().len() implies !(#[trigger] t.drop_first()[i] is Event) by {
            assert(t.drop_first()[i] == t[i + 1]);
        }
        lemma_count_no_events(t.drop_first());
    }
}

pub proof fn lemma_grouped_update(s: Seq<Group>, i: int, g: Group)
    requires
        0 <= i < s.len(),
    ensures
        grouped(s.update(i, g)) == grouped(s) - s[i].count + g.count,
    decreases s.len(),
{
    if i < s.len() - 1 {
        lemma_grouped_update(s.drop_last(), i, g);
        assert(s.update(i, g).drop_last() =~= s.drop_last().update(i, g));
    } else {
        assert(s.update(i, g).drop_last() =~= s.drop_last());
    }
}

pub proof fn lemma_grouped_remove(s: Seq<Group>, i: int)
    requires
        0 <= i < s.len(),
    ensures
        grouped(s.remove(i)) == grouped(s) - s[i].count,
    decreases s.len(),
{
    if i < s.len() - 1 {
        lemma_grouped_remove(s.drop_last(), i);
        assert(s.remove(i).drop_last() =~= s.drop_last().remove(i));
        assert(s.remove(i).last() == s.last());
    } else {
        assert(s.remove(i) =~= s.drop_last());
    }
}

pub proof fn lemma_awaiting_append(a: Seq<Confirmation>, b: Seq<Confirmation>)
    ensures
        awaiting(a + b) == awaiting(a) + awaiting(b),
    decreases b.len(),
{
    if b.len() > 0 {
        lemma_awaiting_append(a, b.drop_last());
        assert((a + b).drop_last() =~= a + b.drop_last());
    } else {
        assert(a + b =~= a);
    }
}


/// Queuing overload summaries keeps the events not yet written and the
/// events queued.
pub proof fn lemma_summaries_keep_accounting(a: State, b: State, now: Stamp, force: bool)
    requires
        summaries_done(a, b, now, force),
    ensures
        unwritten(b.stats@) == unwritten(a.stats@),
        count_events(b.queue@) == count_events(a.queue@),
{
    let interval = a.limits.overload_interval;
    let s = a.stats@;
    let t = summaries_stats(s, now.mono, force, interval);
    assert forall|i: int| 0 <= i < s.len() implies (#[trigger] s[i]).counters == t[i].counters by {}
    lemma_unwritten_same_counters(s, t);
    let items = summary_items(s, now, force, interval, a.sequence as int);
    assert forall|i: int| 0 <= i < items.len() implies !(#[trigger] items[i] is Event) by {}
    lemma_count_no_events(items);
    lemma_count_events_append(a.queue@, items);
}

} // verus!
