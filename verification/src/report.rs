//! Consistent snapshots of the admission state.
use vstd::prelude::*;
use crate::engine::{counter_sum, lemma_prefix_sum_bound, sum_of, total_counters, InstanceStats, State};
use crate::model::{Counters, Report, ShutdownError, Health};
use crate::text::{compare_text, lemma_text_lt_total, lemma_text_lt_transitive, text_lt, to_chars, TextOrder};

verus! {

/// Names of report entries.
pub open spec fn entry_names(v: Seq<(String, Counters)>) -> Seq<Seq<char>> {
    v.map_values(|e: (String, Counters)| e.0@)
}

/// Names strictly ascending.
pub open spec fn names_ascending(s: Seq<Seq<char>>) -> bool {
    forall|a: int, b: int| 0 <= a < b < s.len() ==> text_lt(#[trigger] s[a], #[trigger] s[b])
}

/// The entries of a report: one per instance (name and counters), by ascending name.
pub open spec fn report_entries_ok(v: Seq<(String, Counters)>, st: State) -> bool {
    &&& v.len() == st.instances@.len()
    &&& names_ascending(entry_names(v))
    &&& forall|i: int|
        0 <= i < st.instances@.len() ==> exists|j: int|
            0 <= j < v.len() && v[j].0@ == (#[trigger] st.instances@[i]).name@ && v[j].1
                == st.stats@[i].counters
}

/// A report of `st`: its health, the totals of its counters, the events accepted
/// but not yet written, the credits in use, its failure text and its instances.
pub open spec fn report_ok(r: Report, st: State) -> bool {
    &&& r.health == st.health
    &&& r.totals == total_counters(st.stats@)
    &&& r.pending == r.totals.accepted - r.totals.written
    &&& r.reserved_events == st.reserved_events
    &&& r.reserved_bytes == st.reserved_bytes
    &&& r.context_bytes == st.context_bytes
    &&& error_view(r.error) == error_view(st.error)
    &&& report_entries_ok(r.instances@, st)
}

/// The text of an optional error, if any.
pub open spec fn error_view(e: Option<String>) -> Option<Seq<char>> {
    match e {
        Some(t) => Some(t@),
        None => None,
    }
}

/// The totals of the counters fit, and no more is written than accepted.
pub proof fn lemma_totals(s: Seq<InstanceStats>)
    requires
        sum_of(s, |x: InstanceStats| counter_sum(x)) <= u64::MAX,
        forall|i: int| 0 <= i < s.len() ==> (#[trigger] s[i]).counters.written <= s[i].counters.accepted,
    ensures
        total_counters(s).sum() == sum_of(s, |x: InstanceStats| counter_sum(x)),
        total_counters(s).written <= total_counters(s).accepted,
    decreases s.len(),
{
    if s.len() > 0 {
        let t = s.drop_last();
        let f = |x: InstanceStats| counter_sum(x);
        assert forall|k: int| 0 <= k < s.len() implies f(#[trigger] s[k]) >= 0 by {}
        lemma_prefix_sum_bound(s, s.len() - 1, f);
        assert(s.take(s.len() - 1) =~= t);
        assert forall|i: int| 0 <= i < t.len() implies (#[trigger] t[i]).counters.written <= t[i].counters.accepted by {
            assert(t[i] == s[i]);
        }
        lemma_totals(t);
        assert(s.last() == s[s.len() - 1]);
    }
}

proof fn lemma_insert_sorted(v: Seq<Seq<char>>, p: int, x: Seq<char>)
    requires
        names_ascending(v),
        0 <= p <= v.len(),
        forall|q: int| 0 <= q < p ==> text_lt(#[trigger] v[q], x),
        p < v.len() ==> text_lt(x, v[p]),
    ensures
        names_ascending(v.insert(p, x)),
{
    let w = v.insert(p, x);
    assert forall|a: int, b: int| 0 <= a < b < w.len() implies text_lt(#[trigger] w[a], #[trigger] w[b]) by {
        if b < p {
        } else if b == p {
        } else if a < p {
            assert(w[b] == v[b - 1]);
            if b - 1 > p {
                lemma_text_lt_transitive(x, v[p], v[b - 1]);
            }
            lemma_text_lt_transitive(v[a], x, v[b - 1]);
        } else if a == p {
            assert(w[b] == v[b - 1]);
            if b - 1 > p {
                lemma_text_lt_transitive(x, v[p], v[b - 1]);
            }
        } else {
            assert(w[a] == v[a - 1] && w[b] == v[b - 1]);
        }
    }
}

/// Inserts an entry whose name is new at its place by ascending name; the
/// place is returned.
fn insert_entry(entries: &mut Vec<(String, Counters)>, name: String, c: Counters) -> (p: usize)
    requires
        names_ascending(entry_names(old(entries)@)),
        forall|j: int| 0 <= j < old(entries)@.len() ==> (#[trigger] old(entries)@[j]).0@ != name@,
    ensures
        p <= old(entries)@.len(),
        final(entries)@ == old(entries)@.insert(p as int, (name, c)),
        names_ascending(entry_names(final(entries)@)),
{
    let key = to_chars(name.as_str());
    let mut p: usize = 0;
    while p < entries.len() && compare_text(&to_chars(entries[p].0.as_str()), &key) == TextOrder::Less
        invariant
            p <= entries@.len(),
            key@ == name@,
            forall|q: int| 0 <= q < p ==> text_lt(#[trigger] entry_names(entries@)[q], name@),
        decreases entries@.len() - p,
    {
        p = p + 1;
    }
    let ghost before = entries@;
    proof {
        if p < before.len() {
            lemma_text_lt_total(before[p as int].0@, name@);
        }
        lemma_insert_sorted(entry_names(before), p as int, name@);
    }
    entries.insert(p, (name, c));
    assert(entry_names(entries@) =~= entry_names(before).insert(p as int, name@));
    p
}

impl State {
    /// A consistent snapshot: health, totals, per-instance counters by ascending
    /// instance name, events accepted but not yet written, credits in use and
    /// the failure text.
    pub fn report(&self) -> (r: Report)
        requires
            self.wf(),
        ensures
            report_ok(r, *self),
    {
        let ghost f = |x: InstanceStats| counter_sum(x);
        let mut totals = Counters::zero();
        let mut entries: Vec<(String, Counters)> = Vec::new();
        let n = self.stats.len();
        let mut i: usize = 0;
        proof {
            assert forall|k: int| 0 <= k < self.stats@.len() implies f(#[trigger] self.stats@[k]) >= 0 by {}
            assert(self.stats@.take(0) =~= Seq::<InstanceStats>::empty());
            assert(totals == total_counters(self.stats@.take(0)));
        }
        while i < n
            invariant
                self.wf(),
                n == self.stats@.len(),
                i <= n,
                f == |x: InstanceStats| counter_sum(x),
                forall|k: int| 0 <= k < self.stats@.len() ==> f(#[trigger] self.stats@[k]) >= 0,
                totals == total_counters(self.stats@.take(i as int)),
                totals.sum() == sum_of(self.stats@.take(i as int), f),
                entries@.len() == i,
                names_ascending(entry_names(entries@)),
                forall|k: int|
                    0 <= k < i ==> exists|j: int|
                        0 <= j < entries@.len() && entries@[j].0@ == (#[trigger] self.instances@[k]).name@
                            && entries@[j].1 == self.stats@[k].counters,
                forall|j: int|
                    0 <= j < entries@.len() ==> exists|k: int|
                        0 <= k < i && (#[trigger] entries@[j]).0@ == self.instances@[k].name@,
            decreases n - i,
        {
            proof {
                let t = self.stats@.take(i + 1);
                assert(t.drop_last() =~= self.stats@.take(i as int));
                lemma_prefix_sum_bound(self.stats@, i + 1, f);
                assert forall|k: int| 0 <= k < t.len() implies (#[trigger] t[k]).counters.written <= t[k].counters.accepted by {
                    assert(t[k] == self.stats@[k]);
                }
                lemma_totals(t);
                assert(t.last() == self.stats@[i as int]);
            }
            let c = self.stats[i].counters;
            totals = totals.add(&c);
            let ghost before = entries@;
            proof {
                assert forall|j: int| 0 <= j < before.len() implies (#[trigger] before[j]).0@ != self.instances@[i as int].name@ by {
                    let k = choose|k: int| 0 <= k < i && before[j].0@ == self.instances@[k].name@;
                    assert(self.instances@[k].name@ != self.instances@[i as int].name@);
                }
            }
            let p = insert_entry(&mut entries, self.instances[i].name.clone(), c);
            proof {
                let after = entries@;
                assert forall|k: int|
                    0 <= k < i + 1 implies exists|j: int|
                        0 <= j < after.len() && after[j].0@ == (#[trigger] self.instances@[k]).name@
                            && after[j].1 == self.stats@[k].counters by {
                    if k == i {
                        assert(after[p as int].0@ == self.instances@[k].name@);
                        assert(after[p as int].1 == self.stats@[k].counters);
                    } else {
                        let j = choose|j: int|
                            0 <= j < before.len() && before[j].0@ == self.instances@[k].name@ && before[j].1
                                == self.stats@[k].counters;
                        if j < p {
                            assert(after[j] == before[j]);
                        } else {
                            assert(after[j + 1] == before[j]);
                        }
                    }
                }
                assert forall|j: int|
                    0 <= j < after.len() implies exists|k: int|
                        0 <= k < i + 1 && (#[trigger] after[j]).0@ == self.instances@[k].name@ by {
                    if j < p {
                        assert(after[j] == before[j]);
                        let k = choose|k: int| 0 <= k < i && before[j].0@ == self.instances@[k].name@;
                    } else if j == p {
                    } else {
                        assert(after[j] == before[j - 1]);
                        let k = choose|k: int| 0 <= k < i && before[j - 1].0@ == self.instances@[k].name@;
                    }
                }
            }
            i = i + 1;
        }
        proof {
            assert(self.stats@.take(n as int) =~= self.stats@);
            lemma_totals(self.stats@);
        }
        let error = match &self.error {
            Some(e) => Some(e.clone()),
            None => None,
        };
        Report {
            health: self.health,
            totals,
            instances: entries,
            pending: totals.accepted - totals.written,
            reserved_events: self.reserved_events,
            reserved_bytes: self.reserved_bytes,
            context_bytes: self.context_bytes,
            error,
        }
    }

    /// The outcome of a shutdown once the writer is done: the report, as an
    /// error when the state failed.
    pub fn shutdown_outcome(&self) -> (r: Result<Report, ShutdownError>)
        requires
            self.wf(),
        ensures
            match r {
                Ok(rep) => self.health != Health::Failed && report_ok(rep, *self),
                Err(e) => self.health == Health::Failed && report_ok(*e.report, *self),
            },
    {
        let report = self.report();
        if report.health == Health::Failed {
            Err(ShutdownError { report: Box::new(report) })
        } else {
            Ok(report)
        }
    }
}

} // verus!
