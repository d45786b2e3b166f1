//! The writer's groups: consecutive identical events of one instance and
//! destination, written as a single line.
use vstd::prelude::*;
use crate::engine::{Event, State};
use crate::fields::same_entries;
use crate::time::{hour_start, LocalTime};
use crate::text::{same_text, to_chars};
use crate::writer::Group;

verus! {

/// The text of an optional thread name.
pub open spec fn thread_view(t: Option<String>) -> Option<Seq<char>> {
    match t {
        Some(s) => Some(s@),
        None => None,
    }
}

/// `a - b`, or 0 when `b` is larger.
pub open spec fn elapsed(a: u64, b: u64) -> int {
    if a >= b {
        a - b
    } else {
        0
    }
}

/// A group and an event have the same key: instance and destination.
pub open spec fn same_key(g: Group, e: Event) -> bool {
    g.first.instance == e.instance && g.first.destination@ == e.destination@
}

/// An event joins the group of its key: same file, same offset, same
/// continuity epoch, level, source, fields, message and thread, captured
/// within the group duration of the first occurrence (and the count can grow).
pub open spec fn mergeable(g: Group, e: Event, local: LocalTime, path: Seq<char>, group_duration: u64) -> bool {
    &&& g.path@ == path
    &&& g.local.offset == local.offset
    &&& g.first.epoch == e.epoch
    &&& g.first.level == e.level
    &&& g.first.source.module@ == e.source.module@
    &&& g.first.source.file@ == e.source.file@
    &&& g.first.source.line == e.source.line
    &&& same_entries(g.first.fields@, e.fields@)
    &&& g.first.message@ == e.message@
    &&& thread_view(g.first.thread) == thread_view(e.thread)
    &&& elapsed(e.stamp.mono, g.first.stamp.mono) < group_duration
    &&& g.count < u64::MAX
}

/// The group that an event starts.
pub open spec fn started(e: Event, local: LocalTime, path: String) -> Group {
    Group { first: e, last: e.stamp, last_local: local, last_seq: e.sequence, count: 1, local, path }
}

/// A group after an event joined it.
pub open spec fn joined(g: Group, e: Event, local: LocalTime) -> Group {
    Group { last: e.stamp, last_local: local, last_seq: e.sequence, count: (g.count + 1) as u64, ..g }
}

/// Which groups to take out.
#[derive(Clone, Copy, Debug)]
pub enum Selector {
    /// Groups older than the group duration at monotonic `now`, or whose local
    /// hour has ended at wall-clock second `wall`.
    Expired { now: u64, wall: i64, group_duration: u64 },
    /// Groups of one instance.
    Instance(usize),
    All,
}

/// The start of the next local hour, saturated at the largest `i64`.
pub open spec fn hour_end(t: LocalTime) -> int {
    if hour_start(t) + 3600 > i64::MAX {
        i64::MAX as int
    } else {
        hour_start(t) + 3600
    }
}

pub open spec fn selected(sel: Selector, g: Group) -> bool {
    match sel {
        Selector::Expired { now, wall, group_duration } => elapsed(now, g.first.stamp.mono)
            >= group_duration || hour_end(g.local) <= wall,
        Selector::Instance(id) => g.first.instance == id,
        Selector::All => true,
    }
}

/// What became of an event given to the groups.
#[derive(Debug)]
pub enum Placed {
    /// It joined the group of its key; the event itself is handed back.
    Joined(Event),
    /// It started a group; the group it replaces, if any, is handed back.
    Started(Option<Group>),
}

/// The open groups, at most one per key, in the order they were started.
#[derive(Debug)]
pub struct Groups {
    pub list: Vec<Group>,
}

/// No two groups share a key.
pub open spec fn distinct_keys(s: Seq<Group>) -> bool {
    forall|i: int, j: int|
        0 <= i < j < s.len() ==> !same_key(#[trigger] s[i], (#[trigger] s[j]).first)
}

fn same_source(a: &crate::model::Source, b: &crate::model::Source) -> (r: bool)
    ensures
        r == (a.module@ == b.module@ && a.file@ == b.file@ && a.line == b.line),
{
    same_text(&to_chars(a.module), &to_chars(b.module)) && same_text(&to_chars(a.file), &to_chars(b.file))
        && a.line == b.line
}

fn same_thread(a: &Option<String>, b: &Option<String>) -> (r: bool)
    ensures
        r == (thread_view(*a) == thread_view(*b)),
{
    match (a, b) {
        (Some(x), Some(y)) => same_text(&to_chars(x.as_str()), &to_chars(y.as_str())),
        (None, None) => true,
        _ => false,
    }
}

/// Whether an event joins a group.
pub fn can_merge(g: &Group, e: &Event, local: &LocalTime, path: &str, group_duration: u64) -> (r: bool)
    ensures
        r == mergeable(*g, *e, *local, path@, group_duration),
{
    let age = if e.stamp.mono >= g.first.stamp.mono {
        e.stamp.mono - g.first.stamp.mono
    } else {
        0
    };
    same_text(&to_chars(g.path.as_str()), &to_chars(path)) && g.local.offset == local.offset
        && g.first.epoch == e.epoch && g.first.level == e.level && same_source(
        &g.first.source,
        &e.source,
    ) && g.first.fields.same(&e.fields) && same_text(
        &to_chars(g.first.message.as_str()),
        &to_chars(e.message.as_str()),
    ) && same_thread(&g.first.thread, &e.thread) && age < group_duration && g.count < u64::MAX
}

fn is_selected(sel: Selector, g: &Group) -> (r: bool)
    ensures
        r == selected(sel, *g),
{
    match sel {
        Selector::Expired { now, wall, group_duration } => {
            let age = if now >= g.first.stamp.mono {
                now - g.first.stamp.mono
            } else {
                0
            };
            let start = crate::time::hour_start_wide(&g.local);
            let end: i128 = if start + 3600 > i64::MAX as i128 {
                i64::MAX as i128
            } else {
                start + 3600
            };
            age >= group_duration || end <= wall as i128
        },
        Selector::Instance(id) => g.first.instance == id,
        Selector::All => true,
    }
}

impl Groups {
    pub fn new() -> (r: Groups)
        ensures
            r.list@.len() == 0,
    {
        Groups { list: Vec::new() }
    }

    /// Gives an event, with its local time and logical path, to the groups: it
    /// joins the group of its key when mergeable; otherwise it starts a new
    /// group, replacing the one of its key.
    pub fn place(&mut self, e: Event, local: LocalTime, path: String, group_duration: u64) -> (r: Placed)
        requires
            distinct_keys(old(self).list@),
        ensures
            distinct_keys(final(self).list@),
            match r {
                Placed::Joined(back) => {
                    &&& back == e
                    &&& exists|k: int|
                        0 <= k < old(self).list@.len() && same_key(#[trigger] old(self).list@[k], e)
                            && mergeable(old(self).list@[k], e, local, path@, group_duration)
                            && final(self).list@ == old(self).list@.update(
                            k,
                            joined(old(self).list@[k], e, local),
                        )
                },
                Placed::Started(Some(prev)) => exists|k: int|
                    0 <= k < old(self).list@.len() && #[trigger] old(self).list@[k] == prev
                        && same_key(prev, e) && !mergeable(prev, e, local, path@, group_duration)
                        && final(self).list@ == old(self).list@.remove(k).push(
                        started(e, local, path),
                    ),
                Placed::Started(None) => {
                    &&& forall|k: int|
                        0 <= k < old(self).list@.len() ==> !same_key(#[trigger] old(self).list@[k], e)
                    &&& final(self).list@ == old(self).list@.push(started(e, local, path))
                },
            },
    {
        let dest = to_chars(e.destination.as_str());
        let mut k: usize = 0;
        let mut found = false;
        while k < self.list.len() && !found
            invariant
                dest@ == e.destination@,
                k <= self.list@.len(),
                self.list@ == old(self).list@,
                found ==> k < self.list@.len() && same_key(self.list@[k as int], e),
                forall|j: int| 0 <= j < k ==> !same_key(#[trigger] self.list@[j], e),
            decreases self.list@.len() - k, if found { 0int } else { 1int },
        {
            if self.list[k].first.instance == e.instance && same_text(
                &to_chars(self.list[k].first.destination.as_str()),
                &dest,
            ) {
                found = true;
            } else {
                k = k + 1;
            }
        }
        let ghost l0 = self.list@;
        if found {
            assert(same_key(l0[k as int], e));
            if can_merge(&self.list[k], &e, &local, path.as_str(), group_duration) {
                let g = self.list.remove(k);
                let joined_group = Group {
                    last: e.stamp,
                    last_local: local,
                    last_seq: e.sequence,
                    count: g.count + 1,
                    ..g
                };
                self.list.insert(k, joined_group);
                proof {
                    assert(self.list@ =~= l0.update(k as int, joined(l0[k as int], e, local)));
                    assert forall|i: int, j: int|
                        0 <= i < j < self.list@.len() implies !same_key(#[trigger] self.list@[i], (#[trigger] self.list@[j]).first) by {
                        assert(same_key(l0[i], self.list@[j].first) == same_key(self.list@[i], self.list@[j].first));
                        if i != k && j != k {
                            assert(self.list@[i] == l0[i] && self.list@[j] == l0[j]);
                        } else if i == k {
                            assert(self.list@[j] == l0[j]);
                        } else {
                            assert(self.list@[i] == l0[i]);
                        }
                    }
                }
                return Placed::Joined(e);
            }
            let prev = self.list.remove(k);
            let ghost g = started(e, local, path);
            self.list.push(Group {
                last: e.stamp,
                last_local: local,
                last_seq: e.sequence,
                first: e,
                count: 1,
                local,
                path,
            });
            proof {
                assert(self.list@ =~= l0.remove(k as int).push(g));
                assert forall|i: int, j: int|
                    0 <= i < j < self.list@.len() implies !same_key(#[trigger] self.list@[i], (#[trigger] self.list@[j]).first) by {
                    let r = l0.remove(k as int);
                    if j < self.list@.len() - 1 {
                        let oi = if i < k { i } else { i + 1 };
                        let oj = if j < k { j } else { j + 1 };
                        assert(self.list@[i] == l0[oi] && self.list@[j] == l0[oj]);
                    } else {
                        let oi = if i < k { i } else { i + 1 };
                        assert(self.list@[i] == l0[oi]);
                        assert(same_key(l0[k as int], e));
                        assert(oi != k);
                        if oi < k {
                            assert(!same_key(l0[oi], l0[k as int].first));
                        } else {
                            assert(!same_key(l0[k as int], l0[oi].first));
                        }
                    }
                }
            }
            return Placed::Started(Some(prev));
        }
        let ghost g = started(e, local, path);
        self.list.push(Group {
            last: e.stamp,
            last_local: local,
            last_seq: e.sequence,
            first: e,
            count: 1,
            local,
            path,
        });
        proof {
            assert(self.list@ =~= l0.push(g));
            assert forall|i: int, j: int|
                0 <= i < j < self.list@.len() implies !same_key(#[trigger] self.list@[i], (#[trigger] self.list@[j]).first) by {
                if j < l0.len() {
                    assert(self.list@[i] == l0[i] && self.list@[j] == l0[j]);
                } else {
                    assert(self.list@[i] == l0[i]);
                }
            }
        }
        Placed::Started(None)
    }

    /// Takes out the selected groups, in order; the others stay, in order.
    pub fn take(&mut self, sel: Selector) -> (r: Vec<Group>)
        requires
            distinct_keys(old(self).list@),
        ensures
            distinct_keys(final(self).list@),
            r@ == old(self).list@.filter(|g: Group| selected(sel, g)),
            final(self).list@ == old(self).list@.filter(|g: Group| !selected(sel, g)),
    {
        let ghost o = self.list@;
        let mut rest: Vec<Group> = Vec::new();
        std::mem::swap(&mut rest, &mut self.list);
        let mut out: Vec<Group> = Vec::new();
        let mut keep: Vec<Group> = Vec::new();
        let mut i: usize = 0;
        let n = rest.len();
        proof {
            reveal(Seq::filter);
            assert(o.take(0) =~= Seq::<Group>::empty());
            assert(o.skip(0) =~= o);
        }
        while rest.len() > 0
            invariant
                n == o.len(),
                i <= n,
                rest@ == o.skip(i as int),
                out@ == o.take(i as int).filter(|g: Group| selected(sel, g)),
                keep@ == o.take(i as int).filter(|g: Group| !selected(sel, g)),
                distinct_keys(o),
                distinct_keys(keep@),
                forall|a: int| 0 <= a < keep@.len() ==> exists|j: int| 0 <= j < i && #[trigger] keep@[a] == o[j],
            decreases rest@.len(),
        {
            let g = rest.remove(0);
            proof {
                assert(o.skip(i as int)[0] == o[i as int]);
                assert(o.skip(i + 1) =~= o.skip(i as int).drop_first());
                assert(o.take(i + 1).drop_last() =~= o.take(i as int));
                assert(o.take(i + 1).last() == o[i as int]);
            }
            proof {
                reveal(Seq::filter);
                let t = o.take(i + 1);
                assert(t.filter(|g: Group| selected(sel, g)) == if selected(sel, o[i as int]) {
                    o.take(i as int).filter(|g: Group| selected(sel, g)).push(o[i as int])
                } else {
                    o.take(i as int).filter(|g: Group| selected(sel, g))
                });
                assert(t.filter(|g: Group| !selected(sel, g)) == if !selected(sel, o[i as int]) {
                    o.take(i as int).filter(|g: Group| !selected(sel, g)).push(o[i as int])
                } else {
                    o.take(i as int).filter(|g: Group| !selected(sel, g))
                });
            }
            if is_selected(sel, &g) {
                out.push(g);
            } else {
                let ghost k0 = keep@;
                keep.push(g);
                proof {
                    assert forall|a: int, b: int|
                        0 <= a < b < keep@.len() implies !same_key(#[trigger] keep@[a], (#[trigger] keep@[b]).first) by {
                        if b < k0.len() {
                            assert(keep@[a] == k0[a] && keep@[b] == k0[b]);
                        } else {
                            assert(keep@[a] == k0[a]);
                            let j = choose|j: int| 0 <= j < i && k0[a] == o[j];
                            assert(keep@[b] == o[i as int]);
                        }
                    }
                    assert forall|a: int| 0 <= a < keep@.len() implies exists|j: int| 0 <= j < i + 1 && #[trigger] keep@[a] == o[j] by {
                        if a < k0.len() {
                            assert(keep@[a] == k0[a]);
                            let j = choose|j: int| 0 <= j < i && k0[a] == o[j];
                        } else {
                            assert(keep@[a] == o[i as int]);
                        }
                    }
                }
            }
            i = i + 1;
        }
        proof {
            assert(o.take(n as int) =~= o);
        }
        self.list = keep;
        out
    }

    /// Nanoseconds until the oldest group reaches the group duration at
    /// monotonic `now` (`default` when there is no group).
    pub fn wait(&self, now: u64, group_duration: u64, default: u64) -> (r: u64)
        ensures
            self.list@.len() == 0 ==> r == default,
            forall|k: int|
                0 <= k < self.list@.len() ==> r <= elapsed(
                    group_duration,
                    (elapsed(now, (#[trigger] self.list@[k]).first.stamp.mono)) as u64,
                ),
            self.list@.len() > 0 ==> exists|k: int|
                0 <= k < self.list@.len() && r == elapsed(
                    group_duration,
                    (elapsed(now, (#[trigger] self.list@[k]).first.stamp.mono)) as u64,
                ),
    {
        let mut best = default;
        let mut i: usize = 0;
        while i < self.list.len()
            invariant
                i <= self.list@.len(),
                i == 0 ==> best == default,
                forall|k: int|
                    0 <= k < i ==> best <= elapsed(
                        group_duration,
                        (elapsed(now, (#[trigger] self.list@[k]).first.stamp.mono)) as u64,
                    ),
                i > 0 ==> exists|k: int|
                    0 <= k < i && best == elapsed(
                        group_duration,
                        (elapsed(now, (#[trigger] self.list@[k]).first.stamp.mono)) as u64,
                    ),
            decreases self.list@.len() - i,
        {
            let start = self.list[i].first.stamp.mono;
            let age = if now >= start {
                now - start
            } else {
                0
            };
            let left = if group_duration >= age {
                group_duration - age
            } else {
                0
            };
            if i == 0 || left < best {
                best = left;
            }
            i = i + 1;
        }
        best
    }
}

} // verus!
