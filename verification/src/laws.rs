//! Properties that hold across the operations of the library.
use vstd::prelude::*;
use crate::accounting::{accounted, awaiting, grouped, unwritten};
use crate::worker::Worker;
use crate::control::{summarized, summary_due, summary_items, summaries_stats};
use crate::engine::{
    accepted_stats, count_events, counter_sum, filtered_stats, item_sequence, refused_stats, InstanceStats, Item,
    State,
};
use crate::fields::to_map;
use crate::files::{find_path, FileRoot, NodeView};
use crate::admission::emission_step;
use crate::model::{Counters, EmitResult, Refusal};
use crate::value::{escape_char, escape_text, is_control, ValueView};

verus! {

/// Every emission is counted exactly once: a filtered event, a refusal (of
/// any reason) and an accepted event each add one to the instance's counters.
pub proof fn law_one_count_per_emission(x: InstanceStats, reason: Refusal)
    requires
        counter_sum(x) < u64::MAX,
    ensures
        counter_sum(filtered_stats(x)) == counter_sum(x) + 1,
        counter_sum(refused_stats(x, reason)) == counter_sum(x) + 1,
        counter_sum(accepted_stats(x)) == counter_sum(x) + 1,
        refused_stats(x, reason).counters.refusal_count(reason) == x.counters.refusal_count(reason) + 1,
        forall|other: Refusal| other != reason ==> #[trigger] refused_stats(x, reason).counters.refusal_count(other)
            == x.counters.refusal_count(other),
{
}

/// A refusal always starts a new continuity epoch, so no group spans a refusal.
pub proof fn law_refusal_breaks_continuity(x: InstanceStats, reason: Refusal)
    ensures
        refused_stats(x, reason).epoch != x.epoch,
{
}

/// In an admission state, queued events and summaries carry strictly
/// increasing sequence numbers, none above the last one given; credits in use
/// never exceed the limits, and no more events are written than accepted.
pub proof fn law_admission_invariant(st: State)
    requires
        st.wf(),
    ensures
        forall|i: int, j: int|
            0 <= i < j < st.queue@.len() && item_sequence(st.queue@[i]) is Some && item_sequence(
                st.queue@[j],
            ) is Some ==> item_sequence(#[trigger] st.queue@[i])->0 < item_sequence(
                #[trigger] st.queue@[j],
            )->0,
        forall|i: int|
            0 <= i < st.queue@.len() && item_sequence(#[trigger] st.queue@[i]) is Some ==> item_sequence(
                st.queue@[i],
            )->0 <= st.sequence,
        st.reserved_events <= st.limits.max_events,
        st.reserved_bytes <= st.limits.max_bytes,
        st.context_bytes <= st.limits.max_context_bytes,
        forall|i: int|
            0 <= i < st.stats@.len() ==> (#[trigger] st.stats@[i]).counters.written
                <= st.stats@[i].counters.accepted,
{
}

/// A summary with a nonzero count and the given sequence number.
pub open spec fn summary_numbered(it: Item, sequence: int) -> bool {
    it matches Item::Summary { count, sequence: q, .. } && count > 0 && q == sequence
}

/// Overload summaries report every `Full` refusal once: a due instance's
/// summary carries its whole unreported count, after which none is left.
pub proof fn law_summary_reports_pending(s: Seq<InstanceStats>, now: crate::engine::Stamp, force: bool, interval: u64, sequence: int, i: int)
    requires
        0 <= i < s.len(),
        0 <= sequence,
        sequence + s.len() < u64::MAX,
    ensures
        summary_due(s[i], now.mono, force, interval) ==> summaries_stats(s, now.mono, force, interval)[i].overload_pending == 0
            && summaries_stats(s, now.mono, force, interval)[i].counters == s[i].counters,
        !summary_due(s[i], now.mono, force, interval) ==> summaries_stats(s, now.mono, force, interval)[i] == s[i],
        forall|j: int|
            0 <= j < summary_items(s, now, force, interval, sequence).len() ==> summary_numbered(
                #[trigger] summary_items(s, now, force, interval, sequence)[j],
                sequence + 1 + j,
            ),
{
    crate::control::lemma_due_ids_bound(s, now.mono, force, interval);
    let items = summary_items(s, now, force, interval, sequence);
    let ids = crate::control::due_ids(s, now.mono, force, interval);
    assert forall|j: int| 0 <= j < items.len() implies summary_numbered(#[trigger] items[j], sequence + 1 + j) by {
        assert(0 <= ids[j] < s.len());
        assert(summary_due(s[ids[j]], now.mono, force, interval));
    }
}

/// The fields of an event win over its context: a key that the event sets
/// has the event's value; another keeps the context's.
pub proof fn law_event_fields_win(
    context: Map<Seq<char>, ValueView>,
    event: Map<Seq<char>, ValueView>,
    k: Seq<char>,
)
    ensures
        event.contains_key(k) ==> context.union_prefer_right(event)[k] == event[k],
        !event.contains_key(k) && context.contains_key(k) ==> context.union_prefer_right(event)[k]
            == context[k],
        context.union_prefer_right(event).contains_key(k) <==> (context.contains_key(k)
            || event.contains_key(k)),
{
}

proof fn lemma_escape_char_no_break(c: char)
    ensures
        forall|i: int| 0 <= i < escape_char(c).len() ==> #[trigger] escape_char(c)[i] != '\n' && escape_char(c)[i] != '\r',
{
    if crate::value::is_control(c) || c == '\u{2028}' || c == '\u{2029}' {
        if c != '\n' && c != '\r' && c != '\t' && c != '\\' && c != '"' {
            let h = crate::text::hexadecimal(c as nat);
            lemma_hex_digits(c as nat);
            assert forall|i: int| 0 <= i < escape_char(c).len() implies #[trigger] escape_char(c)[i] != '\n'
                && escape_char(c)[i] != '\r' by {
                if 3 <= i < 3 + h.len() {
                    assert(escape_char(c)[i] == h[i - 3]);
                }
            }
        }
    }
}

proof fn lemma_hex_digits(n: nat)
    ensures
        forall|i: int| 0 <= i < crate::text::hexadecimal(n).len() ==> {
            let d = #[trigger] crate::text::hexadecimal(n)[i];
            ('0' <= d <= '9') || ('a' <= d <= 'f')
        },
    decreases n,
{
    if n >= 16 {
        lemma_hex_digits(n / 16);
        let h = crate::text::hexadecimal(n / 16);
        assert forall|i: int| 0 <= i < crate::text::hexadecimal(n).len() implies {
            let d = #[trigger] crate::text::hexadecimal(n)[i];
            ('0' <= d <= '9') || ('a' <= d <= 'f')
        } by {
            if i < h.len() {
                assert(crate::text::hexadecimal(n)[i] == h[i]);
            }
        }
    }
}

/// Escaped text never holds a line break, so a message cannot forge lines.
pub proof fn law_escaped_text_has_no_line_break(s: Seq<char>)
    ensures
        forall|i: int| 0 <= i < escape_text(s).len() ==> #[trigger] escape_text(s)[i] != '\n' && escape_text(s)[i] != '\r',
    decreases s.len(),
{
    if s.len() > 0 {
        law_escaped_text_has_no_line_break(s.drop_last());
        lemma_escape_char_no_break(s.last());
        let a = escape_text(s.drop_last());
        let b = escape_char(s.last());
        assert forall|i: int| 0 <= i < escape_text(s).len() implies #[trigger] escape_text(s)[i] != '\n' && escape_text(s)[i] != '\r' by {
            if i < a.len() {
                assert(escape_text(s)[i] == a[i]);
            } else {
                assert(escape_text(s)[i] == b[i - a.len()]);
            }
        }
    }
}

/// A character that escaped text never holds: a control character, or a
/// line or paragraph separator.
pub open spec fn unsafe_in_line(c: char) -> bool {
    is_control(c) || c == '\u{2028}' || c == '\u{2029}'
}

proof fn lemma_escape_char_safe(c: char)
    ensures
        forall|i: int| 0 <= i < escape_char(c).len() ==> !unsafe_in_line(#[trigger] escape_char(c)[i]),
{
    if is_control(c) || c == '\u{2028}' || c == '\u{2029}' {
        if c != '\n' && c != '\r' && c != '\t' && c != '\\' && c != '"' {
            let h = crate::text::hexadecimal(c as nat);
            lemma_hex_digits(c as nat);
            assert forall|i: int| 0 <= i < escape_char(c).len() implies !unsafe_in_line(#[trigger] escape_char(c)[i]) by {
                if 3 <= i < 3 + h.len() {
                    assert(escape_char(c)[i] == h[i - 3]);
                }
            }
        }
    }
}

/// Escaped text holds no control character and no line or paragraph
/// separator: every such character is written as an escape.
pub proof fn law_escaped_text_has_no_control_character(s: Seq<char>)
    ensures
        forall|i: int| 0 <= i < escape_text(s).len() ==> !unsafe_in_line(#[trigger] escape_text(s)[i]),
    decreases s.len(),
{
    if s.len() > 0 {
        law_escaped_text_has_no_control_character(s.drop_last());
        lemma_escape_char_safe(s.last());
        let a = escape_text(s.drop_last());
        let b = escape_char(s.last());
        assert forall|i: int| 0 <= i < escape_text(s).len() implies !unsafe_in_line(#[trigger] escape_text(s)[i]) by {
            if i < a.len() {
                assert(escape_text(s)[i] == a[i]);
            } else {
                assert(escape_text(s)[i] == b[i - a.len()]);
            }
        }
    }
}

/// A character that escaping copies as it is.
pub open spec fn kept_plain(c: char) -> bool {
    !(c == '\n' || c == '\r' || c == '\t' || c == '\\' || c == '"' || is_control(c) || c == '\u{2028}'
        || c == '\u{2029}')
}

proof fn lemma_digit_char_injective(a: nat, b: nat)
    requires
        a < 16,
        b < 16,
        crate::text::digit_char(a) == crate::text::digit_char(b),
    ensures
        a == b,
{
    let ca = crate::text::digit_char(a);
    let cb = crate::text::digit_char(b);
    assert(ca as int == (if a < 10 { a + 48 } else { a + 87 }));
    assert(cb as int == (if b < 10 { b + 48 } else { b + 87 }));
}

proof fn lemma_hex_len(n: nat)
    ensures
        crate::text::hexadecimal(n).len() >= 1,
        n >= 16 ==> crate::text::hexadecimal(n).len() >= 2,
    decreases n,
{
    if n >= 16 {
        lemma_hex_len(n / 16);
    }
}

proof fn lemma_hex_injective(n: nat, m: nat)
    requires
        crate::text::hexadecimal(n) == crate::text::hexadecimal(m),
    ensures
        n == m,
    decreases n,
{
    lemma_hex_len(n);
    lemma_hex_len(m);
    let h = crate::text::hexadecimal(n);
    if n < 16 && m < 16 {
        assert(h[0] == crate::text::digit_char(n));
        assert(crate::text::hexadecimal(m)[0] == crate::text::digit_char(m));
        lemma_digit_char_injective(n, m);
    } else if n >= 16 && m >= 16 {
        let hn = crate::text::hexadecimal(n / 16);
        let hm = crate::text::hexadecimal(m / 16);
        assert(h.last() == crate::text::digit_char(n % 16));
        assert(crate::text::hexadecimal(m).last() == crate::text::digit_char(m % 16));
        lemma_digit_char_injective(n % 16, m % 16);
        assert(hn =~= h.drop_last());
        assert(hm =~= crate::text::hexadecimal(m).drop_last());
        lemma_hex_injective(n / 16, m / 16);
    }
}

/// Escaped characters form a prefix code: the escape of one character is
/// recognized at the start of a text, whatever follows it.
proof fn lemma_escape_char_prefix(a: char, b: char, x: Seq<char>, y: Seq<char>)
    requires
        escape_char(a) + x == escape_char(b) + y,
    ensures
        a == b,
        x == y,
{
    let ea = escape_char(a);
    let eb = escape_char(b);
    let w = ea + x;
    assert(w[0] == ea[0] && w[0] == eb[0]);
    if kept_plain(a) || kept_plain(b) {
        assert(a == b);
    } else {
        assert(w[1] == ea[1] && w[1] == eb[1]);
        if ea[1] != 'u' || eb[1] != 'u' {
            assert(a == b);
        } else {
            let ha = crate::text::hexadecimal(a as nat);
            let hb = crate::text::hexadecimal(b as nat);
            lemma_hex_digits(a as nat);
            lemma_hex_digits(b as nat);
            assert(ea =~= seq!['\\', 'u', '{'] + ha + seq!['}']);
            assert(eb =~= seq!['\\', 'u', '{'] + hb + seq!['}']);
            let la: int = ha.len() as int;
            let lb: int = hb.len() as int;
            if la < lb {
                assert(w[3 + la] == ea[3 + la]);
                assert(w[3 + la] == eb[3 + la]);
                assert(eb[3 + la] == hb[la]);
                assert(false);
            } else if lb < la {
                assert(w[3 + lb] == eb[3 + lb]);
                assert(w[3 + lb] == ea[3 + lb]);
                assert(ea[3 + lb] == ha[lb]);
                assert(false);
            }
            assert forall|i: int| 0 <= i < ha.len() implies ha[i] == hb[i] by {
                assert(w[3 + i] == ea[3 + i] && w[3 + i] == eb[3 + i]);
            }
            assert(ha =~= hb);
            lemma_hex_injective(a as nat, b as nat);
        }
    }
    assert(ea == eb);
    assert(x =~= w.subrange(ea.len() as int, w.len() as int));
    assert(y =~= (eb + y).subrange(eb.len() as int, w.len() as int));
}

/// Escaping a text is escaping its first character, then the rest.
proof fn lemma_escape_text_front(s: Seq<char>)
    requires
        s.len() > 0,
    ensures
        escape_text(s) == escape_char(s[0]) + escape_text(s.drop_first()),
    decreases s.len(),
{
    if s.len() == 1 {
        assert(s.drop_last() =~= Seq::<char>::empty());
        assert(s.drop_first() =~= Seq::<char>::empty());
        assert(escape_text(s) =~= escape_char(s[0]) + escape_text(s.drop_first()));
    } else {
        lemma_escape_text_front(s.drop_last());
        assert(s.drop_last().drop_first() =~= s.drop_first().drop_last());
        assert(s.drop_first().last() == s.last());
        assert(escape_text(s) =~= escape_char(s[0]) + escape_text(s.drop_first()));
    }
}

/// Escaping is injective: two texts with the same escaped form are the same
/// text, so escaped text reads back unambiguously.
pub proof fn law_escape_is_injective(s: Seq<char>, t: Seq<char>)
    requires
        escape_text(s) == escape_text(t),
    ensures
        s == t,
    decreases s.len(),
{
    if s.len() == 0 || t.len() == 0 {
        if s.len() > 0 {
            lemma_escape_text_front(s);
            assert(escape_char(s[0]).len() > 0);
        }
        if t.len() > 0 {
            lemma_escape_text_front(t);
            assert(escape_char(t[0]).len() > 0);
        }
        assert(s =~= t);
    } else {
        lemma_escape_text_front(s);
        lemma_escape_text_front(t);
        lemma_escape_char_prefix(s[0], t[0], escape_text(s.drop_first()), escape_text(t.drop_first()));
        law_escape_is_injective(s.drop_first(), t.drop_first());
        assert(s =~= seq![s[0]] + s.drop_first());
        assert(t =~= seq![t[0]] + t.drop_first());
    }
}

/// Over successive emissions, sequence numbers never go back.
proof fn lemma_sequence_monotone(sts: Seq<State>, rs: Seq<EmitResult>, i: int, j: int)
    requires
        sts.len() == rs.len() + 1,
        forall|k: int| 0 <= k < rs.len() ==> emission_step(#[trigger] sts[k], sts[k + 1], rs[k]),
        0 <= i <= j < sts.len(),
    ensures
        sts[i].sequence <= sts[j].sequence,
    decreases j - i,
{
    if i < j {
        lemma_sequence_monotone(sts, rs, i, j - 1);
        assert(emission_step(sts[j - 1], sts[j], rs[j - 1]));
    }
}

/// Accepted events are numbered in strictly increasing order across
/// emissions; a filtered or refused emission takes no number, so the next
/// accepted one gets the number after the last accepted.
pub proof fn law_accepted_sequences_increase(sts: Seq<State>, rs: Seq<EmitResult>)
    requires
        sts.len() == rs.len() + 1,
        forall|k: int| 0 <= k < rs.len() ==> emission_step(#[trigger] sts[k], sts[k + 1], rs[k]),
    ensures
        forall|i: int, j: int|
            0 <= i < j < rs.len() && #[trigger] rs[i] is Accepted && #[trigger] rs[j] is Accepted ==> rs[i]->Accepted_0
                < rs[j]->Accepted_0,
        forall|k: int| 0 <= k < rs.len() && !(#[trigger] rs[k] is Accepted) ==> sts[k + 1].sequence == sts[k].sequence,
{
    assert forall|i: int, j: int|
        0 <= i < j < rs.len() && #[trigger] rs[i] is Accepted && #[trigger] rs[j] is Accepted implies rs[i]->Accepted_0
            < rs[j]->Accepted_0 by {
        assert(emission_step(sts[i], sts[i + 1], rs[i]));
        assert(emission_step(sts[j], sts[j + 1], rs[j]));
        lemma_sequence_monotone(sts, rs, i + 1, j);
    }
    assert forall|k: int| 0 <= k < rs.len() && !(#[trigger] rs[k] is Accepted) implies sts[k + 1].sequence
        == sts[k].sequence by {
        assert(emission_step(sts[k], sts[k + 1], rs[k]));
    }
}

/// A root as storage initialization leaves it (both directories created and
/// the marker written) is recognized as a storage root.
pub proof fn law_initialized_root_is_recognized()
    ensures
        crate::storage::spec_recognized(true, true, Some(crate::storage::MARKER@)),
{
}

/// Every reserved slot is held by a queued event, by a group of the writer
/// (one slot per group), or by an emission in progress.
pub open spec fn slots_accounted(st: State, w: Worker, in_progress: int) -> bool {
    st.reserved_events == count_events(st.queue@) + w.groups.list@.len() + in_progress
}

/// When the writer fails, the slots of the queued events and of its groups
/// all go back: only the emissions in progress keep theirs, so with none, no
/// slot and no byte stays reserved.
pub proof fn law_writer_failure_gives_slots_back(st: State, w: Worker, in_progress: int)
    requires
        in_progress >= 0,
        slots_accounted(st, w, in_progress),
    ensures
        crate::control::writer_failure(st, w.groups.list@.len() as int) == in_progress,
{
}

/// Entries gathered parents first (each entry's parent at an earlier
/// position) are removed children first: in the removal order every entry
/// comes before its parent.
pub proof fn law_children_removed_before_parents(n: int, parent: spec_fn(int) -> int)
    requires
        forall|i: int| 0 < i < n ==> 0 <= #[trigger] parent(i) < i,
    ensures
        forall|i: int| 0 < i < n ==> (n - 1 - i) < (n - 1 - #[trigger] parent(i)),
{
}

/// A path just remembered leads to its node: remembering it again gives the
/// same identifier.
pub proof fn law_remembered_path_leads_to_node(kept: Seq<NodeView>, id: Seq<char>, relative: Seq<char>, kind: crate::protocol::Kind)
    requires
        forall|j: int| 0 <= j < kept.len() ==> !((#[trigger] kept[j]).indexed && kept[j].relative == relative),
    ensures
        ({
            let after = kept.push(NodeView { id, relative, kind, indexed: true });
            find_path(after, relative) == Some((after.len() - 1) as int) && after[after.len() - 1].id == id
        }),
{
    let after = kept.push(NodeView { id, relative, kind, indexed: true });
    assert forall|j: int| 0 <= j < after.len() - 1 implies !((|x: NodeView| x.indexed && x.relative == relative)(
        #[trigger] after[j],
    )) by {
        assert(after[j] == kept[j]);
    }
    crate::files::lemma_first_where_at(
        after,
        |x: NodeView| x.indexed && x.relative == relative,
        after.len() - 1,
    );
}

/// The node cache of a root is bounded and never forgets the root: it holds
/// between one and [`crate::protocol::NODES`] nodes, the root first, and the
/// root is never in line for eviction. Every operation on a root keeps this.
pub proof fn law_node_cache_bounded_and_keeps_root<D>(root: FileRoot<D>)
    requires
        root.wf(),
    ensures
        1 <= root.nodes().len() <= crate::protocol::NODES,
        root.nodes()[0].id == root.node_id_view(),
        !root.eviction_order().contains(root.node_id_view()),
{
    if root.eviction_order().contains(root.node_id_view()) {
        let i = choose|i: int| 0 <= i < root.eviction_order().len() && root.eviction_order()[i] == root.node_id_view();
        assert(crate::files::slot_ids(root.nodes())[i + 1] == crate::files::slot_ids(root.nodes())[0]);
    }
}

} // verus!

verus! {

use crate::storage::{
    active_suffix, log_suffix, recovered_suffix, run_part, spec_parse_log_name, split_state,
    FileState, LogNameView,
};
use crate::text::{
    all_digits, decimal, digit_char, digits_value, ends_with, find_last, find_last_from, is_digit,
    occurs_at, parse_signed, parse_unsigned, rsplit_once, signed_decimal,
};

/// The last occurrence of `p` is at `k` when it occurs there and nowhere after.
proof fn lemma_find_last_at(s: Seq<char>, p: Seq<char>, k: int, i: int)
    requires
        occurs_at(s, p, k),
        k <= i,
        forall|j: int| k < j <= i ==> !occurs_at(s, p, j),
    ensures
        find_last_from(s, p, i) == Some(k),
    decreases i - k,
{
    if i > k {
        lemma_find_last_at(s, p, k, i - 1);
    }
}

/// Splitting `x + p + y` at the last `p` gives `x` and `y` when `y` does not
/// hold the last character of `p`.
pub proof fn lemma_rsplit_concat(x: Seq<char>, p: Seq<char>, y: Seq<char>)
    requires
        p.len() > 0,
        forall|i: int| 0 <= i < y.len() ==> y[i] != p[p.len() - 1],
    ensures
        rsplit_once(x + p + y, p) == Some((x, y)),
{
    let s = x + p + y;
    let k = x.len() as int;
    assert(s.subrange(k, k + p.len()) =~= p);
    assert forall|j: int| k < j <= s.len() - p.len() implies !occurs_at(s, p, j) by {
        let last = j + p.len() - 1;
        assert(last >= k + p.len());
        assert(s[last] == y[last - k - p.len()]);
        if occurs_at(s, p, j) {
            assert(s.subrange(j, j + p.len())[p.len() - 1] == s[last]);
        }
    }
    lemma_find_last_at(s, p, k, s.len() - p.len());
    assert(s.take(k) =~= x);
    assert(s.skip(k + p.len()) =~= y);
}

/// Decimal writing is digits only and reads back as the number.
pub proof fn lemma_decimal(n: nat)
    ensures
        decimal(n).len() > 0,
        all_digits(decimal(n)),
        digits_value(decimal(n)) == n,
    decreases n,
{
    lemma_digit_char_value((n % 10) as nat);
    if n >= 10 {
        lemma_decimal(n / 10);
        let d = decimal(n / 10);
        assert(decimal(n) == d.push(digit_char(n % 10)));
        assert(decimal(n).drop_last() =~= d);
        assert(decimal(n).last() == digit_char((n % 10) as nat));
        assert(digits_value(decimal(n)) == digits_value(d) * 10 + crate::text::digit_value(
            digit_char((n % 10) as nat),
        ));
        assert(n == (n / 10) * 10 + n % 10);
        assert forall|i: int| 0 <= i < decimal(n).len() implies is_digit(#[trigger] decimal(n)[i]) by {
            if i < d.len() {
                assert(decimal(n)[i] == d[i]);
            }
        }
    } else {
        assert(decimal(n).drop_last() =~= Seq::<char>::empty());
        assert(digits_value(Seq::<char>::empty()) == 0);
        assert(decimal(n).last() == digit_char(n));
        assert(n % 10 == n);
    }
}

proof fn lemma_digit_char_value(d: nat)
    requires
        d < 10,
    ensures
        crate::text::digit_value(digit_char(d)) == d,
        is_digit(digit_char(d)),
{
    assert(((d + 48) as char) as u32 == d + 48);
}

/// Signed decimal writing reads back as the number and holds no letter.
proof fn lemma_signed_decimal(n: int)
    ensures
        parse_signed(signed_decimal(n)) == Some(n),
        forall|i: int| 0 <= i < signed_decimal(n).len() ==> #[trigger] signed_decimal(n)[i] == '-' || is_digit(
            signed_decimal(n)[i],
        ),
        signed_decimal(n).len() > 0,
{
    if n < 0 {
        lemma_decimal((-n) as nat);
        let d = decimal((-n) as nat);
        assert(signed_decimal(n).drop_first() =~= d);
        assert forall|i: int| 0 <= i < signed_decimal(n).len() implies #[trigger] signed_decimal(n)[i] == '-'
            || is_digit(signed_decimal(n)[i]) by {
            if i > 0 {
                assert(signed_decimal(n)[i] == d[i - 1]);
            }
        }
    } else {
        lemma_decimal(n as nat);
        assert(is_digit(decimal(n as nat)[0]));
    }
}

/// A segment name of the storage contract: destination, local hour, run id
/// (stamp, process and counter), UTC hour start, segment number and suffix.
pub open spec fn segment_name(
    destination: Seq<char>,
    hh: Seq<char>,
    stamp: Seq<char>,
    pid: Seq<char>,
    counter: Seq<char>,
    hour_start: int,
    segment: nat,
    state: FileState,
) -> Seq<char> {
    destination + seq!['-'] + hh + seq!['-'] + stamp + seq!['-'] + pid + seq!['-'] + counter + seq!['-', 'h']
        + signed_decimal(hour_start) + seq!['-', 's'] + decimal(segment) + match state {
        FileState::Active => active_suffix(),
        FileState::Closed => log_suffix(),
        FileState::Recovered => recovered_suffix(),
    }
}

/// Whatever the writer names a segment, the reader recognizes it: its run,
/// its hour and its state are read back from the name.
pub proof fn law_segment_names_read_back(
    destination: Seq<char>,
    hh: Seq<char>,
    stamp: Seq<char>,
    pid: Seq<char>,
    counter: Seq<char>,
    hour_start: int,
    segment: nat,
    state: FileState,
)
    requires
        crate::names::spec_valid_name(destination),
        crate::storage::hour_text(hh),
        crate::storage::number_text(stamp),
        crate::storage::number_text(pid),
        crate::storage::number_text(counter),
        i64::MIN <= hour_start <= i64::MAX - 3600,
        1 <= segment <= u64::MAX,
    ensures
        spec_parse_log_name(segment_name(destination, hh, stamp, pid, counter, hour_start, segment, state))
            == Some(
            LogNameView {
                run_id: stamp + seq!['-'] + pid + seq!['-'] + counter,
                hour_start,
                state,
            },
        ),
{
    let dash = seq!['-'];
    let hour = signed_decimal(hour_start);
    let seg = decimal(segment);
    let b3 = destination + dash + hh;
    let b2 = b3 + dash + stamp + dash + pid + dash + counter;
    let b1 = b2 + seq!['-', 'h'] + hour;
    let base = b1 + seq!['-', 's'] + seg;
    let suffix = match state {
        FileState::Active => active_suffix(),
        FileState::Closed => log_suffix(),
        FileState::Recovered => recovered_suffix(),
    };
    let name = segment_name(destination, hh, stamp, pid, counter, hour_start, segment, state);
    assert(name =~= base + suffix);
    lemma_decimal(segment);
    lemma_signed_decimal(hour_start);
    // The state suffix.
    let last_digit = base[base.len() - 1];
    assert(last_digit == seg[seg.len() - 1]);
    assert(is_digit(last_digit));
    match state {
        FileState::Active => {
            assert(ends_with(name, active_suffix())) by {
                assert(name.skip(name.len() - 11) =~= active_suffix());
            }
            assert(name.take(name.len() - 11) =~= base);
        },
        FileState::Recovered => {
            assert(!ends_with(name, active_suffix())) by {
                assert(name.skip(name.len() - 11)[0] == 'c');
            }
            assert(ends_with(name, recovered_suffix())) by {
                assert(name.skip(name.len() - 14) =~= recovered_suffix());
            }
            assert(name.take(name.len() - 14) =~= base);
        },
        FileState::Closed => {
            assert(!ends_with(name, active_suffix())) by {
                assert(name.skip(name.len() - 11)[6] == name[name.len() - 5]);
                assert(name[name.len() - 5] == last_digit);
            }
            assert(!ends_with(name, recovered_suffix())) by {
                if name.len() >= 14 {
                    assert(name.skip(name.len() - 14)[9] == name[name.len() - 5]);
                    assert(name[name.len() - 5] == last_digit);
                }
            }
            assert(ends_with(name, log_suffix())) by {
                assert(name.skip(name.len() - 4) =~= log_suffix());
            }
            assert(name.take(name.len() - 4) =~= base);
        },
    }
    assert(split_state(name) == Some((base, state)));
    // The segment number.
    assert forall|i: int| 0 <= i < seg.len() implies seg[i] != seq!['-', 's'][1] by {
        assert(is_digit(seg[i]));
    }
    lemma_rsplit_concat(b1, seq!['-', 's'], seg);
    assert(seg[0] != '+');
    assert(parse_unsigned(seg) == Some(segment));
    // The hour.
    assert forall|i: int| 0 <= i < hour.len() implies hour[i] != seq!['-', 'h'][1] by {
        assert(hour[i] == '-' || is_digit(hour[i]));
    }
    lemma_rsplit_concat(b2, seq!['-', 'h'], hour);
    // The run.
    assert forall|i: int| 0 <= i < counter.len() implies counter[i] != dash[0] by {
        assert(is_digit(counter[i]));
    }
    assert(b2 =~= (b3 + dash + stamp + dash + pid) + dash + counter);
    lemma_rsplit_concat(b3 + dash + stamp + dash + pid, dash, counter);
    assert forall|i: int| 0 <= i < pid.len() implies pid[i] != dash[0] by {
        assert(is_digit(pid[i]));
    }
    assert(b3 + dash + stamp + dash + pid =~= (b3 + dash + stamp) + dash + pid);
    lemma_rsplit_concat(b3 + dash + stamp, dash, pid);
    assert forall|i: int| 0 <= i < stamp.len() implies stamp[i] != dash[0] by {
        assert(is_digit(stamp[i]));
    }
    lemma_rsplit_concat(b3, dash, stamp);
    assert forall|i: int| 0 <= i < hh.len() implies hh[i] != dash[0] by {
        if hh[i] == '-' {
            assert(hh.len() == 2);
        }
    }
    lemma_rsplit_concat(destination, dash, hh);
    assert(run_part(b2) == Some(stamp + dash + pid + dash + counter));
}


/// Accepted events not yet written cannot be fewer than none, and when there
/// are none, each instance wrote every event it accepted.
proof fn lemma_unwritten_zero(s: Seq<InstanceStats>)
    requires
        forall|i: int| 0 <= i < s.len() ==> (#[trigger] s[i]).counters.written <= s[i].counters.accepted,
    ensures
        unwritten(s) >= 0,
        unwritten(s) == 0 ==> forall|i: int| 0 <= i < s.len() ==> (#[trigger] s[i]).counters.accepted
            == s[i].counters.written,
    decreases s.len(),
{
    if s.len() > 0 {
        let t = s.drop_last();
        assert forall|i: int| 0 <= i < t.len() implies (#[trigger] t[i]).counters.written <= t[i].counters.accepted by {
            assert(t[i] == s[i]);
        }
        lemma_unwritten_zero(t);
        assert(s.last() == s[s.len() - 1]);
        if unwritten(s) == 0 {
            assert forall|i: int| 0 <= i < s.len() implies (#[trigger] s[i]).counters.accepted == s[i].counters.written by {
                if i < s.len() - 1 {
                    assert(t[i] == s[i]);
                }
            }
        }
    }
}

/// Every accepted event is written once the writer has drained: with nothing
/// queued, no group open and nothing awaiting confirmation, each instance has
/// written exactly the events it accepted.
pub proof fn law_drained_writer_wrote_every_accepted_event(st: State, w: Worker)
    requires
        st.wf(),
        accounted(st, w),
        count_events(st.queue@) == 0,
        w.groups.list@.len() == 0,
        w.unconfirmed@.len() == 0,
    ensures
        forall|i: int| 0 <= i < st.stats@.len() ==> (#[trigger] st.stats@[i]).counters.accepted
            == st.stats@[i].counters.written,
{
    assert(grouped(w.groups.list@) == 0);
    assert(awaiting(w.unconfirmed@) == 0);
    law_admission_invariant(st);
    lemma_unwritten_zero(st.stats@);
}

} // verus!

verus! {

use crate::admission::{grant_view, GrantView};
use crate::model::Source;
use crate::fields::EntryView;
use crate::grouping::mergeable;
use crate::management::file_state_view;
use crate::files::range_view;
use crate::protocol::{offset_view, SNAPSHOT};
use crate::server::{route_view, Method, RouteView};
use crate::time::LocalTime;
use crate::value::Level;
use crate::writer::Group;

/// Grouping never mixes levels: an event joins an open group only if it has
/// the level of the group's first event, so every occurrence counted on a
/// written line has the level printed on that line.
pub proof fn law_groups_keep_one_level(g: Group, e: crate::engine::Event, local: LocalTime, path: Seq<char>, group_duration: u64)
    requires
        mergeable(g, e, local, path, group_duration),
    ensures
        e.level == g.first.level,
        e.message@ == g.first.message@,
        e.source.module@ == g.first.source.module@ && e.source.file@ == g.first.source.file@ && e.source.line
            == g.first.source.line,
        e.epoch == g.first.epoch,
        g.path@ == path,
{
}

/// Severity ranks strictly increase from `Trace` to `Error`, so a level is
/// at least as severe as another exactly when it comes no earlier in
/// Trace < Debug < Info < Warn < Error.
pub proof fn law_level_ranks_increase()
    ensures
        Level::Trace.spec_rank() < Level::Debug.spec_rank(),
        Level::Debug.spec_rank() < Level::Info.spec_rank(),
        Level::Info.spec_rank() < Level::Warn.spec_rank(),
        Level::Warn.spec_rank() < Level::Error.spec_rank(),
{
}

/// An event below its instance's threshold is filtered, whatever else holds
/// of the state and the event: an `Info` event of a `Warn` instance, a
/// `Debug` event of an `Info` instance, and so on down the order.
pub proof fn law_below_threshold_is_filtered(
    st: crate::engine::State,
    id: int,
    level: Level,
    source: Source,
    explicit: Option<Seq<char>>,
    fields: Seq<EntryView>,
    effective: Seq<EntryView>,
)
    requires
        0 <= id < st.instances@.len(),
        (level == Level::Trace && st.instances@[id].level != Level::Trace) || (level == Level::Debug && (
        st.instances@[id].level == Level::Info || st.instances@[id].level == Level::Warn
            || st.instances@[id].level == Level::Error)) || (level == Level::Info && (st.instances@[id].level
            == Level::Warn || st.instances@[id].level == Level::Error)) || (level == Level::Warn
            && st.instances@[id].level == Level::Error),
    ensures
        grant_view(st, id, level, source, explicit, fields, effective) == GrantView::Filtered,
{
}

/// A closed or recovered segment whose run's lease exists and whose hour has
/// ended at `now`, in a private storage root and an hourly path, may be
/// finalized: it is eligible with no reason given. Only an active segment is
/// refused as still being written.
pub proof fn law_ended_finalized_segments_are_eligible(
    layout: bool,
    name: Seq<char>,
    lease_present: bool,
    now: i64,
)
    requires
        layout,
        lease_present,
        spec_parse_log_name(name) matches Some(log) && log.state != FileState::Active && log.hour_start + 3600
            <= now,
    ensures
        file_state_view(Ok(()), Ok(()), layout, Some(name), lease_present, now).1,
        file_state_view(Ok(()), Ok(()), layout, Some(name), lease_present, now).2 == Seq::<char>::empty(),
{
    reveal_strlit("");
}

/// The "active file" refusal is given only to a segment whose name reads as
/// active.
pub proof fn law_only_active_segments_are_protected(
    managed: Result<(), Seq<char>>,
    chain: Result<(), Seq<char>>,
    layout: bool,
    name: Option<Seq<char>>,
    lease_present: bool,
    now: i64,
)
    requires
        managed is Ok,
        chain is Ok,
        layout,
        name matches Some(n) && spec_parse_log_name(n) matches Some(log) && log.state != FileState::Active,
    ensures
        file_state_view(managed, chain, layout, name, lease_present, now).2 != "Fichier actif : \u{e9}criture non finalis\u{e9}e."@,
{
    reveal_strlit("Fichier actif : \u{e9}criture non finalis\u{e9}e.");
    reveal_strlit("");
    reveal_strlit("M\u{e9}tadonn\u{e9}es du run indisponibles.");
    reveal_strlit("L\u{2019}intervalle horaire n\u{2019}est pas termin\u{e9}.");
    let active = "Fichier actif : \u{e9}criture non finalis\u{e9}e."@;
    assert(active[0] == 'F');
    assert("M\u{e9}tadonn\u{e9}es du run indisponibles."@[0] == 'M');
    assert("L\u{2019}intervalle horaire n\u{2019}est pas termin\u{e9}."@[0] == 'L');
    assert(active.len() > 0 && ""@.len() == 0);
}

/// The limit of a read: the requested one, at most [`SNAPSHOT`].
pub open spec fn read_limit(limit: Option<usize>) -> int {
    match limit {
        Some(l) => if l < SNAPSHOT { l as int } else { SNAPSHOT as int },
        None => SNAPSHOT as int,
    }
}

/// A read without `after` is a tail: the range ends at `before`, or at the
/// end of the file without it, and holds the last `min(limit, end)` bytes
/// before that end. A read with `after` starts there and holds at most the
/// limit, up to the end of the file.
pub proof fn law_content_ranges_end_at_the_requested_point(
    len: u64,
    generation: Seq<char>,
    requested: Option<Seq<char>>,
    before: Option<Seq<char>>,
    after: Option<Seq<char>>,
    limit: Option<usize>,
)
    ensures
        range_view(len, generation, requested, before, after, limit) matches Ok((start, end)) ==> {
            &&& start <= end <= len
            &&& match after {
                None => {
                    &&& end == match before {
                        Some(b) => offset_view(b)->Ok_0 as int,
                        None => len as int,
                    }
                    &&& end - start == if read_limit(limit) < end { read_limit(limit) } else { end as int }
                },
                Some(a) => {
                    &&& start == offset_view(a)->Ok_0
                    &&& end - start == if read_limit(limit) < len - start { read_limit(limit) } else { len - start }
                },
            }
        },
{
}

/// Session routes: `GET /api/v1/session` and only it answers the session's
/// information, and `DELETE /api/v1/session` and only it closes the session.
pub proof fn law_session_routes(method: Method, path: Seq<char>)
    ensures
        (route_view(method, path) == RouteView::SessionInfo) <==> (method == Method::Get && path == "/api/v1/session"@),
        (route_view(method, path) == RouteView::CloseSession) <==> (method == Method::Delete && path
            == "/api/v1/session"@),
{
    reveal_strlit("/api/v1/session");
    reveal_strlit("/api/v1/live");
    reveal_strlit("/api/v1/health");
}


/// An event at or above its instance's threshold is not filtered.
pub proof fn law_at_threshold_is_not_filtered(
    st: crate::engine::State,
    id: int,
    level: Level,
    source: Source,
    explicit: Option<Seq<char>>,
    fields: Seq<EntryView>,
    effective: Seq<EntryView>,
)
    requires
        0 <= id < st.instances@.len(),
        level.spec_rank() >= st.instances@[id].level.spec_rank(),
    ensures
        grant_view(st, id, level, source, explicit, fields, effective) != GrantView::Filtered,
{
}

/// An active segment is never eligible, and is refused as still being
/// written, whatever its hour.
pub proof fn law_active_segments_are_protected(name: Seq<char>, now: i64)
    requires
        spec_parse_log_name(name) matches Some(log) && log.state == FileState::Active,
    ensures
        !file_state_view(Ok(()), Ok(()), true, Some(name), true, now).1,
        file_state_view(Ok(()), Ok(()), true, Some(name), true, now).2 == "Fichier actif : \u{e9}criture non finalis\u{e9}e."@,
{
}

/// A segment whose hour has not ended at `now`, or whose run has no lease
/// file, is not eligible.
pub proof fn law_unended_or_unleased_segments_wait(name: Seq<char>, lease_present: bool, now: i64)
    requires
        spec_parse_log_name(name) matches Some(log) && (!lease_present || now < log.hour_start + 3600),
    ensures
        !file_state_view(Ok(()), Ok(()), true, Some(name), lease_present, now).1,
{
}

/// Outside a private storage root, a private directory chain or the hourly
/// layout, nothing is eligible and the state is `legacy`.
pub proof fn law_unmanaged_files_are_legacy(
    managed: Result<(), Seq<char>>,
    chain: Result<(), Seq<char>>,
    layout: bool,
    name: Option<Seq<char>>,
    lease_present: bool,
    now: i64,
)
    requires
        managed is Err || chain is Err || !layout,
    ensures
        !file_state_view(managed, chain, layout, name, lease_present, now).1,
        file_state_view(managed, chain, layout, name, lease_present, now).0 == "legacy"@,
{
}

} // verus!
