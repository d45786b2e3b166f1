//! Field maps: keys kept in ascending text order, inserting a present key
//! replaces its value.
use vstd::prelude::*;
use crate::text::{
    compare_text, lemma_text_lt_asymmetric, lemma_text_lt_irreflexive,
    lemma_text_lt_transitive, text_lt, to_chars, TextOrder,
};
use crate::value::{Value, ValueView};

verus! {

/// Abstract entries: key and value.
pub type EntryView = (Seq<char>, ValueView);

/// Keys strictly ascending (hence distinct).
pub open spec fn sorted_keys(s: Seq<EntryView>) -> bool {
    forall|i: int, j: int| 0 <= i < j < s.len() ==> text_lt(#[trigger] s[i].0, #[trigger] s[j].0)
}

/// The map that inserting the entries in order produces (the last value of a key wins).
pub open spec fn to_map(s: Seq<EntryView>) -> Map<Seq<char>, ValueView>
    decreases s.len(),
{
    if s.len() == 0 {
        Map::empty()
    } else {
        to_map(s.drop_last()).insert(s.last().0, s.last().1)
    }
}

pub open spec fn entry_view(e: (String, Value)) -> EntryView {
    (e.0@, e.1.view())
}

/// Two field maps that log the same: same keys in order, values equal as
/// typed values (floats by bits).
pub open spec fn same_entries(a: Seq<EntryView>, b: Seq<EntryView>) -> bool {
    &&& a.len() == b.len()
    &&& forall|i: int| #![trigger a[i]] 0 <= i < a.len() ==> a[i].0 == b[i].0 && a[i].1.same(b[i].1)
}

proof fn lemma_to_map_middle(a: Seq<EntryView>, x: EntryView, b: Seq<EntryView>)
    requires
        forall|i: int| 0 <= i < b.len() ==> b[i].0 != x.0,
    ensures
        to_map(a + seq![x] + b) == to_map(a + b).insert(x.0, x.1),
    decreases b.len(),
{
    if b.len() == 0 {
        assert(a + seq![x] + b =~= a.push(x));
        assert((a + seq![x] + b).drop_last() =~= a);
        assert(a + b =~= a);
    } else {
        let c = b.drop_last();
        lemma_to_map_middle(a, x, c);
        assert((a + seq![x] + b).drop_last() =~= a + seq![x] + c);
        assert((a + b).drop_last() =~= a + c);
        assert((a + seq![x] + b).last() == b.last());
        assert((a + b).last() == b.last());
        assert(to_map(a + seq![x] + b) =~= to_map(a + b).insert(x.0, x.1));
    }
}

proof fn lemma_to_map_contains(s: Seq<EntryView>, k: Seq<char>)
    requires
        sorted_keys(s),
    ensures
        to_map(s).contains_key(k) <==> exists|i: int| 0 <= i < s.len() && s[i].0 == k,
        forall|i: int| 0 <= i < s.len() && s[i].0 == k ==> to_map(s)[k] == s[i].1,
    decreases s.len(),
{
    if s.len() > 0 {
        let t = s.drop_last();
        assert(sorted_keys(t));
        lemma_to_map_contains(t, k);
        if exists|i: int| 0 <= i < t.len() && t[i].0 == k {
            let i = choose|i: int| 0 <= i < t.len() && t[i].0 == k;
            assert(s[i] == t[i]);
        }
        if s.last().0 == k {
            assert(s[s.len() - 1].0 == k);
        } else if exists|i: int| 0 <= i < s.len() && s[i].0 == k {
            let i = choose|i: int| 0 <= i < s.len() && s[i].0 == k;
            assert(i < s.len() - 1);
            assert(t[i] == s[i]);
        }
        assert forall|i: int| 0 <= i < s.len() && s[i].0 == k implies to_map(s)[k] == s[i].1 by {
            if i < s.len() - 1 {
                assert(text_lt(s[i].0, s[s.len() - 1].0));
                lemma_text_lt_irreflexive(k);
                assert(t[i] == s[i]);
            }
        }
    }
}

/// The entries, in ascending key order, of a map (the unique sorted sequence
/// that denotes it, when there is one).
pub open spec fn entries_of(m: Map<Seq<char>, ValueView>) -> Seq<EntryView> {
    choose|s: Seq<EntryView>| sorted_keys(s) && to_map(s) == m
}

proof fn lemma_to_map_drop_last(s: Seq<EntryView>)
    requires
        sorted_keys(s),
        s.len() > 0,
    ensures
        to_map(s.drop_last()) == to_map(s).remove(s.last().0),
        !to_map(s.drop_last()).contains_key(s.last().0),
{
    let t = s.drop_last();
    assert(sorted_keys(t));
    lemma_to_map_contains(t, s.last().0);
    if to_map(t).contains_key(s.last().0) {
        let i = choose|i: int| 0 <= i < t.len() && t[i].0 == s.last().0;
        assert(text_lt(s[i].0, s[s.len() - 1].0));
        lemma_text_lt_irreflexive(s.last().0);
    }
    assert(to_map(t) =~= to_map(s).remove(s.last().0));
}

/// Two sorted entry sequences that denote the same map are equal.
pub proof fn lemma_sorted_unique(a: Seq<EntryView>, b: Seq<EntryView>)
    requires
        sorted_keys(a),
        sorted_keys(b),
        to_map(a) == to_map(b),
    ensures
        a == b,
    decreases a.len(),
{
    if a.len() == 0 || b.len() == 0 {
        if a.len() > 0 {
            assert(to_map(a).contains_key(a.last().0));
            assert(to_map(b) =~= Map::<Seq<char>, ValueView>::empty());
        }
        if b.len() > 0 {
            assert(to_map(b).contains_key(b.last().0));
            assert(to_map(a) =~= Map::<Seq<char>, ValueView>::empty());
        }
        assert(a =~= b);
    } else {
        let ka = a.last().0;
        let kb = b.last().0;
        lemma_to_map_contains(a, kb);
        lemma_to_map_contains(b, ka);
        assert(to_map(a).contains_key(ka));
        assert(to_map(b).contains_key(kb));
        if ka != kb {
            let i = choose|i: int| 0 <= i < a.len() && a[i].0 == kb;
            let j = choose|j: int| 0 <= j < b.len() && b[j].0 == ka;
            if i < a.len() - 1 {
                assert(text_lt(a[i].0, a[a.len() - 1].0));
            }
            if j < b.len() - 1 {
                assert(text_lt(b[j].0, b[b.len() - 1].0));
            }
            assert(i != a.len() - 1);
            assert(j != b.len() - 1);
            lemma_text_lt_asymmetric(ka, kb);
            assert(false);
        }
        assert(a.last().1 == to_map(a)[ka]);
        assert(b.last().1 == to_map(b)[kb]);
        lemma_to_map_drop_last(a);
        lemma_to_map_drop_last(b);
        assert(sorted_keys(a.drop_last()));
        assert(sorted_keys(b.drop_last()));
        lemma_sorted_unique(a.drop_last(), b.drop_last());
        assert(a =~= a.drop_last().push(a.last()));
        assert(b =~= b.drop_last().push(b.last()));
    }
}

/// The entries of a field map are the sorted sequence of its map.
pub proof fn lemma_entries_of(f: Fields)
    requires
        sorted_keys(f@),
    ensures
        entries_of(f.map()) == f@,
{
    let s = entries_of(f.map());
    assert(sorted_keys(f@) && to_map(f@) == f.map());
    lemma_sorted_unique(s, f@);
}

/// A sorted map from text keys to typed values.
#[derive(Debug)]
pub struct Fields {
    entries: Vec<(String, Value)>,
}

impl Fields {
    /// The entries in ascending key order.
    pub closed spec fn view(&self) -> Seq<EntryView> {
        self.entries@.map_values(|e: (String, Value)| entry_view(e))
    }

    /// The map that the entries denote.
    pub open spec fn map(&self) -> Map<Seq<char>, ValueView> {
        to_map(self@)
    }

    #[verifier::type_invariant]
    spec fn keys_ascending(&self) -> bool {
        sorted_keys(self@)
    }

    /// An empty map.
    pub fn new() -> (r: Fields)
        ensures
            r@ == Seq::<EntryView>::empty(),
    {
        let r = Fields { entries: Vec::new() };
        assert(r@ =~= Seq::<EntryView>::empty());
        r
    }

    /// Number of entries.
    pub fn len(&self) -> (r: usize)
        ensures
            r == self@.len(),
            sorted_keys(self@),
            entries_of(self.map()) == self@,
    {
        proof {
            use_type_invariant(self);
            lemma_entries_of(*self);
        }
        self.entries.len()
    }

    /// The entries in ascending key order.
    pub fn entries(&self) -> (r: &Vec<(String, Value)>)
        ensures
            r@.map_values(|e: (String, Value)| entry_view(e)) == self@,
            sorted_keys(self@),
    {
        proof { use_type_invariant(self); }
        &self.entries
    }

    /// Inserts `key`, replacing the value it had.
    pub fn insert(&mut self, key: String, value: Value)
        ensures
            final(self).map() == old(self).map().insert(key@, value.view()),
    {
        proof { use_type_invariant(&*self); }
        let ghost old_view = self@;
        let k = to_chars(key.as_str());
        let mut i: usize = 0;
        let mut found = false;
        let mut greater = false;
        while i < self.entries.len() && !found && !greater
            invariant
                self@ == old_view,
                sorted_keys(old_view),
                k@ == key@,
                i <= old_view.len(),
                forall|j: int| 0 <= j < i ==> text_lt(#[trigger] old_view[j].0, k@),
                found ==> i < old_view.len() && old_view[i as int].0 == k@,
                greater ==> i < old_view.len() && text_lt(k@, old_view[i as int].0),
                !(found && greater),
            decreases old_view.len() - i + (if found || greater { 0int } else { 1int }),
        {
            let other = to_chars(self.entries[i].0.as_str());
            assert(other@ == old_view[i as int].0);
            match compare_text(&other, &k) {
                TextOrder::Less => {
                    i = i + 1;
                },
                TextOrder::Equal => {
                    found = true;
                },
                TextOrder::Greater => {
                    greater = true;
                },
            }
        }
        let ghost x: EntryView = (key@, value.view());
        proof {
            if greater {
                assert forall|j: int| i <= j < old_view.len() implies text_lt(k@, #[trigger] old_view[j].0) by {
                    if j > i {
                        lemma_text_lt_transitive(k@, old_view[i as int].0, old_view[j].0);
                    }
                }
            }
        }
        let mut entries: Vec<(String, Value)> = Vec::new();
        std::mem::swap(&mut entries, &mut self.entries);
        assert(entries@.map_values(|e: (String, Value)| entry_view(e)) == old_view);
        if found {
            let ghost old_entry = old_view[i as int];
            entries.set(i, (key, value));
            proof {
                let nv = entries@.map_values(|e: (String, Value)| entry_view(e));
                assert(nv =~= old_view.update(i as int, x));
                let a = old_view.take(i as int);
                let b = old_view.skip(i + 1);
                assert forall|j: int| 0 <= j < b.len() implies b[j].0 != x.0 by {
                    assert(b[j] == old_view[i + 1 + j]);
                    assert(text_lt(old_view[i as int].0, old_view[i + 1 + j].0));
                    lemma_text_lt_irreflexive(x.0);
                }
                lemma_to_map_middle(a, x, b);
                lemma_to_map_middle(a, old_entry, b);
                assert(nv =~= a + seq![x] + b);
                assert(old_view =~= a + seq![old_entry] + b);
                assert(to_map(nv) =~= to_map(old_view).insert(x.0, x.1));
                assert forall|p: int, q: int| 0 <= p < q < nv.len() implies text_lt(
                    #[trigger] nv[p].0,
                    #[trigger] nv[q].0,
                ) by {
                    assert(nv[p].0 == old_view[p].0);
                    assert(nv[q].0 == old_view[q].0);
                }
            }
        } else {
            entries.insert(i, (key, value));
            proof {
                let nv = entries@.map_values(|e: (String, Value)| entry_view(e));
                assert(nv =~= old_view.insert(i as int, x));
                let a = old_view.take(i as int);
                let b = old_view.skip(i as int);
                assert forall|j: int| 0 <= j < b.len() implies b[j].0 != x.0 by {
                    assert(b[j] == old_view[i + j]);
                    lemma_text_lt_irreflexive(x.0);
                }
                lemma_to_map_middle(a, x, b);
                assert(nv =~= a + seq![x] + b);
                assert(old_view =~= a + b);
                assert forall|p: int, q: int| 0 <= p < q < nv.len() implies text_lt(
                    #[trigger] nv[p].0,
                    #[trigger] nv[q].0,
                ) by {
                    if q < i {
                        assert(nv[p] == old_view[p]);
                        assert(nv[q] == old_view[q]);
                    } else if q == i {
                        assert(nv[p] == old_view[p]);
                    } else if p == i {
                        assert(nv[q] == old_view[q - 1]);
                    } else if p < i {
                        assert(nv[p] == old_view[p]);
                        assert(nv[q] == old_view[q - 1]);
                    } else {
                        assert(nv[p] == old_view[p - 1]);
                        assert(nv[q] == old_view[q - 1]);
                    }
                }
            }
        }
        self.entries = entries;
    }

    /// Inserts every entry of `other`; its values win (`BTreeMap::extend`).
    pub fn extend(&mut self, other: &Fields)
        ensures
            final(self).map() == old(self).map().union_prefer_right(other.map()),
    {
        proof { use_type_invariant(other); }
        let entries = other.entries();
        let mut i: usize = 0;
        assert(other@.take(0) =~= Seq::<EntryView>::empty());
        assert(old(self).map().union_prefer_right(to_map(other@.take(0))) =~= old(self).map());
        while i < entries.len()
            invariant
                entries@.map_values(|e: (String, Value)| entry_view(e)) == other@,
                i <= other@.len(),
                self.map() == old(self).map().union_prefer_right(to_map(other@.take(i as int))),
            decreases other@.len() - i,
        {
            let key = entries[i].0.clone();
            let value = entries[i].1.duplicate();
            assert(entry_view(entries@[i as int]) == other@[i as int]);
            self.insert(key, value);
            assert(other@.take(i + 1).drop_last() =~= other@.take(i as int));
            assert(self.map() =~= old(self).map().union_prefer_right(to_map(other@.take(i + 1))));
            i = i + 1;
        }
        assert(other@.take(other@.len() as int) =~= other@);
    }

    /// The value of `key`, if present.
    pub fn get(&self, key: &str) -> (r: Option<&Value>)
        ensures
            r matches Some(v) ==> self.map().contains_key(key@) && self.map()[key@] == v.view(),
            r is None ==> !self.map().contains_key(key@),
    {
        proof { use_type_invariant(self); }
        let k = to_chars(key);
        let mut i: usize = 0;
        while i < self.entries.len()
            invariant
                k@ == key@,
                sorted_keys(self@),
                i <= self@.len(),
                forall|j: int| 0 <= j < i ==> #[trigger] self@[j].0 != k@,
            decreases self@.len() - i,
        {
            let other = to_chars(self.entries[i].0.as_str());
            assert(self@[i as int] == entry_view(self.entries@[i as int]));
            assert(other@ == self@[i as int].0);
            if compare_text(&other, &k) == TextOrder::Equal {
                proof { lemma_to_map_contains(self@, k@); }
                return Some(&self.entries[i].1);
            }
            i = i + 1;
        }
        proof { lemma_to_map_contains(self@, k@); }
        None
    }

    /// A copy with the same entries.
    pub fn duplicate(&self) -> (r: Fields)
        ensures
            r@ == self@,
    {
        proof { use_type_invariant(self); }
        let mut entries: Vec<(String, Value)> = Vec::new();
        let mut i: usize = 0;
        while i < self.entries.len()
            invariant
                i <= self@.len(),
                entries@.map_values(|e: (String, Value)| entry_view(e)) == self@.take(i as int),
            decreases self@.len() - i,
        {
            let e = (self.entries[i].0.clone(), self.entries[i].1.duplicate());
            assert(self@[i as int] == entry_view(self.entries@[i as int]));
            assert(entry_view(e) == self@[i as int]);
            let ghost before = entries@;
            entries.push(e);
            assert(entries@ =~= before.push(e));
            assert(self@.take(i + 1) =~= self@.take(i as int).push(self@[i as int]));
            assert(entries@.map_values(|e: (String, Value)| entry_view(e)) =~= self@.take(i + 1));
            i = i + 1;
        }
        assert(self@.take(self@.len() as int) =~= self@);
        Fields { entries }
    }

    /// Whether both maps log the same (same keys, typed-equal values).
    pub fn same(&self, other: &Fields) -> (r: bool)
        ensures
            r == same_entries(self@, other@),
    {
        proof {
            use_type_invariant(self);
            use_type_invariant(other);
        }
        assert(self@.len() == self.entries@.len() && other@.len() == other.entries@.len());
        if self.entries.len() != other.entries.len() {
            return false;
        }
        let mut i: usize = 0;
        while i < self.entries.len()
            invariant
                self@.len() == other@.len(),
                i <= self@.len(),
                forall|j: int| #![trigger self@[j]] 0 <= j < i ==> self@[j].0 == other@[j].0 && self@[j].1.same(other@[j].1),
            decreases self@.len() - i,
        {
            let a = to_chars(self.entries[i].0.as_str());
            let b = to_chars(other.entries[i].0.as_str());
            assert(self@[i as int] == entry_view(self.entries@[i as int]));
            assert(other@[i as int] == entry_view(other.entries@[i as int]));
            let keys_same = crate::text::same_text(&a, &b);
            let values_same = self.entries[i].1.same(&other.entries[i].1);
            if !(keys_same && values_same) {
                assert(!(self@[i as int].0 == other@[i as int].0 && self@[i as int].1.same(other@[i as int].1)));
                assert(0 <= i < self@.len());
                proof {
                    if same_entries(self@, other@) {
                        let k = i as int;
                        assert(self@[k].0 == other@[k].0 && self@[k].1.same(other@[k].1));
                    }
                }
                return false;
            }
            i = i + 1;
        }
        true
    }

    /// A map holding the given pairs, inserted in order (later keys win).
    pub fn from_pairs(pairs: Vec<(String, Value)>) -> (r: Fields)
        ensures
            r.map() == to_map(pairs@.map_values(|e: (String, Value)| entry_view(e))),
    {
        let mut r = Fields::new();
        let ghost pv = pairs@.map_values(|e: (String, Value)| entry_view(e));
        let mut rest = pairs;
        let ghost mut done: Seq<EntryView> = Seq::empty();
        let mut i: usize = 0;
        assert(to_map(Seq::<EntryView>::empty()) =~= Map::empty());
        assert(r@ =~= Seq::<EntryView>::empty());
        while i < rest.len()
            invariant
                rest@.map_values(|e: (String, Value)| entry_view(e)) == pv,
                i <= pv.len(),
                r.map() == to_map(pv.take(i as int)),
            decreases pv.len() - i,
        {
            let key = rest[i].0.clone();
            let value = rest[i].1.duplicate();
            r.insert(key, value);
            assert(pv.take(i + 1).drop_last() =~= pv.take(i as int));
            i = i + 1;
        }
        assert(pv.take(pv.len() as int) =~= pv);
        r
    }
}

} // verus!
