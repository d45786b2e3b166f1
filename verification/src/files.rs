//! Identifiers of the nodes of one root, confined to it, with the generations
//! of the files read through them.
use vstd::prelude::*;
use crate::protocol::{id, uuid_v4_text, Error, Kind, MAX_OFFSET, NODES, SNAPSHOT};
use crate::text::{
    byte_len, decimal, ends_with, ends_with_exec, from_chars, push_chars, push_decimal, replace_all,
    replace_all_exec, rsplit_once, rsplit_once_exec, same_text, slice_range, text_lt, to_chars,
};
use crate::protocol::{offset, offset_view, Chunk, ContentOptions, Entry, RootDto, PAGE};

verus! {

/// A known node: its identifier, its path relative to the root, its kind, and
/// whether its path currently leads to it when looked up.
#[derive(Debug)]
pub struct Slot {
    pub id: String,
    pub relative: String,
    pub kind: Kind,
    pub indexed: bool,
}

/// What a node is.
#[derive(Debug)]
pub struct NodeInfo {
    pub relative: String,
    pub kind: Kind,
}

/// What is remembered of a file's generation: the identity of the file it was
/// read from, its generation identifier, its length and the last bytes read.
#[derive(Debug)]
pub struct Generation {
    pub identity: String,
    pub generation: String,
    pub size: u64,
    pub anchor: Vec<u8>,
    pub anchor_offset: u64,
}

/// The first index whose element satisfies `p`.
pub open spec fn first_where<T>(s: Seq<T>, p: spec_fn(T) -> bool) -> Option<int>
    decreases s.len(),
{
    if s.len() == 0 {
        None
    } else if p(s[0]) {
        Some(0)
    } else {
        match first_where(s.drop_first(), p) {
            Some(k) => Some(k + 1),
            None => None,
        }
    }
}

pub proof fn lemma_first_where<T>(s: Seq<T>, p: spec_fn(T) -> bool)
    ensures
        match first_where(s, p) {
            Some(i) => 0 <= i < s.len() && p(s[i]) && forall|j: int| 0 <= j < i ==> !p(#[trigger] s[j]),
            None => forall|j: int| 0 <= j < s.len() ==> !p(#[trigger] s[j]),
        },
    decreases s.len(),
{
    if s.len() > 0 {
        lemma_first_where(s.drop_first(), p);
        if !p(s[0]) {
            match first_where(s.drop_first(), p) {
                Some(k) => {
                    assert forall|j: int| 0 <= j < k + 1 implies !p(#[trigger] s[j]) by {
                        if j > 0 {
                            assert(s[j] == s.drop_first()[j - 1]);
                        }
                    }
                },
                None => {
                    assert forall|j: int| 0 <= j < s.len() implies !p(#[trigger] s[j]) by {
                        if j > 0 {
                            assert(s[j] == s.drop_first()[j - 1]);
                        }
                    }
                },
            }
        }
    }
}

pub proof fn lemma_first_where_at<T>(s: Seq<T>, p: spec_fn(T) -> bool, i: int)
    requires
        0 <= i < s.len(),
        p(s[i]),
        forall|j: int| 0 <= j < i ==> !p(#[trigger] s[j]),
    ensures
        first_where(s, p) == Some(i),
{
    lemma_first_where(s, p);
    match first_where(s, p) {
        Some(k) => {
            if k < i {
                assert(!p(s[k]));
            } else if k > i {
                assert(!p(s[i]));
            }
        },
        None => {
            assert(!p(s[i]));
        },
    }
}

/// What is known of a node: identifier, path, kind, and whether its path
/// leads to it.
pub struct NodeView {
    pub id: Seq<char>,
    pub relative: Seq<char>,
    pub kind: Kind,
    pub indexed: bool,
}

pub open spec fn slot_view(x: Slot) -> NodeView {
    NodeView { id: x.id@, relative: x.relative@, kind: x.kind, indexed: x.indexed }
}

/// Index of the node with identifier `id`.
pub open spec fn find_id(s: Seq<NodeView>, id: Seq<char>) -> Option<int> {
    first_where(s, |x: NodeView| x.id == id)
}

/// Index of the node that path `relative` leads to.
pub open spec fn find_path(s: Seq<NodeView>, relative: Seq<char>) -> Option<int> {
    first_where(s, |x: NodeView| x.indexed && x.relative == relative)
}

/// The nodes with path `relative` no longer lead from it.
pub open spec fn unindex(s: Seq<NodeView>, relative: Seq<char>) -> Seq<NodeView> {
    s.map_values(
        |x: NodeView|
            if x.indexed && x.relative == relative {
                NodeView { indexed: false, ..x }
            } else {
                x
            },
    )
}

/// The nodes without the one of identifier `id`; its path no longer leads
/// anywhere.
pub open spec fn drop_node(s: Seq<NodeView>, id: Seq<char>) -> Seq<NodeView> {
    match find_id(s, id) {
        None => s,
        Some(k) => unindex(s.remove(k), s[k].relative),
    }
}

/// Eviction of the oldest remembered nodes while the cache is full.
pub open spec fn evicted(s: Seq<NodeView>, order: Seq<Seq<char>>) -> (Seq<NodeView>, Seq<Seq<char>>)
    decreases order.len(),
{
    if s.len() < NODES || order.len() == 0 {
        (s, order)
    } else {
        evicted(drop_node(s, order[0]), order.drop_first())
    }
}

/// Identifiers of a sequence of nodes.
pub open spec fn slot_ids(s: Seq<NodeView>) -> Seq<Seq<char>> {
    s.map_values(|x: NodeView| x.id)
}

/// Identifiers of generations.
pub open spec fn generation_ids(s: Seq<(String, Generation)>) -> Seq<Seq<char>> {
    s.map_values(|x: (String, Generation)| x.0@)
}

/// Where the generation of file `id` is, if any.
pub open spec fn generation_index(s: Seq<(String, Generation)>, id: Seq<char>) -> int {
    choose|k: int| 0 <= k < s.len() && (#[trigger] s[k]).0@ == id
}

/// The generation of file `id`, if any.
pub open spec fn generation_of(s: Seq<(String, Generation)>, id: Seq<char>) -> Option<Generation> {
    if exists|k: int| 0 <= k < s.len() && (#[trigger] s[k]).0@ == id {
        Some(s[generation_index(s, id)].1)
    } else {
        None
    }
}

/// No two identifiers are equal.
pub open spec fn unique(s: Seq<Seq<char>>) -> bool {
    forall|i: int, j: int| 0 <= i < j < s.len() ==> #[trigger] s[i] != #[trigger] s[j]
}

/// No path leads to two nodes.
pub open spec fn paths_unique(s: Seq<NodeView>) -> bool {
    forall|i: int, j: int|
        0 <= i < j < s.len() && (#[trigger] s[i]).indexed && (#[trigger] s[j]).indexed ==> s[i].relative
            != s[j].relative
}

/// One root: its identifiers, its absolute path and identity, a directory
/// handle, the cache of its nodes and the generations of its files.
pub struct FileRoot<D> {
    id: String,
    node_id: String,
    absolute: String,
    identity: String,
    root: D,
    slots: Vec<Slot>,
    order: std::collections::VecDeque<String>,
    generations: Vec<(String, Generation)>,
}

impl<D> FileRoot<D> {
    /// The nodes, oldest first (the root first).
    pub closed spec fn nodes(&self) -> Seq<NodeView> {
        self.slots@.map_values(|x: Slot| slot_view(x))
    }

    /// Remembered nodes in the order they are evicted.
    pub closed spec fn eviction_order(&self) -> Seq<Seq<char>> {
        self.order@.map_values(|x: String| x@)
    }

    /// The generations, by file identifier.
    pub closed spec fn generations(&self) -> Seq<(String, Generation)> {
        self.generations@
    }

    pub closed spec fn id_view(&self) -> Seq<char> {
        self.id@
    }

    pub closed spec fn node_id_view(&self) -> Seq<char> {
        self.node_id@
    }

    pub closed spec fn absolute_view(&self) -> Seq<char> {
        self.absolute@
    }

    pub closed spec fn identity_view(&self) -> Seq<char> {
        self.identity@
    }

    pub closed spec fn directory_view(&self) -> D {
        self.root
    }

    /// Identifiers unique, paths unique, generations unique.
    pub open spec fn ids_wf(&self) -> bool {
        &&& unique(slot_ids(self.nodes()))
        &&& paths_unique(self.nodes())
        &&& unique(generation_ids(self.generations()))
    }

    /// The cache holds at most [`NODES`] nodes, the root first; every other
    /// node is in the eviction order, oldest first, and the root never is.
    pub open spec fn cache_wf(&self) -> bool {
        &&& 1 <= self.nodes().len() <= NODES
        &&& self.nodes()[0].id == self.node_id_view()
        &&& self.eviction_order() == slot_ids(self.nodes()).drop_first()
    }

    pub open spec fn wf(&self) -> bool {
        self.ids_wf() && self.cache_wf()
    }

    /// A root whose only known node is itself (identifier `node_id`, empty path).
    pub fn new(id: String, node_id: String, absolute: String, identity: String, root: D) -> (r: Self)
        ensures
            r.wf(),
            r.id_view() == id@,
            r.node_id_view() == node_id@,
            r.absolute_view() == absolute@,
            r.identity_view() == identity@,
            r.directory_view() == root,
            r.nodes().len() == 1,
            r.nodes()[0].id == node_id@,
            r.nodes()[0].relative.len() == 0,
            r.nodes()[0].kind == Kind::Directory,
            r.nodes()[0].indexed,
            r.eviction_order().len() == 0,
            r.generations().len() == 0,
    {
        let slot = Slot { id: node_id.clone(), relative: String::new(), kind: Kind::Directory, indexed: true };
        let r = FileRoot {
            id,
            node_id,
            absolute,
            identity,
            root,
            slots: vec![slot],
            order: std::collections::VecDeque::new(),
            generations: Vec::new(),
        };
        proof {
            assert(slot_ids(r.nodes()).len() == 1);
            assert(r.eviction_order() =~= slot_ids(r.nodes()).drop_first());
            assert(generation_ids(r.generations@) =~= Seq::<Seq<char>>::empty());
        }
        r
    }

    /// The identifier of the root.
    pub fn id(&self) -> (r: &str)
        ensures
            r@ == self.id_view(),
    {
        self.id.as_str()
    }

    /// The identifier of the root's own node.
    pub fn node_id(&self) -> (r: &str)
        ensures
            r@ == self.node_id_view(),
    {
        self.node_id.as_str()
    }

    /// The canonical absolute path of the root.
    pub fn absolute(&self) -> (r: &str)
        ensures
            r@ == self.absolute_view(),
    {
        self.absolute.as_str()
    }

    /// The identity of the root directory when it was opened.
    pub fn identity(&self) -> (r: &str)
        ensures
            r@ == self.identity_view(),
    {
        self.identity.as_str()
    }

    /// The directory handle of the root.
    pub fn directory(&self) -> (r: &D)
        ensures
            *r == self.directory_view(),
    {
        &self.root
    }

    /// Number of known nodes.
    pub fn cached_nodes(&self) -> (r: usize)
        ensures
            r == self.nodes().len(),
    {
        self.slots.len()
    }

    fn find(&self, id: &str) -> (r: Option<usize>)
        ensures
            match r {
                Some(k) => k < self.nodes().len() && find_id(self.nodes(), id@) == Some(k as int),
                None => find_id(self.nodes(), id@) is None,
            },
    {
        let key = to_chars(id);
        let mut k: usize = 0;
        while k < self.slots.len()
            invariant
                key@ == id@,
                k <= self.slots@.len(),
                forall|j: int| 0 <= j < k ==> !((|x: NodeView| x.id == id@)(#[trigger] self.nodes()[j])),
            decreases self.slots@.len() - k,
        {
            assert(self.nodes()[k as int] == slot_view(self.slots@[k as int]));
            if same_text(&to_chars(self.slots[k].id.as_str()), &key) {
                proof {
                    lemma_first_where_at(self.nodes(), |x: NodeView| x.id == id@, k as int);
                }
                return Some(k);
            }
            k = k + 1;
        }
        proof {
            lemma_first_where(self.nodes(), |x: NodeView| x.id == id@);
        }
        None
    }

    /// The node of identifier `id`, of the given kind if one is given.
    pub fn node(&self, id: &str, kind: Option<Kind>) -> (r: Result<NodeInfo, Error>)
        ensures
            match find_id(self.nodes(), id@) {
                None => r matches Err(e) && e.code == "NODE_EXPIRED" && e.message@
                    == "Entr\u{e9}e expir\u{e9}e : actualisez son dossier."@ && e.status == 409,
                Some(k) => if kind matches Some(want) && want != self.nodes()[k].kind {
                    r matches Err(e) && e.code == "INVALID_REQUEST" && e.message@
                        == "Type de fichier incorrect."@ && e.status == 400
                } else {
                    r matches Ok(n) && n.relative@ == self.nodes()[k].relative && n.kind
                        == self.nodes()[k].kind
                },
            },
    {
        match self.find(id) {
            None => Err(Error::of("NODE_EXPIRED", "Entr\u{e9}e expir\u{e9}e : actualisez son dossier.", 409)),
            Some(k) => {
                let slot = &self.slots[k];
                assert(self.nodes()[k as int] == slot_view(self.slots@[k as int]));
                match kind {
                    Some(want) => if want != slot.kind {
                        return Err(Error::of("INVALID_REQUEST", "Type de fichier incorrect.", 400));
                    },
                    None => {},
                }
                Ok(NodeInfo { relative: slot.relative.clone(), kind: slot.kind })
            },
        }
    }

    /// Whether `id` names a node of kind `kind`.
    pub fn check_node(&self, id: &str, kind: Kind) -> (r: Result<(), Error>)
        ensures
            match find_id(self.nodes(), id@) {
                None => r matches Err(e) && e.code == "NODE_EXPIRED" && e.message@
                    == "Entr\u{e9}e expir\u{e9}e : actualisez son dossier."@ && e.status == 409,
                Some(k) => if kind != self.nodes()[k].kind {
                    r matches Err(e) && e.code == "INVALID_REQUEST" && e.message@ == "Type de fichier incorrect."@
                        && e.status == 400
                } else {
                    r is Ok
                },
            },
    {
        match self.node(id, Some(kind)) {
            Ok(_) => Ok(()),
            Err(e) => Err(e),
        }
    }

    /// The relative path of node `id`, which management then validates.
    pub fn management_path(&self, id: &str) -> (r: Result<String, Error>)
        ensures
            match find_id(self.nodes(), id@) {
                None => r matches Err(e) && e.code == "NODE_EXPIRED" && e.status == 409,
                Some(k) => r matches Ok(p) && p@ == self.nodes()[k].relative,
            },
    {
        match self.node(id, None) {
            Ok(n) => Ok(n.relative),
            Err(e) => Err(e),
        }
    }
}

impl<D: Clone> FileRoot<D> {
    /// A shared handle on the root directory: a clone of the root's handle.
    pub fn directory_handle(&self) -> (r: D)
        ensures
            cloned::<D>(self.directory_view(), r),
    {
        self.root.clone()
    }
}


proof fn lemma_generation_of(s: Seq<(String, Generation)>, id: Seq<char>)
    requires
        unique(generation_ids(s)),
    ensures
        match generation_of(s, id) {
            Some(g) => exists|k: int| 0 <= k < s.len() && s[k].0@ == id && s[k].1 == g,
            None => forall|k: int| 0 <= k < s.len() ==> (#[trigger] s[k]).0@ != id,
        },
        forall|k: int| 0 <= k < s.len() && (#[trigger] s[k]).0@ == id ==> generation_of(s, id) == Some(s[k].1),
{
    if exists|k: int| 0 <= k < s.len() && (#[trigger] s[k]).0@ == id {
        let c = generation_index(s, id);
        assert(0 <= c < s.len() && s[c].0@ == id);
        assert(generation_of(s, id) == Some(s[c].1));
        assert forall|k: int| 0 <= k < s.len() && (#[trigger] s[k]).0@ == id implies generation_of(s, id) == Some(s[k].1) by {
            assert(generation_ids(s)[k] == s[k].0@);
            assert(generation_ids(s)[c] == s[c].0@);
            if k < c {
                assert(generation_ids(s)[k] != generation_ids(s)[c]);
            } else if k > c {
                assert(generation_ids(s)[c] != generation_ids(s)[k]);
            }
            assert(k == c);
        }
    }
}

impl<D> FileRoot<D> {
    /// Paths `relative` no longer lead to any node.
    fn unindex_path(&mut self, relative: &[char])
        requires
            old(self).ids_wf(),
        ensures
            final(self).ids_wf(),
            final(self).nodes() == unindex(old(self).nodes(), relative@),
            final(self).eviction_order() == old(self).eviction_order(),
            final(self).generations() == old(self).generations(),
            final(self).id_view() == old(self).id_view(),
            final(self).node_id_view() == old(self).node_id_view(),
            final(self).absolute_view() == old(self).absolute_view(),
            final(self).identity_view() == old(self).identity_view(),
            final(self).directory_view() == old(self).directory_view(),
    {
        let ghost s0 = self.nodes();
        let mut i: usize = 0;
        while i < self.slots.len()
            invariant
                i <= self.slots@.len(),
                self.slots@.len() == s0.len(),
                forall|j: int| 0 <= j < i ==> #[trigger] self.nodes()[j] == unindex(s0, relative@)[j],
                forall|j: int| i <= j < s0.len() ==> #[trigger] self.nodes()[j] == s0[j],
                self.order@ == old(self).order@,
                self.generations@ == old(self).generations@,
                self.id@ == old(self).id@,
                self.node_id@ == old(self).node_id@,
                self.absolute@ == old(self).absolute@,
                self.identity@ == old(self).identity@,
                self.root == old(self).root,
                s0 == old(self).nodes(),
            decreases s0.len() - i,
        {
            assert(self.nodes()[i as int] == slot_view(self.slots@[i as int]));
            if self.slots[i].indexed && same_text(&to_chars(self.slots[i].relative.as_str()), relative) {
                let ghost before = self.slots@;
                let x = self.slots.remove(i);
                self.slots.insert(i, Slot { indexed: false, ..x });
                proof {
                    assert(self.slots@ =~= before.update(i as int, Slot { indexed: false, ..x }));
                    let bn = before.map_values(|x: Slot| slot_view(x));
                    assert(self.nodes() =~= bn.update(i as int, NodeView { indexed: false, ..bn[i as int] }));
                }
            }
            i = i + 1;
        }
        proof {
            assert(self.nodes() =~= unindex(s0, relative@));
            let n = self.nodes();
            assert forall|a: int, b: int|
                0 <= a < b < n.len() && (#[trigger] n[a]).indexed && (#[trigger] n[b]).indexed implies n[a].relative
                    != n[b].relative by {
                assert(s0[a].indexed && s0[b].indexed);
            }
            assert(slot_ids(n) =~= slot_ids(s0));
        }
    }

    /// Forgets node `id`; its path no longer leads anywhere.
    fn drop_id(&mut self, id: &str)
        requires
            old(self).ids_wf(),
        ensures
            final(self).ids_wf(),
            final(self).nodes() == drop_node(old(self).nodes(), id@),
            final(self).eviction_order() == old(self).eviction_order(),
            final(self).generations() == old(self).generations(),
            final(self).id_view() == old(self).id_view(),
            final(self).node_id_view() == old(self).node_id_view(),
            final(self).absolute_view() == old(self).absolute_view(),
            final(self).identity_view() == old(self).identity_view(),
            final(self).directory_view() == old(self).directory_view(),
    {
        match self.find(id) {
            None => {},
            Some(k) => {
                let ghost before = self.slots@;
                let ghost s0 = self.nodes();
                let x = self.slots.remove(k);
                proof {
                    assert(self.nodes() =~= s0.remove(k as int));
                    let n = self.nodes();
                    assert forall|a: int, b: int|
                        0 <= a < b < n.len() && (#[trigger] n[a]).indexed && (#[trigger] n[b]).indexed implies n[a].relative
                            != n[b].relative by {
                        let oa = if a < k { a } else { a + 1 };
                        let ob = if b < k { b } else { b + 1 };
                        assert(n[a] == s0[oa] && n[b] == s0[ob]);
                    }
                    assert forall|a: int, b: int| 0 <= a < b < n.len() implies #[trigger] slot_ids(n)[a] != #[trigger] slot_ids(n)[b] by {
                        let oa = if a < k { a } else { a + 1 };
                        let ob = if b < k { b } else { b + 1 };
                        assert(slot_ids(n)[a] == slot_ids(s0)[oa] && slot_ids(n)[b] == slot_ids(s0)[ob]);
                    }
                }
                let rel = to_chars(x.relative.as_str());
                self.unindex_path(&rel);
            },
        }
    }

    /// Forgets the generation of file `id`.
    fn drop_generation(&mut self, id: &str)
        requires
            old(self).ids_wf(),
        ensures
            final(self).ids_wf(),
            forall|x: Seq<char>| #[trigger] generation_of(final(self).generations(), x) == if x == id@ {
                None
            } else {
                generation_of(old(self).generations(), x)
            },
            final(self).nodes() == old(self).nodes(),
            final(self).eviction_order() == old(self).eviction_order(),
            final(self).id_view() == old(self).id_view(),
            final(self).node_id_view() == old(self).node_id_view(),
            final(self).absolute_view() == old(self).absolute_view(),
            final(self).identity_view() == old(self).identity_view(),
            final(self).directory_view() == old(self).directory_view(),
    {
        let key = to_chars(id);
        let ghost g0 = self.generations@;
        let mut k: usize = 0;
        while k < self.generations.len()
            invariant
                key@ == id@,
                k <= g0.len(),
                self.generations@ == g0,
                g0 == old(self).generations(),
                self.slots@ == old(self).slots@,
                self.order@ == old(self).order@,
                self.id@ == old(self).id@,
                self.node_id@ == old(self).node_id@,
                self.absolute@ == old(self).absolute@,
                self.identity@ == old(self).identity@,
                self.root == old(self).root,
                old(self).ids_wf(),
                unique(generation_ids(g0)),
                forall|j: int| 0 <= j < k ==> (#[trigger] g0[j]).0@ != id@,
            decreases g0.len() - k,
        {
            if same_text(&to_chars(self.generations[k].0.as_str()), &key) {
                self.generations.remove(k);
                proof {
                    let g1 = self.generations@;
                    assert(g1 =~= g0.remove(k as int));
                    assert forall|a: int, b: int| 0 <= a < b < g1.len() implies #[trigger] generation_ids(g1)[a] != #[trigger] generation_ids(g1)[b] by {
                        let oa = if a < k { a } else { a + 1 };
                        let ob = if b < k { b } else { b + 1 };
                        assert(generation_ids(g1)[a] == generation_ids(g0)[oa]);
                        assert(generation_ids(g1)[b] == generation_ids(g0)[ob]);
                    }
                    assert forall|x: Seq<char>| #[trigger] generation_of(g1, x) == if x == id@ {
                        None
                    } else {
                        generation_of(g0, x)
                    } by {
                        lemma_generation_of(g0, x);
                        lemma_generation_of(g1, x);
                        if x == id@ {
                            assert forall|j: int| 0 <= j < g1.len() implies (#[trigger] g1[j]).0@ != x by {
                                let oj = if j < k { j } else { j + 1 };
                                assert(g1[j] == g0[oj]);
                                assert(generation_ids(g0)[oj] != generation_ids(g0)[k as int]);
                            }
                        } else {
                            match generation_of(g0, x) {
                                Some(g) => {
                                    let j = choose|j: int| 0 <= j < g0.len() && g0[j].0@ == x && g0[j].1 == g;
                                    let nj = if j < k { j } else { j - 1 };
                                    assert(j != k);
                                    assert(g1[nj] == g0[j]);
                                },
                                None => {
                                    assert forall|j: int| 0 <= j < g1.len() implies (#[trigger] g1[j]).0@ != x by {
                                        let oj = if j < k { j } else { j + 1 };
                                        assert(g1[j] == g0[oj]);
                                    }
                                },
                            }
                        }
                    }
                }
                return;
            }
            k = k + 1;
        }
        proof {
            assert forall|x: Seq<char>| #[trigger] generation_of(g0, x) == if x == id@ {
                None
            } else {
                generation_of(g0, x)
            } by {
                lemma_generation_of(g0, x);
            }
        }
    }
}


impl<D> FileRoot<D> {
    fn find_indexed(&self, relative: &[char]) -> (r: Option<usize>)
        ensures
            match r {
                Some(k) => k < self.nodes().len() && find_path(self.nodes(), relative@) == Some(k as int),
                None => find_path(self.nodes(), relative@) is None,
            },
    {
        let mut k: usize = 0;
        while k < self.slots.len()
            invariant
                k <= self.slots@.len(),
                forall|j: int|
                    0 <= j < k ==> !((|x: NodeView| x.indexed && x.relative == relative@)(
                        #[trigger] self.nodes()[j],
                    )),
            decreases self.slots@.len() - k,
        {
            assert(self.nodes()[k as int] == slot_view(self.slots@[k as int]));
            if self.slots[k].indexed && same_text(&to_chars(self.slots[k].relative.as_str()), relative) {
                proof {
                    lemma_first_where_at(
                        self.nodes(),
                        |x: NodeView| x.indexed && x.relative == relative@,
                        k as int,
                    );
                }
                return Some(k);
            }
            k = k + 1;
        }
        proof {
            lemma_first_where(self.nodes(), |x: NodeView| x.indexed && x.relative == relative@);
        }
        None
    }

    /// The identifier of the node at `relative`, of kind `kind`. A known path
    /// keeps its identifier (a change of kind forgets its generation); a new
    /// one gets a fresh identifier, after the oldest remembered nodes are
    /// forgotten while the cache holds [`NODES`] of them.
    pub fn remember(&mut self, relative: String, kind: Kind) -> (r: String)
        requires
            old(self).wf(),
        ensures
            final(self).wf(),
            final(self).id_view() == old(self).id_view(),
            final(self).node_id_view() == old(self).node_id_view(),
            final(self).absolute_view() == old(self).absolute_view(),
            final(self).identity_view() == old(self).identity_view(),
            final(self).directory_view() == old(self).directory_view(),
            match find_path(old(self).nodes(), relative@) {
                Some(k) => {
                    &&& r@ == old(self).nodes()[k].id
                    &&& final(self).nodes() == old(self).nodes().update(
                        k,
                        NodeView { kind, ..old(self).nodes()[k] },
                    )
                    &&& final(self).eviction_order() == old(self).eviction_order()
                    &&& forall|x: Seq<char>| #[trigger] generation_of(final(self).generations(), x)
                        == if x == r@ && old(self).nodes()[k].kind != kind {
                        None
                    } else {
                        generation_of(old(self).generations(), x)
                    }
                },
                None => {
                    let (kept, order) = evicted(old(self).nodes(), old(self).eviction_order());
                    let popped = old(self).eviction_order().take(
                        old(self).eviction_order().len() - order.len(),
                    );
                    &&& uuid_v4_text(r@)
                    &&& if slot_ids(kept).contains(r@) {
                        // A fresh identifier already in use: the node it names is overwritten.
                        final(self).nodes() == kept.update(
                            find_id(kept, r@)->0,
                            NodeView { id: r@, relative: relative@, kind, indexed: true },
                        ) && final(self).eviction_order() == order
                    } else {
                        final(self).nodes() == kept.push(NodeView { id: r@, relative: relative@, kind, indexed: true })
                            && final(self).eviction_order() == order.push(r@)
                    }
                    &&& forall|x: Seq<char>| #[trigger] generation_of(final(self).generations(), x)
                        == if popped.contains(x) || x == r@ {
                        None
                    } else {
                        generation_of(old(self).generations(), x)
                    }
                },
            },
    {
        let rel = to_chars(relative.as_str());
        match self.find_indexed(&rel) {
            Some(k) => {
                let ghost before = self.slots@;
                let x = self.slots.remove(k);
                let changed = x.kind != kind;
                let id = x.id.clone();
                self.slots.insert(k, Slot { kind, ..x });
                proof {
                    assert(self.slots@ =~= before.update(k as int, Slot { kind, ..x }));
                    let bn = before.map_values(|x: Slot| slot_view(x));
                    assert(self.nodes() =~= bn.update(k as int, NodeView { kind, ..bn[k as int] }));
                    let n = self.nodes();
                    assert forall|a: int, b: int|
                        0 <= a < b < n.len() && (#[trigger] n[a]).indexed && (#[trigger] n[b]).indexed implies n[a].relative
                            != n[b].relative by {
                        assert(bn[a].indexed && bn[b].indexed);
                    }
                    assert(slot_ids(n) =~= slot_ids(bn));
                }
                if changed {
                    self.drop_generation(id.as_str());
                } else {
                    proof {
                        assert forall|x: Seq<char>| #[trigger] generation_of(self.generations(), x)
                            == generation_of(old(self).generations(), x) by {}
                    }
                }
                id
            },
            None => {
                let ghost s0 = self.nodes();
                let ghost o0 = self.eviction_order();
                let ghost g0 = self.generations();
                let ghost target = evicted(s0, o0);
                proof {
                    lemma_first_where(s0, |x: NodeView| x.indexed && x.relative == relative@);
                }
                while self.slots.len() >= NODES
                    invariant
                        self.ids_wf(),
                        1 <= self.nodes().len() <= NODES,
                        self.nodes()[0].id == self.node_id_view(),
                        self.eviction_order() == slot_ids(self.nodes()).drop_first(),
                        evicted(self.nodes(), self.eviction_order()) == target,
                        self.eviction_order().len() <= o0.len(),
                        self.eviction_order() == o0.skip(o0.len() - self.eviction_order().len()),
                        forall|x: Seq<char>| #[trigger] generation_of(self.generations(), x) == if o0.take(
                            o0.len() - self.eviction_order().len(),
                        ).contains(x) {
                            None
                        } else {
                            generation_of(g0, x)
                        },
                        forall|j: int|
                            0 <= j < self.nodes().len() ==> !((#[trigger] self.nodes()[j]).indexed
                                && self.nodes()[j].relative == relative@),
                        rel@ == relative@,
                        self.id_view() == old(self).id_view(),
                        self.node_id_view() == old(self).node_id_view(),
                        self.absolute_view() == old(self).absolute_view(),
                        self.identity_view() == old(self).identity_view(),
                        self.directory_view() == old(self).directory_view(),
                        target == evicted(s0, o0),
                        g0 == old(self).generations(),
                    ensures
                        evicted(self.nodes(), self.eviction_order()) == (self.nodes(), self.eviction_order()),
                        self.nodes().len() < NODES,
                    decreases self.eviction_order().len(),
                {
                    let ghost cur = self.nodes();
                    let ghost ord = self.eviction_order();
                    let ghost popped_before = o0.take(o0.len() - ord.len());
                    match self.order.pop_front() {
                        None => {
                            assert(ord.len() == 0);
                            break;
                        },
                        Some(victim) => {
                            proof {
                                assert(self.eviction_order() =~= ord.drop_first());
                                assert(victim@ == ord[0]);
                                assert(victim@ == cur[1].id);
                                assert(evicted(cur, ord) == evicted(drop_node(cur, ord[0]), ord.drop_first()));
                                lemma_drop_second(cur);
                            }
                            self.drop_id(victim.as_str());
                            self.drop_generation(victim.as_str());
                            proof {
                                let ord2 = self.eviction_order();
                                assert(ord2 =~= slot_ids(self.nodes()).drop_first());
                                assert(ord2 =~= o0.skip(o0.len() - ord2.len()));
                                assert(o0.take(o0.len() - ord2.len()) =~= popped_before.push(victim@));
                                assert forall|x: Seq<char>| #[trigger] generation_of(self.generations(), x) == if o0.take(
                                    o0.len() - ord2.len(),
                                ).contains(x) {
                                    None
                                } else {
                                    generation_of(g0, x)
                                } by {
                                    assert(o0.take(o0.len() - ord2.len()).contains(x) == (popped_before.contains(x)
                                        || x == victim@)) by {
                                        let pp = o0.take(o0.len() - ord2.len());
                                        if x == victim@ {
                                            assert(pp[pp.len() - 1] == x);
                                        }
                                        if popped_before.contains(x) {
                                            let i = choose|i: int| 0 <= i < popped_before.len() && popped_before[i] == x;
                                            assert(pp[i] == x);
                                        }
                                        if pp.contains(x) {
                                            let i = choose|i: int| 0 <= i < pp.len() && pp[i] == x;
                                            if i < popped_before.len() {
                                                assert(popped_before[i] == x);
                                            }
                                        }
                                    }
                                }
                                drop_node_keeps_unindexed(cur, victim@, relative@);
                            }
                        },
                    }
                }
                let fresh = id();
                let found = self.find(fresh.as_str());
                let unused = found.is_none();
                let ghost mid = self.nodes();
                let ghost mid_ord = self.eviction_order();
                proof {
                    lemma_first_where(mid, |x: NodeView| x.id == fresh@);
                    if !unused {
                        let k = find_id(mid, fresh@)->0;
                        assert(slot_ids(mid)[k] == fresh@);
                    }
                }
                self.drop_generation(fresh.as_str());
                if let Some(k) = found {
                    // The identifier is already in use: the node it names is overwritten.
                    let ghost before = self.slots@;
                    assert(mid[k as int] == slot_view(before[k as int]));
                    let x = self.slots.remove(k);
                    self.slots.insert(k, Slot { id: x.id, relative, kind, indexed: true });
                    proof {
                        let n = self.nodes();
                        assert(self.slots@ =~= before.update(k as int, Slot { id: x.id, relative: relative, kind, indexed: true }));
                        assert(n =~= mid.update(k as int, NodeView { id: fresh@, relative: rel@, kind, indexed: true }));
                        assert(slot_ids(n) =~= slot_ids(mid));
                        assert(slot_ids(mid).contains(fresh@));
                        assert forall|a: int, b: int|
                            0 <= a < b < n.len() && (#[trigger] n[a]).indexed && (#[trigger] n[b]).indexed implies n[a].relative
                                != n[b].relative by {
                            if a != k && b != k {
                                assert(n[a] == mid[a] && n[b] == mid[b]);
                            } else if a == k {
                                assert(n[b] == mid[b]);
                            } else {
                                assert(n[a] == mid[a]);
                            }
                        }
                    }
                } else {
                    self.slots.push(Slot { id: fresh.clone(), relative, kind, indexed: true });
                    self.order.push_back(fresh.clone());
                    proof {
                        let n = self.nodes();
                        assert(n =~= mid.push(NodeView { id: fresh@, relative: rel@, kind, indexed: true }));
                        assert(self.eviction_order() =~= mid_ord.push(fresh@));
                        assert(self.eviction_order() =~= slot_ids(n).drop_first());
                        assert(forall|j: int| 0 <= j < mid.len() ==> (#[trigger] mid[j]).id != fresh@);
                        assert(!slot_ids(mid).contains(fresh@));
                        assert forall|a: int, b: int| 0 <= a < b < n.len() implies #[trigger] slot_ids(n)[a] != #[trigger] slot_ids(n)[b] by {
                            if b < mid.len() {
                                assert(slot_ids(n)[a] == slot_ids(mid)[a] && slot_ids(n)[b] == slot_ids(mid)[b]);
                            } else {
                                assert(slot_ids(n)[a] == mid[a].id);
                            }
                        }
                        assert forall|a: int, b: int|
                            0 <= a < b < n.len() && (#[trigger] n[a]).indexed && (#[trigger] n[b]).indexed implies n[a].relative
                                != n[b].relative by {
                            if b < mid.len() {
                                assert(n[a] == mid[a] && n[b] == mid[b]);
                            } else {
                                assert(n[a] == mid[a]);
                            }
                        }
                    }
                }
                fresh
            },
        }
    }
}

/// A path leads to the same nodes once paths are unindexed elsewhere; the
/// identifiers and the number of nodes do not change.
proof fn lemma_unindex_ids(s: Seq<NodeView>, p: Seq<char>)
    ensures
        unindex(s, p).len() == s.len(),
        slot_ids(unindex(s, p)) == slot_ids(s),
{
    assert(slot_ids(unindex(s, p)) =~= slot_ids(s));
}

/// Forgetting the node after the root keeps the root first and drops the
/// first identifier after it.
proof fn lemma_drop_second(s: Seq<NodeView>)
    requires
        unique(slot_ids(s)),
        s.len() >= 2,
    ensures
        drop_node(s, s[1].id).len() == s.len() - 1,
        drop_node(s, s[1].id)[0].id == s[0].id,
        slot_ids(drop_node(s, s[1].id)).drop_first() == slot_ids(s).drop_first().drop_first(),
{
    assert(slot_ids(s)[0] != slot_ids(s)[1]);
    lemma_first_where_at(s, |x: NodeView| x.id == s[1].id, 1);
    let r = s.remove(1);
    lemma_unindex_ids(r, s[1].relative);
    assert(slot_ids(r).drop_first() =~= slot_ids(s).drop_first().drop_first());
    assert(r[0] == s[0]);
    assert(unindex(r, s[1].relative)[0].id == r[0].id);
}

/// Dropping a node keeps a path that leads nowhere leading nowhere.
pub proof fn drop_node_keeps_unindexed(s: Seq<NodeView>, id: Seq<char>, relative: Seq<char>)
    requires
        forall|j: int| 0 <= j < s.len() ==> !((#[trigger] s[j]).indexed && s[j].relative == relative),
    ensures
        forall|j: int|
            0 <= j < drop_node(s, id).len() ==> !((#[trigger] drop_node(s, id)[j]).indexed && drop_node(
                s,
                id,
            )[j].relative == relative),
{
    lemma_first_where(s, |x: NodeView| x.id == id);
    match find_id(s, id) {
        None => {},
        Some(k) => {
            let r = s.remove(k);
            assert forall|j: int| 0 <= j < drop_node(s, id).len() implies !((#[trigger] drop_node(s, id)[j]).indexed
                && drop_node(s, id)[j].relative == relative) by {
                let oj = if j < k { j } else { j + 1 };
                assert(r[j] == s[oj]);
            }
        },
    }
}


/// The last component of a relative path.
pub open spec fn file_name(p: Seq<char>) -> Seq<char> {
    match rsplit_once(p, seq!['/']) {
        Some((_, n)) => n,
        None => p,
    }
}

/// The path with its last component replaced by `name`.
pub open spec fn with_file_name(p: Seq<char>, name: Seq<char>) -> Seq<char> {
    match rsplit_once(p, seq!['/']) {
        Some((d, _)) => d + seq!['/'] + name,
        None => name,
    }
}

/// Where an active file may have gone once finalized: its path, the paths of
/// its closed and recovered names, and the identity of the file last read.
#[derive(Debug)]
pub struct Relocation {
    pub relative: String,
    pub targets: Vec<String>,
    pub identity: String,
}

/// A file's generation against the one remembered.
#[derive(Debug)]
pub enum GenerationCheck {
    /// Another file, a shorter one, or none remembered.
    Changed,
    /// Same file, and nothing to compare.
    Unchanged,
    /// Same file: the bytes at `offset` must still be `expected`.
    Compare { offset: u64, expected: Vec<u8> },
}

/// Standard base64 with padding (`base64::engine::general_purpose::STANDARD`).
pub open spec fn base64_standard(data: Seq<u8>) -> Seq<char> {
    crate::text::b64_encode(data, false, true)
}

/// Standard base64 (with padding) of the bytes, by the `base64` crate.
#[verifier::external_body]
fn encode_base64(data: &[u8]) -> (r: String)
    ensures
        r@ == base64_standard(data@),
{
    base64::Engine::encode(&base64::engine::general_purpose::STANDARD, data)
}

/// The decimal text of a number.
fn decimal_text(n: u64) -> (r: String)
    ensures
        r@ == decimal(n as nat),
{
    let mut out = String::new();
    push_decimal(&mut out, n);
    assert(out@ =~= decimal(n as nat));
    out
}

impl<D> FileRoot<D> {
    /// For a file node whose name ends with `.active.log` and whose generation
    /// is remembered: its path, the `.log` then `.recovered.log` paths it may
    /// have been renamed to, and the identity of the file last read.
    pub fn relocation(&self, id: &str) -> (r: Result<Option<Relocation>, Error>)
        requires
            self.wf(),
        ensures
            match find_id(self.nodes(), id@) {
                None => r matches Err(e) && e.code == "NODE_EXPIRED" && e.status == 409,
                Some(k) => {
                    let n = self.nodes()[k];
                    if n.kind != Kind::File {
                        r matches Err(e) && e.code == "INVALID_REQUEST" && e.status == 400
                    } else if !ends_with(file_name(n.relative), ".active.log"@) || generation_of(
                        self.generations(),
                        id@,
                    ) is None {
                        r matches Ok(None)
                    } else {
                        r matches Ok(Some(rel)) && rel.relative@ == n.relative && rel.identity@
                            == generation_of(self.generations(), id@)->0.identity@ && rel.targets@.len()
                            == 2 && rel.targets@[0]@ == with_file_name(
                            n.relative,
                            replace_all(file_name(n.relative), ".active.log"@, ".log"@),
                        ) && rel.targets@[1]@ == with_file_name(
                            n.relative,
                            replace_all(file_name(n.relative), ".active.log"@, ".recovered.log"@),
                        )
                    }
                },
            },
    {
        let node = match self.node(id, Some(Kind::File)) {
            Ok(n) => n,
            Err(e) => return Err(e),
        };
        let path = to_chars(node.relative.as_str());
        let slash = ['/'];
        assert(slash@ =~= seq!['/']);
        let split = rsplit_once_exec(&path, &slash);
        proof {
            match &split {
                Some((d, n)) => assert(rsplit_once(path@, seq!['/']) == Some((d@, n@))),
                None => assert(rsplit_once(path@, seq!['/']) is None),
            }
        }
        let name = match &split {
            Some((_, n)) => slice_range(n, 0, n.len()),
            None => slice_range(&path, 0, path.len()),
        };
        assert(name@ =~= file_name(path@));
        let active = to_chars(".active.log");
        proof {
            reveal_strlit(".active.log");
        }
        if !ends_with_exec(&name, &active) {
            return Ok(None);
        }
        let key = to_chars(id);
        let mut k: usize = 0;
        let mut found: Option<usize> = None;
        while k < self.generations.len()
            invariant
                key@ == id@,
                k <= self.generations@.len(),
                found matches Some(i) ==> i < self.generations@.len() && self.generations@[i as int].0@ == id@,
                found is None ==> forall|j: int| 0 <= j < k ==> (#[trigger] self.generations@[j]).0@ != id@,
            decreases self.generations@.len() - k,
        {
            if found.is_none() && same_text(&to_chars(self.generations[k].0.as_str()), &key) {
                found = Some(k);
            }
            k = k + 1;
        }
        proof {
            lemma_generation_of(self.generations@, id@);
        }
        let g = match found {
            Some(i) => i,
            None => return Ok(None),
        };
        let mut targets: Vec<String> = Vec::new();
        let suffixes: [&str; 2] = [".log", ".recovered.log"];
        let mut t: usize = 0;
        while t < 2
            invariant
                t <= 2,
                targets@.len() == t,
                name@ == file_name(path@),
                active@ == ".active.log"@,
                active@.len() > 0,
                match &split {
                    Some((d, n)) => rsplit_once(path@, seq!['/']) == Some((d@, n@)),
                    None => rsplit_once(path@, seq!['/']) is None,
                },
                suffixes@[0] == ".log",
                suffixes@[1] == ".recovered.log",
                forall|j: int| 0 <= j < t ==> (#[trigger] targets@[j])@ == with_file_name(
                    path@,
                    replace_all(file_name(path@), ".active.log"@, suffixes@[j]@),
                ),
            decreases 2 - t,
        {
            let suffix = to_chars(suffixes[t]);
            let replaced = replace_all_exec(&name, &active, &suffix);
            let full = match &split {
                Some((dir, _)) => {
                    let mut out = String::new();
                    push_chars(&mut out, dir);
                    crate::text::push_char(&mut out, '/');
                    push_chars(&mut out, &replaced);
                    out
                },
                None => from_chars(&replaced),
            };
            assert(full@ =~= with_file_name(path@, replace_all(file_name(path@), ".active.log"@, suffixes@[t as int]@)));
            targets.push(full);
            t = t + 1;
        }
        Ok(Some(Relocation { relative: node.relative, targets, identity: self.generations[g].1.identity.clone() }))
    }

    /// Moves node `id` to `next`: its old path and `next` lead nowhere else,
    /// and `next` leads to it. Returns whether the node exists.
    pub fn relocate_to(&mut self, id: &str, next: String) -> (r: bool)
        requires
            old(self).wf(),
        ensures
            final(self).wf(),
            final(self).eviction_order() == old(self).eviction_order(),
            final(self).generations() == old(self).generations(),
            final(self).id_view() == old(self).id_view(),
            final(self).node_id_view() == old(self).node_id_view(),
            final(self).absolute_view() == old(self).absolute_view(),
            final(self).identity_view() == old(self).identity_view(),
            final(self).directory_view() == old(self).directory_view(),
            match find_id(old(self).nodes(), id@) {
                None => !r && final(self).nodes() == old(self).nodes(),
                Some(k) => {
                    let s1 = unindex(unindex(old(self).nodes(), old(self).nodes()[k].relative), next@);
                    &&& r
                    &&& final(self).nodes() == s1.update(k, NodeView { relative: next@, indexed: true, ..s1[k] })
                },
            },
    {
        let k = match self.find(id) {
            Some(k) => k,
            None => return false,
        };
        let ghost s0 = self.nodes();
        assert(s0[k as int] == slot_view(self.slots@[k as int]));
        let old_rel = to_chars(self.slots[k].relative.as_str());
        self.unindex_path(&old_rel);
        let new_rel = to_chars(next.as_str());
        self.unindex_path(&new_rel);
        let ghost s1 = self.nodes();
        proof {
            lemma_unindex_ids(s0, old_rel@);
            lemma_unindex_ids(unindex(s0, old_rel@), new_rel@);
        }
        let ghost before = self.slots@;
        assert(s1.len() == s0.len());
        let x = self.slots.remove(k);
        self.slots.insert(k, Slot { relative: next, indexed: true, ..x });
        proof {
            let bn = before.map_values(|x: Slot| slot_view(x));
            assert(bn == s1);
            assert(self.slots@ =~= before.update(k as int, Slot { relative: next, indexed: true, ..x }));
            assert(self.nodes() =~= s1.update(k as int, NodeView { relative: next@, indexed: true, ..s1[k as int] }));
            let n = self.nodes();
            assert forall|a: int, b: int|
                0 <= a < b < n.len() && (#[trigger] n[a]).indexed && (#[trigger] n[b]).indexed implies n[a].relative
                    != n[b].relative by {
                if a != k && b != k {
                    assert(n[a] == s1[a] && n[b] == s1[b]);
                } else if a == k {
                    assert(n[b] == s1[b]);
                    assert(!(s1[b].indexed && s1[b].relative == next@));
                } else {
                    assert(n[a] == s1[a]);
                    assert(!(s1[a].indexed && s1[a].relative == next@));
                }
            }
            assert(slot_ids(n) =~= slot_ids(s1));
            assert(slot_ids(s1) =~= slot_ids(s0));
            assert forall|a: int, b: int| 0 <= a < b < n.len() implies #[trigger] slot_ids(n)[a] != #[trigger] slot_ids(n)[b] by {
                assert(slot_ids(n)[a] == slot_ids(s1)[a] && slot_ids(n)[b] == slot_ids(s1)[b]);
            }
        }
        true
    }

    /// Compares a file (its identity and length) with the generation remembered
    /// for node `id`.
    pub fn generation_check(&self, id: &str, identity: &str, len: u64) -> (r: GenerationCheck)
        requires
            self.wf(),
        ensures
            match generation_of(self.generations(), id@) {
                None => r is Changed,
                Some(g) => if g.identity@ != identity@ || len < g.size {
                    r is Changed
                } else if g.anchor@.len() > 0 {
                    r matches GenerationCheck::Compare { offset, expected } && offset == g.anchor_offset
                        && expected@ == g.anchor@
                } else {
                    r is Unchanged
                },
            },
    {
        let key = to_chars(id);
        let mut k: usize = 0;
        while k < self.generations.len()
            invariant
                self.wf(),
                key@ == id@,
                k <= self.generations@.len(),
                forall|j: int| 0 <= j < k ==> (#[trigger] self.generations@[j]).0@ != id@,
            decreases self.generations@.len() - k,
        {
            if same_text(&to_chars(self.generations[k].0.as_str()), &key) {
                proof {
                    lemma_generation_of(self.generations@, id@);
                }
                let g = &self.generations[k].1;
                if !same_text(&to_chars(g.identity.as_str()), &to_chars(identity)) || len < g.size {
                    return GenerationCheck::Changed;
                }
                if g.anchor.len() > 0 {
                    let expected = slice_bytes(&g.anchor);
                    return GenerationCheck::Compare { offset: g.anchor_offset, expected };
                }
                return GenerationCheck::Unchanged;
            }
            k = k + 1;
        }
        proof {
            lemma_generation_of(self.generations@, id@);
        }
        GenerationCheck::Changed
    }

    /// Records the generation of node `id` after a read: a changed file, or
    /// one read for the first time, gets the new generation identifier
    /// `fresh`; the length is updated and the last bytes of the file (at most
    /// 64, read at [`anchor_offset`] of `len`) become the anchor. The
    /// generation identifier is returned.
    pub fn record_generation_from(
        &mut self,
        id: &str,
        changed: bool,
        identity: String,
        len: u64,
        anchor: Vec<u8>,
        fresh: String,
    ) -> (r: String)
        requires
            old(self).wf(),
        ensures
            final(self).wf(),
            final(self).nodes() == old(self).nodes(),
            final(self).eviction_order() == old(self).eviction_order(),
            final(self).id_view() == old(self).id_view(),
            final(self).node_id_view() == old(self).node_id_view(),
            final(self).absolute_view() == old(self).absolute_view(),
            final(self).identity_view() == old(self).identity_view(),
            final(self).directory_view() == old(self).directory_view(),
            generation_of(final(self).generations(), id@) matches Some(g) && {
                &&& g.generation@ == r@
                &&& g.size == len
                &&& g.anchor_offset == anchor_offset_spec(len)
                &&& g.anchor@ == anchor@
                &&& (!changed && generation_of(old(self).generations(), id@) is Some) ==> {
                    &&& g.identity@ == generation_of(old(self).generations(), id@)->0.identity@
                    &&& g.generation@ == generation_of(old(self).generations(), id@)->0.generation@
                }
                &&& (changed || generation_of(old(self).generations(), id@) is None) ==> g.identity@ == identity@
                &&& (changed || generation_of(old(self).generations(), id@) is None) ==> g.generation@ == fresh@
            },
            forall|x: Seq<char>| x != id@ ==> #[trigger] generation_of(final(self).generations(), x)
                == generation_of(old(self).generations(), x),
    {
        let key = to_chars(id);
        let mut k: usize = 0;
        let mut found: Option<usize> = None;
        while k < self.generations.len()
            invariant
                key@ == id@,
                k <= self.generations@.len(),
                found matches Some(i) ==> i < self.generations@.len() && self.generations@[i as int].0@ == id@,
                found is None ==> forall|j: int| 0 <= j < k ==> (#[trigger] self.generations@[j]).0@ != id@,
            decreases self.generations@.len() - k,
        {
            if found.is_none() && same_text(&to_chars(self.generations[k].0.as_str()), &key) {
                found = Some(k);
            }
            k = k + 1;
        }
        proof {
            lemma_generation_of(self.generations@, id@);
        }
        let offset = if len >= 64 { len - 64 } else { 0 };
        let ghost g0 = self.generations@;
        let (ident, generation) = match found {
            Some(i) if !changed => {
                let e = self.generations.remove(i);
                (e.1.identity, e.1.generation)
            },
            Some(i) => {
                self.generations.remove(i);
                (identity, fresh)
            },
            None => (identity, fresh),
        };
        let ghost g1 = self.generations@;
        let r = generation.clone();
        self.generations.push((
            id.to_owned(),
            Generation { identity: ident, generation, size: len, anchor, anchor_offset: offset },
        ));
        proof {
            let g2 = self.generations@;
            assert(g2.drop_last() =~= g1);
            // Every identifier but `id` keeps its entry.
            assert forall|j: int| 0 <= j < g1.len() implies (#[trigger] g1[j]).0@ != id@ by {
                match found {
                    Some(i) => {
                        let oj = if j < i { j } else { j + 1 };
                        assert(g1[j] == g0[oj]);
                        assert(generation_ids(g0)[oj] != generation_ids(g0)[i as int]);
                    },
                    None => {
                        assert(g1 == g0);
                    },
                }
            }
            assert forall|a: int, b: int| 0 <= a < b < g2.len() implies #[trigger] generation_ids(g2)[a] != #[trigger] generation_ids(g2)[b] by {
                if b < g2.len() - 1 {
                    match found {
                        Some(i) => {
                            let oa = if a < i { a } else { a + 1 };
                            let ob = if b < i { b } else { b + 1 };
                            assert(g2[a] == g0[oa] && g2[b] == g0[ob]);
                            assert(generation_ids(g0)[oa] != generation_ids(g0)[ob]);
                        },
                        None => {
                            assert(g2[a] == g0[a] && g2[b] == g0[b]);
                            assert(generation_ids(g0)[a] != generation_ids(g0)[b]);
                        },
                    }
                } else {
                    assert(g2[a] == g1[a]);
                }
            }
            lemma_generation_of(g2, id@);
            assert(g2[g2.len() - 1].0@ == id@);
            assert forall|a: int, b: int| 0 <= a < b < g1.len() implies #[trigger] generation_ids(g1)[a] != #[trigger] generation_ids(g1)[b] by {
                assert(generation_ids(g1)[a] == generation_ids(g2)[a]);
                assert(generation_ids(g1)[b] == generation_ids(g2)[b]);
            }
            assert forall|x: Seq<char>| x != id@ implies #[trigger] generation_of(g2, x) == generation_of(g0, x) by {
                lemma_generation_of(g2, x);
                lemma_generation_of(g0, x);
                lemma_generation_of(g1, x);
                match generation_of(g0, x) {
                    Some(gg) => {
                        let j = choose|j: int| 0 <= j < g0.len() && g0[j].0@ == x && g0[j].1 == gg;
                        match found {
                            Some(i) => {
                                assert(j != i);
                                let nj = if j < i { j } else { j - 1 };
                                assert(g1[nj] == g0[j]);
                                assert(g2[nj] == g1[nj]);
                            },
                            None => {
                                assert(g2[j] == g0[j]);
                            },
                        }
                    },
                    None => {
                        assert forall|j: int| 0 <= j < g2.len() implies (#[trigger] g2[j]).0@ != x by {
                            if j < g1.len() {
                                match found {
                                    Some(i) => {
                                        let oj = if j < i { j } else { j + 1 };
                                        assert(g2[j] == g0[oj]);
                                    },
                                    None => {
                                        assert(g2[j] == g0[j]);
                                    },
                                }
                            }
                        }
                    },
                }
            }
        }
        r
    }

    /// Records what was read of file `id` (see `record_generation_from`); a
    /// new generation, when one is due, is a freshly drawn identifier.
    pub fn record_generation(&mut self, id: &str, changed: bool, identity: String, len: u64, anchor: Vec<u8>) -> (r: String)
        requires
            old(self).wf(),
        ensures
            final(self).wf(),
            final(self).nodes() == old(self).nodes(),
            final(self).eviction_order() == old(self).eviction_order(),
            final(self).id_view() == old(self).id_view(),
            final(self).node_id_view() == old(self).node_id_view(),
            final(self).absolute_view() == old(self).absolute_view(),
            final(self).identity_view() == old(self).identity_view(),
            final(self).directory_view() == old(self).directory_view(),
            generation_of(final(self).generations(), id@) matches Some(g) && {
                &&& g.generation@ == r@
                &&& g.size == len
                &&& g.anchor_offset == anchor_offset_spec(len)
                &&& g.anchor@ == anchor@
                &&& (!changed && generation_of(old(self).generations(), id@) is Some) ==> {
                    &&& g.identity@ == generation_of(old(self).generations(), id@)->0.identity@
                    &&& g.generation@ == generation_of(old(self).generations(), id@)->0.generation@
                }
                &&& (changed || generation_of(old(self).generations(), id@) is None) ==> g.identity@ == identity@
                &&& (changed || generation_of(old(self).generations(), id@) is None) ==> uuid_v4_text(r@)
            },
            forall|x: Seq<char>| x != id@ ==> #[trigger] generation_of(final(self).generations(), x)
                == generation_of(old(self).generations(), x),
    {
        let fresh = crate::protocol::id();
        self.record_generation_from(id, changed, identity, len, anchor, fresh)
    }
}

/// Where the anchor of a file of length `len` starts: 64 bytes before its end.
pub open spec fn anchor_offset_spec(len: u64) -> u64 {
    if len >= 64 {
        (len - 64) as u64
    } else {
        0
    }
}


fn slice_bytes(v: &Vec<u8>) -> (r: Vec<u8>)
    ensures
        r@ == v@,
{
    let mut out: Vec<u8> = Vec::new();
    let mut i: usize = 0;
    while i < v.len()
        invariant
            i <= v@.len(),
            out@ == v@.take(i as int),
        decreases v@.len() - i,
    {
        out.push(v[i]);
        assert(v@.take(i + 1) =~= v@.take(i as int).push(v@[i as int]));
        i = i + 1;
    }
    assert(v@.take(v@.len() as int) =~= v@);
    out
}

/// Whether an identity found on disk is the expected one.
pub open spec fn identity_found(found: Option<String>, identity: Seq<char>) -> bool {
    match found {
        Some(f) => f@ == identity,
        None => false,
    }
}

/// Which relocation target is the file last read: none while the active path
/// still validates; otherwise the first target whose identity, found on disk,
/// is the remembered one.
pub fn relocation_choice(r: &Relocation, current_valid: bool, found: &Vec<Option<String>>) -> (c: Option<usize>)
    ensures
        match c {
            Some(i) => {
                &&& !current_valid
                &&& i < found@.len() && i < r.targets@.len()
                &&& identity_found(found@[i as int], r.identity@)
                &&& forall|j: int| 0 <= j < i ==> !identity_found(#[trigger] found@[j], r.identity@)
            },
            None => current_valid || forall|j: int|
                0 <= j < found@.len() && j < r.targets@.len() ==> !identity_found(#[trigger] found@[j], r.identity@),
        },
{
    if current_valid {
        return None;
    }
    let want = to_chars(r.identity.as_str());
    let mut i: usize = 0;
    while i < found.len() && i < r.targets.len()
        invariant
            !current_valid,
            want@ == r.identity@,
            i <= found@.len(),
            forall|j: int| 0 <= j < i ==> !identity_found(#[trigger] found@[j], r.identity@),
        decreases found@.len() - i,
    {
        match &found[i] {
            Some(f) => if same_text(&to_chars(f.as_str()), &want) {
                assert(identity_found(found@[i as int], r.identity@));
                return Some(i);
            },
            None => {},
        }
        i = i + 1;
    }
    None
}

/// The paths an active file may have been renamed to once finalized: its
/// `.log` name, then its `.recovered.log` name.
pub open spec fn relocation_targets(relative: Seq<char>) -> Seq<Seq<char>> {
    seq![
        with_file_name(relative, replace_all(file_name(relative), ".active.log"@, ".log"@)),
        with_file_name(relative, replace_all(file_name(relative), ".active.log"@, ".recovered.log"@)),
    ]
}

/// The nodes once node `k` has moved to `next`: its old path and `next` lead
/// nowhere else, and `next` leads to it.
pub open spec fn moved(s: Seq<NodeView>, k: int, next: Seq<char>) -> Seq<NodeView> {
    let s1 = unindex(unindex(s, s[k].relative), next);
    s1.update(k, NodeView { relative: next, indexed: true, ..s1[k] })
}

/// The first of the (at most two) identities found on disk that is `identity`.
pub open spec fn first_found(found: Seq<Option<String>>, identity: Seq<char>) -> Option<int> {
    first_where(
        if found.len() <= 2 {
            found
        } else {
            found.take(2)
        },
        |f: Option<String>| identity_found(f, identity),
    )
}

impl<D> FileRoot<D> {
    /// Follows a file renamed when its segment was finalized, from what the
    /// disk shows: whether the node's own path still validates, and the
    /// identity found at each path of `relocation(id)`, if any. The node moves
    /// to the first path holding the file last read; returns whether it moved.
    pub fn relocate(&mut self, id: &str, current_valid: bool, found: &Vec<Option<String>>) -> (r: Result<
        bool,
        Error,
    >)
        requires
            old(self).wf(),
        ensures
            final(self).wf(),
            final(self).eviction_order() == old(self).eviction_order(),
            final(self).generations() == old(self).generations(),
            final(self).id_view() == old(self).id_view(),
            final(self).node_id_view() == old(self).node_id_view(),
            final(self).absolute_view() == old(self).absolute_view(),
            final(self).identity_view() == old(self).identity_view(),
            final(self).directory_view() == old(self).directory_view(),
            match find_id(old(self).nodes(), id@) {
                None => r matches Err(e) && e.code == "NODE_EXPIRED" && e.status == 409 && final(self).nodes() == old(
                    self,
                ).nodes(),
                Some(k) => {
                    let n = old(self).nodes()[k];
                    if n.kind != Kind::File {
                        r matches Err(e) && e.code == "INVALID_REQUEST" && e.status == 400 && final(self).nodes() == old(
                            self,
                        ).nodes()
                    } else if !ends_with(file_name(n.relative), ".active.log"@) || generation_of(
                        old(self).generations(),
                        id@,
                    ) is None || current_valid {
                        r == Ok::<bool, Error>(false) && final(self).nodes() == old(self).nodes()
                    } else {
                        match first_found(found@, generation_of(old(self).generations(), id@)->0.identity@) {
                            None => r == Ok::<bool, Error>(false) && final(self).nodes() == old(self).nodes(),
                            Some(i) => r == Ok::<bool, Error>(true) && final(self).nodes() == moved(
                                old(self).nodes(),
                                k,
                                relocation_targets(n.relative)[i],
                            ),
                        }
                    }
                },
            },
    {
        let rel = match self.relocation(id) {
            Err(e) => return Err(e),
            Ok(None) => return Ok(false),
            Ok(Some(rel)) => rel,
        };
        let choice = relocation_choice(&rel, current_valid, found);
        let ghost trimmed = if found@.len() <= 2 {
            found@
        } else {
            found@.take(2)
        };
        let ghost p = |f: Option<String>| identity_found(f, rel.identity@);
        proof {
            lemma_first_where(trimmed, p);
        }
        match choice {
            None => {
                proof {
                    if !current_valid {
                        assert forall|j: int| 0 <= j < trimmed.len() implies !p(#[trigger] trimmed[j]) by {
                            assert(trimmed[j] == found@[j]);
                        }
                    }
                }
                Ok(false)
            },
            Some(i) => {
                proof {
                    assert(trimmed[i as int] == found@[i as int]);
                    assert forall|j: int| 0 <= j < i implies !p(#[trigger] trimmed[j]) by {
                        assert(trimmed[j] == found@[j]);
                    }
                    lemma_first_where_at(trimmed, p, i as int);
                }
                let next = rel.targets[i].clone();
                let moved_ok = self.relocate_to(id, next);
                Ok(moved_ok)
            },
        }
    }
}

/// A file larger than 2^53 − 1 bytes cannot be read.
pub fn size_check(len: u64) -> (r: Result<(), Error>)
    ensures
        match r {
            Ok(()) => len <= MAX_OFFSET,
            Err(e) => len > MAX_OFFSET && e.code == "LIMIT" && e.message@
                == "Fichier sup\u{e9}rieur \u{e0} 2^53\u{2212}1 octets."@ && e.status == 400,
        },
{
    if len > MAX_OFFSET {
        Err(Error::of("LIMIT", "Fichier sup\u{e9}rieur \u{e0} 2^53\u{2212}1 octets.", 400))
    } else {
        Ok(())
    }
}

/// The byte range to read of a file of length `len` in generation
/// `generation`: a generation other than the requested one is refused; the
/// limit is the requested one, at most [`SNAPSHOT`]; `after` reads forward
/// from an offset (refused beyond the end), otherwise the range ends at
/// `before` (refused beyond the end) or at the end of the file.
pub open spec fn range_view(
    len: u64,
    generation: Seq<char>,
    requested: Option<Seq<char>>,
    before: Option<Seq<char>>,
    after: Option<Seq<char>>,
    limit: Option<usize>,
) -> Result<(u64, u64), (Seq<char>, Seq<char>, u16)> {
    let lim: int = match limit {
        Some(l) => if l < SNAPSHOT { l as int } else { SNAPSHOT as int },
        None => SNAPSHOT as int,
    };
    if requested matches Some(g) && g != generation {
        Err(("GENERATION_CHANGED"@, "Le fichier a chang\u{e9} de g\u{e9}n\u{e9}ration."@, 409))
    } else {
        match after {
            Some(a) => match offset_view(a) {
                Err(e) => Err(e),
                Ok(start) => if start > len {
                    Err(("GENERATION_CHANGED"@, "Le fichier a \u{e9}t\u{e9} tronqu\u{e9}."@, 409))
                } else {
                    Ok((start, if start + lim < len { (start + lim) as u64 } else { len }))
                },
            },
            None => {
                let end = match before {
                    Some(b) => offset_view(b),
                    None => Ok(len),
                };
                match end {
                    Err(e) => Err(e),
                    Ok(end) => if end > len {
                        Err(("CURSOR_INVALID"@, "Position historique invalide."@, 409))
                    } else {
                        Ok((if end >= lim { (end - lim) as u64 } else { 0 }, end))
                    },
                }
            },
        }
    }
}

/// The byte range to read, as [`range_view`] says.
pub fn content_range(len: u64, generation: &str, options: &ContentOptions) -> (r: Result<(u64, u64), Error>)
    requires
        len <= MAX_OFFSET,
    ensures
        match r {
            Ok(range) => range_view(
                len,
                generation@,
                match options.generation {
                    Some(g) => Some(g@),
                    None => None,
                },
                match options.before {
                    Some(b) => Some(b@),
                    None => None,
                },
                match options.after {
                    Some(a) => Some(a@),
                    None => None,
                },
                options.limit,
            ) == Ok::<(u64, u64), (Seq<char>, Seq<char>, u16)>(range),
            Err(e) => range_view(
                len,
                generation@,
                match options.generation {
                    Some(g) => Some(g@),
                    None => None,
                },
                match options.before {
                    Some(b) => Some(b@),
                    None => None,
                },
                match options.after {
                    Some(a) => Some(a@),
                    None => None,
                },
                options.limit,
            ) == Err::<(u64, u64), (Seq<char>, Seq<char>, u16)>((e.code@, e.message@, e.status)),
        },
{
    match &options.generation {
        Some(g) => if !same_text(&to_chars(g.as_str()), &to_chars(generation)) {
            return Err(Error::of("GENERATION_CHANGED", "Le fichier a chang\u{e9} de g\u{e9}n\u{e9}ration.", 409));
        },
        None => {},
    }
    let lim: u64 = match options.limit {
        Some(l) => if l < SNAPSHOT { l as u64 } else { SNAPSHOT as u64 },
        None => SNAPSHOT as u64,
    };
    match &options.after {
        Some(a) => {
            let start = match offset(a.as_str()) {
                Ok(s) => s,
                Err(e) => return Err(e),
            };
            if start > len {
                return Err(Error::of("GENERATION_CHANGED", "Le fichier a \u{e9}t\u{e9} tronqu\u{e9}.", 409));
            }
            let end = if start + lim < len { start + lim } else { len };
            Ok((start, end))
        },
        None => {
            let end = match &options.before {
                Some(b) => match offset(b.as_str()) {
                    Ok(e) => e,
                    Err(e) => return Err(e),
                },
                None => len,
            };
            if end > len {
                return Err(Error::of("CURSOR_INVALID", "Position historique invalide.", 409));
            }
            let start = if end >= lim { end - lim } else { 0 };
            Ok((start, end))
        },
    }
}

/// The chunk of a read: refused when the file changed during the read (another
/// file, a shorter one, or fewer bytes than the range); otherwise the bytes in
/// standard base64 with the range, the length and whether it starts after 0.
pub fn finish_chunk(
    generation: String,
    start: u64,
    end: u64,
    len: u64,
    data: &Vec<u8>,
    same_identity: bool,
    len_after: u64,
) -> (r: Result<Chunk, Error>)
    requires
        start <= end,
    ensures
        match r {
            Ok(c) => {
                &&& same_identity && len_after >= len && data@.len() == end - start
                &&& c.generation@ == generation@
                &&& c.start@ == decimal(start as nat)
                &&& c.end@ == decimal(end as nat)
                &&& c.size@ == decimal(len as nat)
                &&& c.data@ == base64_standard(data@)
                &&& c.partial_start == (start > 0)
            },
            Err(e) => !(same_identity && len_after >= len && data@.len() == end - start) && e.code
                == "GENERATION_CHANGED" && e.message@ == "Modification pendant la lecture."@ && e.status
                == 409,
        },
{
    if !same_identity || len_after < len || data.len() as u64 != end - start {
        return Err(Error::of("GENERATION_CHANGED", "Modification pendant la lecture.", 409));
    }
    Ok(Chunk {
        generation,
        start: decimal_text(start),
        end: decimal_text(end),
        size: decimal_text(len),
        data: encode_base64(data.as_slice()),
        partial_start: start > 0,
    })
}


/// A page of a directory listing being built: the largest names seen so far,
/// descending, at most one more than a page.
#[derive(Debug)]
pub struct Page {
    items: Vec<(String, Kind)>,
}

/// Names and kinds of page items.
pub open spec fn page_view(s: Seq<(String, Kind)>) -> Seq<(Seq<char>, Kind)> {
    s.map_values(|e: (String, Kind)| (e.0@, e.1))
}

/// Names strictly descending.
pub open spec fn descending(s: Seq<(Seq<char>, Kind)>) -> bool {
    forall|a: int, b: int| 0 <= a < b < s.len() ==> text_lt((#[trigger] s[b]).0, (#[trigger] s[a]).0)
}

/// Where a name goes among descending items: before the first that is not larger.
pub open spec fn place_of(v: Seq<(Seq<char>, Kind)>, name: Seq<char>) -> int {
    match first_where(v, |e: (Seq<char>, Kind)| !text_lt(name, e.0)) {
        Some(p) => p,
        None => v.len() as int,
    }
}

/// The items after offering a name: it replaces an equal name or is inserted
/// in order, and the smallest goes when there are more than a page and one.
pub open spec fn offered(v: Seq<(Seq<char>, Kind)>, name: Seq<char>, kind: Kind) -> Seq<(Seq<char>, Kind)> {
    let p = place_of(v, name);
    let w = if p < v.len() && v[p].0 == name {
        v.update(p, (name, kind))
    } else {
        v.insert(p, (name, kind))
    };
    if w.len() > PAGE + 1 {
        w.drop_last()
    } else {
        w
    }
}

impl Page {
    pub closed spec fn view(&self) -> Seq<(Seq<char>, Kind)> {
        page_view(self.items@)
    }

    pub open spec fn wf(&self) -> bool {
        descending(self@) && self@.len() <= PAGE + 1
    }

    pub fn new() -> (r: Page)
        ensures
            r.wf(),
            r@.len() == 0,
    {
        let r = Page { items: Vec::new() };
        assert(r@ =~= Seq::<(Seq<char>, Kind)>::empty());
        r
    }

    /// Offers an entry of the directory.
    pub fn offer(&mut self, name: String, kind: Kind)
        requires
            old(self).wf(),
        ensures
            final(self).wf(),
            final(self)@ == offered(old(self)@, name@, kind),
    {
        let key = to_chars(name.as_str());
        let ghost v = self@;
        let mut p: usize = 0;
        while p < self.items.len()
            invariant
                key@ == name@,
                self@ == v,
                p <= v.len(),
                forall|j: int| 0 <= j < p ==> !((|e: (Seq<char>, Kind)| !text_lt(name@, e.0))(#[trigger] v[j])),
            ensures
                p <= v.len(),
                self@ == v,
                forall|j: int| 0 <= j < p ==> !((|e: (Seq<char>, Kind)| !text_lt(name@, e.0))(#[trigger] v[j])),
                p < v.len() ==> !text_lt(name@, v[p as int].0),
            decreases v.len() - p,
        {
            assert(v[p as int] == (self.items@[p as int].0@, self.items@[p as int].1));
            if crate::text::compare_text(&to_chars(self.items[p].0.as_str()), &key) != crate::text::TextOrder::Greater {
                break;
            }
            p = p + 1;
        }
        proof {
            lemma_first_where(v, |e: (Seq<char>, Kind)| !text_lt(name@, e.0));
            if p < v.len() {
                lemma_first_where_at(v, |e: (Seq<char>, Kind)| !text_lt(name@, e.0), p as int);
            }
            assert(place_of(v, name@) == p);
        }
        let equal = p < self.items.len() && same_text(&to_chars(self.items[p].0.as_str()), &key);
        if equal {
            self.items.set(p, (name, kind));
            proof {
                assert(self@ =~= v.update(p as int, (name@, kind)));
            }
        } else {
            self.items.insert(p, (name, kind));
            proof {
                assert(self@ =~= v.insert(p as int, (name@, kind)));
            }
        }
        proof {
            let w = self@;
            assert forall|a: int, b: int| 0 <= a < b < w.len() implies text_lt((#[trigger] w[b]).0, (#[trigger] w[a]).0) by {
                if equal {
                    if a == p {
                        assert(v[p as int].0 == name@);
                    } else if b == p {
                        assert(v[p as int].0 == name@);
                    }
                } else {
                    if b < p {
                    } else if b == p {
                        assert(text_lt(name@, v[a].0));
                    } else if a < p {
                        assert(w[b] == v[b - 1]);
                        assert(text_lt(name@, v[a].0));
                        crate::text::lemma_text_lt_total(v[p as int].0, name@);
                        if b - 1 > p {
                            crate::text::lemma_text_lt_transitive(v[b - 1].0, v[p as int].0, name@);
                        }
                        crate::text::lemma_text_lt_transitive(v[b - 1].0, name@, v[a].0);
                    } else if a == p {
                        assert(w[b] == v[b - 1]);
                        crate::text::lemma_text_lt_total(v[p as int].0, name@);
                        if b - 1 > p {
                            crate::text::lemma_text_lt_transitive(v[b - 1].0, v[p as int].0, name@);
                        }
                    } else {
                        assert(w[a] == v[a - 1] && w[b] == v[b - 1]);
                    }
                }
            }
        }
        if self.items.len() > PAGE + 1 {
            self.items.pop();
            proof {
                let w = self@;
                assert forall|a: int, b: int| 0 <= a < b < w.len() implies text_lt((#[trigger] w[b]).0, (#[trigger] w[a]).0) by {
                    let before_pop = if equal { v.update(p as int, (name@, kind)) } else { v.insert(p as int, (name@, kind)) };
                    assert(w[a] == before_pop[a] && w[b] == before_pop[b]);
                }
            }
        }
        proof {
            let w = if equal { v.update(p as int, (name@, kind)) } else { v.insert(p as int, (name@, kind)) };
            assert(self@ =~= if w.len() > PAGE + 1 { w.drop_last() } else { w });
        }
    }

    /// The page (at most [`PAGE`] items, largest names first) and whether
    /// more entries follow.
    pub fn finish(self) -> (r: (Vec<(String, Kind)>, bool))
        requires
            self.wf(),
        ensures
            page_view(r.0@) == self@.take(if self@.len() > PAGE { PAGE as int } else { self@.len() as int }),
            r.1 == (self@.len() > PAGE),
    {
        let more = self.items.len() > PAGE;
        let mut items = self.items;
        let ghost v = items@;
        if more {
            items.truncate(PAGE);
        }
        assert(page_view(items@) =~= page_view(v).take(if v.len() > PAGE { PAGE as int } else { v.len() as int }));
        (items, more)
    }
}

/// Whether a directory entry belongs to the page: hidden names (starting
/// with `.`) are skipped and, after a cursor, only names before the cursor's
/// last name count.
pub fn page_candidate(name: &str, before: Option<&str>) -> (r: bool)
    ensures
        r == (!(name@.len() > 0 && name@[0] == '.') && match before {
            None => true,
            Some(b) => text_lt(name@, b@),
        }),
{
    let n = to_chars(name);
    if n.len() > 0 && n[0] == '.' {
        return false;
    }
    match before {
        None => true,
        Some(b) => crate::text::compare_text(&n, &to_chars(b)) == crate::text::TextOrder::Less,
    }
}

/// The content of a listing cursor.
#[derive(Debug)]
pub struct CursorData {
    pub root: String,
    pub parent: String,
    pub rev: String,
    pub after: String,
}

/// The last name of the previous page, before which a listing resumes: none
/// without a cursor; a cursor of another root, directory or revision (or one
/// that cannot be read) is refused.
pub fn cursor_after(root: &str, parent: &str, rev: &str, cursor: Option<Option<CursorData>>) -> (r: Result<Option<String>, Error>)
    ensures
        match cursor {
            None => r matches Ok(None),
            Some(Some(c)) if c.root@ == root@ && c.parent@ == parent@ && c.rev@ == rev@ => r matches Ok(Some(a))
                && a@ == c.after@,
            Some(_) => r matches Err(e) && e.code == "CURSOR_INVALID" && e.message@
                == "Le dossier a chang\u{e9} : rechargez cette branche."@ && e.status == 409,
        },
{
    match cursor {
        None => Ok(None),
        Some(Some(c)) => {
            if same_text(&to_chars(c.root.as_str()), &to_chars(root)) && same_text(
                &to_chars(c.parent.as_str()),
                &to_chars(parent),
            ) && same_text(&to_chars(c.rev.as_str()), &to_chars(rev)) {
                Ok(Some(c.after))
            } else {
                Err(Error::of("CURSOR_INVALID", "Le dossier a chang\u{e9} : rechargez cette branche.", 409))
            }
        },
        Some(None) => Err(Error::of("CURSOR_INVALID", "Le dossier a chang\u{e9} : rechargez cette branche.", 409)),
    }
}

/// What the disk says of a node, gathered before it is listed.
#[derive(Debug)]
pub struct EntryFacts {
    pub size: u64,
    pub token: String,
    pub allocated: Option<String>,
    /// State, eligibility and reason, from [`crate::management::file_state_rooted`].
    pub state: (String, bool, String),
    /// Whether a finalization action would be allowed, or why not.
    pub check: Result<(), String>,
}

impl<D> FileRoot<D> {
    /// The listing entry of node `id` from the facts gathered on disk.
    pub fn entry(&self, id: &str, facts: EntryFacts) -> (r: Result<Entry, Error>)
        ensures
            match find_id(self.nodes(), id@) {
                None => r matches Err(e) && e.code == "NODE_EXPIRED" && e.status == 409,
                Some(k) => r matches Ok(e) && {
                    &&& e.id@ == id@
                    &&& e.name@ == file_name(self.nodes()[k].relative)
                    &&& e.relative_path@ == self.nodes()[k].relative
                    &&& e.kind == self.nodes()[k].kind
                    &&& e.size@ == decimal(facts.size as nat)
                    &&& e.identity@ == facts.token@
                    &&& e.allocated_size == facts.allocated
                    &&& e.state@ == facts.state.0@
                    &&& e.eligible == facts.check is Ok
                    &&& e.reason@ == match facts.check {
                        Ok(()) => Seq::<char>::empty(),
                        Err(m) => m@,
                    }
                },
            },
    {
        let node = match self.node(id, None) {
            Ok(n) => n,
            Err(e) => return Err(e),
        };
        let path = to_chars(node.relative.as_str());
        let slash = ['/'];
        assert(slash@ =~= seq!['/']);
        let name = match rsplit_once_exec(&path, &slash) {
            Some((_, n)) => from_chars(&n),
            None => from_chars(&path),
        };
        let (eligible, reason) = match facts.check {
            Ok(()) => (true, String::new()),
            Err(m) => (false, m),
        };
        Ok(Entry {
            id: id.to_owned(),
            name,
            relative_path: node.relative,
            kind: node.kind,
            size: decimal_text(facts.size),
            identity: facts.token,
            allocated_size: facts.allocated,
            state: facts.state.0,
            eligible,
            reason,
        })
    }

    /// The root as the client sees it, with why it is not managed, if so.
    pub fn dto(&self, managed: Result<(), String>) -> (r: RootDto)
        ensures
            r.root_id@ == self.id_view(),
            r.node_id@ == self.node_id_view(),
            r.absolute_path@ == self.absolute_view(),
            match managed {
                Ok(()) => r.managed_reason is None,
                Err(m) => r.managed_reason matches Some(t) && t@ == m@,
            },
    {
        RootDto {
            root_id: self.id.clone(),
            node_id: self.node_id.clone(),
            absolute_path: self.absolute.clone(),
            managed_reason: match managed {
                Ok(()) => None,
                Err(m) => Some(m),
            },
        }
    }
}

/// The revision of a directory: its identity, then its modification and
/// change times, joined by `:`.
pub fn revision_text(identity: &str, mtime: i64, mtime_nsec: i64, ctime: i64, ctime_nsec: i64) -> (r: String)
    ensures
        r@ == identity@ + seq![':'] + crate::text::signed_decimal(mtime as int) + seq![':']
            + crate::text::signed_decimal(mtime_nsec as int) + seq![':'] + crate::text::signed_decimal(
            ctime as int,
        ) + seq![':'] + crate::text::signed_decimal(ctime_nsec as int),
{
    let mut out = String::new();
    crate::text::push_str(&mut out, identity);
    crate::text::push_char(&mut out, ':');
    crate::text::push_signed_decimal(&mut out, mtime);
    crate::text::push_char(&mut out, ':');
    crate::text::push_signed_decimal(&mut out, mtime_nsec);
    crate::text::push_char(&mut out, ':');
    crate::text::push_signed_decimal(&mut out, ctime);
    crate::text::push_char(&mut out, ':');
    crate::text::push_signed_decimal(&mut out, ctime_nsec);
    assert(out@ =~= identity@ + seq![':'] + crate::text::signed_decimal(mtime as int) + seq![':']
        + crate::text::signed_decimal(mtime_nsec as int) + seq![':'] + crate::text::signed_decimal(
        ctime as int,
    ) + seq![':'] + crate::text::signed_decimal(ctime_nsec as int));
    out
}

/// What a directory's revision is made of, read from its metadata: its
/// identity, then its modification and change times.
pub struct DirectoryStamp {
    pub identity: String,
    pub mtime: i64,
    pub mtime_nsec: i64,
    pub ctime: i64,
    pub ctime_nsec: i64,
}

/// The revision text of a stamp (see `revision_text`).
pub open spec fn stamp_revision(s: DirectoryStamp) -> Seq<char> {
    s.identity@ + seq![':'] + crate::text::signed_decimal(s.mtime as int) + seq![':']
        + crate::text::signed_decimal(s.mtime_nsec as int) + seq![':'] + crate::text::signed_decimal(
        s.ctime as int,
    ) + seq![':'] + crate::text::signed_decimal(s.ctime_nsec as int)
}

impl<D> FileRoot<D> {
    /// The revision of directory node `id`, given what validating its path
    /// gave: the directory's stamp, or why it failed.
    pub fn directory_revision(&self, id: &str, validated: Result<DirectoryStamp, Error>) -> (r: Result<
        String,
        Error,
    >)
        ensures
            match find_id(self.nodes(), id@) {
                None => r matches Err(e) && e.code == "NODE_EXPIRED" && e.status == 409,
                Some(k) => if self.nodes()[k].kind != Kind::Directory {
                    r matches Err(e) && e.code == "INVALID_REQUEST" && e.status == 400
                } else {
                    match validated {
                        Err(e) => r == Err::<String, Error>(e),
                        Ok(s) => r matches Ok(t) && t@ == stamp_revision(s),
                    }
                },
            },
    {
        match self.node(id, Some(Kind::Directory)) {
            Err(e) => Err(e),
            Ok(_) => match validated {
                Err(e) => Err(e),
                Ok(s) => Ok(revision_text(s.identity.as_str(), s.mtime, s.mtime_nsec, s.ctime, s.ctime_nsec)),
            },
        }
    }
}


/// The checks made before a node of the root is opened: the root must still
/// be the directory that was opened (not a link, same identity), and the path
/// at most 64 components and 4096 bytes, all plain names.
pub open spec fn validate_view(
    root_is_symlink: bool,
    same_identity: bool,
    parts: Seq<crate::storage::PathPart>,
    path_bytes: nat,
) -> Result<(), (Seq<char>, Seq<char>, u16)> {
    if root_is_symlink || !same_identity {
        Err(("ROOT_CHANGED"@, "Le dossier racine a \u{e9}t\u{e9} remplac\u{e9}."@, 409))
    } else if parts.len() > 64 || path_bytes > 4096 {
        Err(("LIMIT"@, "Profondeur ou chemin maximal d\u{e9}pass\u{e9}."@, 400))
    } else if exists|i: int| 0 <= i < parts.len() && #[trigger] parts[i] is Other {
        Err(("FORBIDDEN"@, "Chemin hors racine."@, 403))
    } else {
        Ok(())
    }
}

impl<D> FileRoot<D> {
    /// Whether a node at a path of `parts` (`path_bytes` bytes long) may be
    /// opened, given what the root's path now is: a link or not, and its
    /// identity.
    pub fn validate(
        &self,
        root_is_symlink: bool,
        identity: &str,
        parts: &Vec<crate::storage::PathPart>,
        path_bytes: usize,
    ) -> (r: Result<(), Error>)
        ensures
            match r {
                Ok(()) => validate_view(root_is_symlink, identity@ == self.identity_view(), parts@, path_bytes as nat) is Ok,
                Err(e) => validate_view(root_is_symlink, identity@ == self.identity_view(), parts@, path_bytes as nat)
                    == Err::<(), (Seq<char>, Seq<char>, u16)>((e.code@, e.message@, e.status)),
            },
    {
        if root_is_symlink || !same_text(&to_chars(identity), &to_chars(self.identity())) {
            return Err(Error::of("ROOT_CHANGED", "Le dossier racine a \u{e9}t\u{e9} remplac\u{e9}.", 409));
        }
        if parts.len() > 64 || path_bytes > 4096 {
            return Err(Error::of("LIMIT", "Profondeur ou chemin maximal d\u{e9}pass\u{e9}.", 400));
        }
        let mut i: usize = 0;
        while i < parts.len()
            invariant
                i <= parts@.len(),
                !root_is_symlink && identity@ == self.identity_view(),
                parts@.len() <= 64 && path_bytes <= 4096,
                forall|j: int| 0 <= j < i ==> !(#[trigger] parts@[j] is Other),
            decreases parts@.len() - i,
        {
            match &parts[i] {
                crate::storage::PathPart::Other => {
                    assert(parts@[i as int] is Other);
                    return Err(Error::of("FORBIDDEN", "Chemin hors racine.", 403));
                },
                crate::storage::PathPart::Normal(_) => {},
            }
            i = i + 1;
        }
        Ok(())
    }
}

/// A node could not be opened: a link met on the way (the system says the
/// path loops or goes through a non-directory) is refused, other failures are
/// disk errors.
pub fn open_failure(kind: crate::protocol::IoKind, through_link: bool) -> (r: Error)
    ensures
        through_link ==> r.code == "FORBIDDEN" && r.message@ == "Les liens symboliques ne sont pas suivis."@
            && r.status == 403,
        !through_link ==> (r.code@, r.message@, r.status) == crate::protocol::io_view(kind),
{
    if through_link {
        Error::of("FORBIDDEN", "Les liens symboliques ne sont pas suivis.", 403)
    } else {
        Error::io(kind)
    }
}


/// Where the anchor of a file of `len` bytes starts: its last 64 bytes.
pub fn anchor_offset(len: u64) -> (r: u64)
    ensures
        r == anchor_offset_spec(len),
{
    if len >= 64 {
        len - 64
    } else {
        0
    }
}

/// A root the client asks for must be written as an absolute path of at most
/// 4096 bytes without a NUL character.
pub open spec fn root_input_ok(input: Seq<char>) -> bool {
    input.len() > 0 && input[0] == '/' && byte_len(input) <= 4096 && !input.contains('\0')
}

/// Refuses a root path that is not absolute, too long, or holds a NUL.
pub fn root_input(input: &str) -> (r: Result<(), Error>)
    ensures
        match r {
            Ok(()) => root_input_ok(input@),
            Err(e) => !root_input_ok(input@) && e.code == "INVALID_REQUEST" && e.message@
                == "Saisissez un chemin absolu de dossier."@ && e.status == 400,
        },
{
    let cs = to_chars(input);
    let mut nul = false;
    let mut i: usize = 0;
    while i < cs.len()
        invariant
            i <= cs@.len(),
            nul == exists|j: int| 0 <= j < i && cs@[j] == '\0',
        decreases cs@.len() - i,
    {
        if cs[i] == '\0' {
            nul = true;
        }
        i = i + 1;
    }
    proof {
        if nul {
            let j = choose|j: int| 0 <= j < cs@.len() && cs@[j] == '\0';
            assert(input@[j] == '\0');
        } else {
            assert(!input@.contains('\0'));
        }
    }
    if cs.len() == 0 || cs[0] != '/' || crate::text::byte_length(input) > 4096 || nul {
        Err(Error::of("INVALID_REQUEST", "Saisissez un chemin absolu de dossier.", 400))
    } else {
        Ok(())
    }
}

/// A file opened for reading is the one validated just before and just after:
/// a regular file each time, of the same identity.
pub fn opened_check(before_is_file: bool, opened_is_file: bool, same_before: bool, same_after: bool) -> (r: Result<(), Error>)
    ensures
        match r {
            Ok(()) => before_is_file && opened_is_file && same_before && same_after,
            Err(e) => if !before_is_file {
                e.code == "INVALID_REQUEST" && e.message@ == "Ce n\u{2019}est plus un fichier r\u{e9}gulier."@
                    && e.status == 400
            } else {
                !(opened_is_file && same_before && same_after) && e.code == "GENERATION_CHANGED" && e.message@
                    == "Le fichier a \u{e9}t\u{e9} remplac\u{e9} pendant son ouverture."@ && e.status == 409
            },
        },
{
    if !before_is_file {
        Err(Error::of("INVALID_REQUEST", "Ce n\u{2019}est plus un fichier r\u{e9}gulier.", 400))
    } else if !opened_is_file || !same_before || !same_after {
        Err(Error::of("GENERATION_CHANGED", "Le fichier a \u{e9}t\u{e9} remplac\u{e9} pendant son ouverture.", 409))
    } else {
        Ok(())
    }
}


impl<D> FileRoot<D> {
    /// The nodes whose generation is remembered, in the order remembered.
    pub fn generation_nodes(&self) -> (r: Vec<String>)
        ensures
            r@.map_values(|x: String| x@) == generation_ids(self.generations()),
    {
        let mut out: Vec<String> = Vec::new();
        let mut i: usize = 0;
        while i < self.generations.len()
            invariant
                i <= self.generations@.len(),
                out@.map_values(|x: String| x@) == generation_ids(self.generations@.take(i as int)),
            decreases self.generations@.len() - i,
        {
            let id = self.generations[i].0.clone();
            let ghost before = out@;
            out.push(id);
            assert(self.generations@.take(i + 1) =~= self.generations@.take(i as int).push(self.generations@[i as int]));
            assert(out@ =~= before.push(id));
            assert(out@.map_values(|x: String| x@) =~= before.map_values(|x: String| x@).push(id@));
            assert(generation_ids(self.generations@.take(i + 1)) =~= generation_ids(self.generations@.take(i as int)).push(
                self.generations@[i as int].0@,
            ));
            i = i + 1;
        }
        assert(self.generations@.take(i as int) =~= self.generations@);
        out
    }
}


/// A root must be a directory, not a file.
pub fn directory_check(is_dir: bool) -> (r: Result<(), Error>)
    ensures
        match r {
            Ok(()) => is_dir,
            Err(e) => !is_dir && e.code == "INVALID_REQUEST" && e.message@
                == "Ce chemin d\u{e9}signe un fichier, pas un dossier."@ && e.status == 400,
        },
{
    if is_dir {
        Ok(())
    } else {
        Err(Error::of("INVALID_REQUEST", "Ce chemin d\u{e9}signe un fichier, pas un dossier.", 400))
    }
}

/// A listing reads at most 200,000 entries of a directory: `seen` were read
/// before the next one.
pub fn listing_limit(seen: usize) -> (r: Result<(), Error>)
    ensures
        match r {
            Ok(()) => seen < 200_000,
            Err(e) => seen >= 200_000 && e.code == "LIMIT" && e.message@
                == "Ce dossier d\u{e9}passe la limite de 200 000 entr\u{e9}es."@ && e.status == 400,
        },
{
    if seen >= 200_000 {
        Err(Error::of("LIMIT", "Ce dossier d\u{e9}passe la limite de 200 000 entr\u{e9}es.", 400))
    } else {
        Ok(())
    }
}

/// A listing is refused when its directory's revision changed while it was
/// being read.
pub fn listing_unchanged(before: &str, after: &str) -> (r: Result<(), Error>)
    ensures
        match r {
            Ok(()) => before@ == after@,
            Err(e) => before@ != after@ && e.code == "CURSOR_INVALID" && e.message@
                == "Le dossier a chang\u{e9} pendant la liste : r\u{e9}essayez."@ && e.status == 409,
        },
{
    if same_text(&to_chars(before), &to_chars(after)) {
        Ok(())
    } else {
        Err(Error::of("CURSOR_INVALID", "Le dossier a chang\u{e9} pendant la liste : r\u{e9}essayez.", 409))
    }
}

} // verus!
