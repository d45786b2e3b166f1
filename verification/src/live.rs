//! The live reading of one session: the followed file, its acknowledgement,
//! the watched directories, and what the client is told.
use vstd::prelude::*;
use crate::files::{find_id, FileRoot};
use crate::protocol::{offset, offset_view, ClientMessage, Error, Kind, Selection, BRANCHES, MAX_OFFSET};
use crate::server::error_is;
use crate::text::{byte_len, byte_length, decimal, push_decimal, push_str, same_text, to_chars};

verus! {

/// A chunk sent and not yet acknowledged: its end offset and when it was sent
/// (monotonic milliseconds).
#[derive(Debug)]
pub struct Ack {
    pub end: String,
    pub sent: u64,
}

/// What the server tells a live client.
#[derive(Debug)]
pub enum Notice {
    Subscribed { revision: u64, generation: String, offset: String },
    /// The client is too slow: it must resubscribe.
    Resync { revision: u64 },
    /// The followed file was renamed (finalized); its entry follows.
    Renamed { revision: u64 },
    /// A chunk of the followed file.
    Chunk { revision: u64 },
    /// The file changed generation or the position became invalid.
    Reset { revision: u64, reason: String },
    /// The file cannot be read for now.
    Unavailable { revision: u64, reason: String },
    /// Watched directories changed.
    TreeChanged { ids: Vec<String> },
}

/// The live state of a session.
#[derive(Debug)]
pub struct LiveState {
    pub selection: Option<Selection>,
    pub ack: Option<Ack>,
    /// Watched directories with their last revision.
    pub branches: Vec<(String, String)>,
    /// The last unavailability reported, as `revision:code`.
    pub unavailable: Option<String>,
}

/// The root of the session is the one the client names.
pub open spec fn root_is<D>(root: Option<&FileRoot<D>>, id: Seq<char>) -> bool {
    root matches Some(r) && r.id_view() == id
}

/// Refuses a root other than the session's.
pub fn check_root<D>(root: Option<&FileRoot<D>>, id: &str) -> (r: Result<(), Error>)
    ensures
        match r {
            Ok(()) => root_is(root, id@),
            Err(e) => !root_is(root, id@) && error_is(e, "ROOT_CHANGED", "La racine active a chang\u{e9}.", 409),
        },
{
    match root {
        Some(r) => if same_text(&to_chars(r.id()), &to_chars(id)) {
            Ok(())
        } else {
            Err(Error::of("ROOT_CHANGED", "La racine active a chang\u{e9}.", 409))
        },
        None => Err(Error::of("ROOT_CHANGED", "La racine active a chang\u{e9}.", 409)),
    }
}

/// The revision of a watched directory kept for an identifier, if watched.
pub open spec fn branch_rev(b: Seq<(String, String)>, id: Seq<char>) -> Seq<char>
    decreases b.len(),
{
    if b.len() == 0 {
        Seq::empty()
    } else if b[0].0@ == id {
        b[0].1@
    } else {
        branch_rev(b.drop_first(), id)
    }
}

fn branch_rev_exec(b: &Vec<(String, String)>, id: &str) -> (r: String)
    ensures
        r@ == branch_rev(b@, id@),
{
    let key = to_chars(id);
    let mut i: usize = 0;
    assert(b@.skip(0) =~= b@);
    while i < b.len()
        invariant
            key@ == id@,
            i <= b@.len(),
            branch_rev(b@.skip(i as int), id@) == branch_rev(b@, id@),
        decreases b@.len() - i,
    {
        if i == 0 {
            assert(b@.skip(0) =~= b@);
        }
        assert(b@.skip(i as int).drop_first() =~= b@.skip(i + 1));
        assert(b@.skip(i as int)[0] == b@[i as int]);
        if same_text(&to_chars(b[i].0.as_str()), &key) {
            return b[i].1.clone();
        }
        i = i + 1;
    }
    if b.len() == 0 {
        assert(b@.skip(0) =~= b@);
    }
    assert(b@.skip(i as int) =~= Seq::<(String, String)>::empty());
    String::new()
}

/// Whether `id` names a directory known to the root.
pub open spec fn known_directory<D>(r: &FileRoot<D>, id: Seq<char>) -> bool {
    find_id(r.nodes(), id) matches Some(k) && r.nodes()[k].kind == Kind::Directory
}

/// The refusal of an identifier that is not a known directory.
pub open spec fn directory_refusal<D>(r: &FileRoot<D>, id: Seq<char>, e: Error) -> bool {
    if find_id(r.nodes(), id) is None {
        error_is(e, "NODE_EXPIRED", "Entr\u{e9}e expir\u{e9}e : actualisez son dossier.", 409)
    } else {
        error_is(e, "INVALID_REQUEST", "Type de fichier incorrect.", 400)
    }
}

fn check_directories<D>(r: &FileRoot<D>, ids: &Vec<String>) -> (res: Result<(), Error>)
    ensures
        res is Ok <==> forall|j: int| 0 <= j < ids@.len() ==> (find_id(r.nodes(), (#[trigger] ids@[j])@) matches Some(k)
            && r.nodes()[k].kind == Kind::Directory),
        res matches Err(e) ==> exists|j: int|
            0 <= j < ids@.len() && (forall|i: int| 0 <= i < j ==> known_directory(r, (#[trigger] ids@[i])@))
                && !known_directory(r, ids@[j]@) && directory_refusal(r, (#[trigger] ids@[j])@, e),
{
    let mut i: usize = 0;
    while i < ids.len()
        invariant
            i <= ids@.len(),
            forall|j: int| 0 <= j < i ==> (find_id(r.nodes(), (#[trigger] ids@[j])@) matches Some(k)
                && r.nodes()[k].kind == Kind::Directory),
        decreases ids@.len() - i,
    {
        match r.check_node(ids[i].as_str(), Kind::Directory) {
            Err(e) => {
                assert(!(find_id(r.nodes(), ids@[i as int]@) matches Some(k) && r.nodes()[k].kind == Kind::Directory));
                assert(forall|x: int| 0 <= x < i ==> known_directory(r, (#[trigger] ids@[x])@));
                assert(directory_refusal(r, ids@[i as int]@, e));
                return Err(e);
            },
            Ok(()) => {},
        }
        i = i + 1;
    }
    Ok(())
}

fn renewed_branches(old: &Vec<(String, String)>, ids: &Vec<String>) -> (next: Vec<(String, String)>)
    ensures
        next@.len() == ids@.len(),
        forall|k: int| 0 <= k < ids@.len() ==> (#[trigger] next@[k]).0@ == ids@[k]@
            && next@[k].1@ == branch_rev(old@, ids@[k]@),
{
    let mut next: Vec<(String, String)> = Vec::new();
    let mut j: usize = 0;
    while j < ids.len()
        invariant
            j <= ids@.len(),
            next@.len() == j,
            forall|k: int| 0 <= k < j ==> (#[trigger] next@[k]).0@ == ids@[k]@
                && next@[k].1@ == branch_rev(old@, ids@[k]@),
        decreases ids@.len() - j,
    {
        let rev = branch_rev_exec(old, ids[j].as_str());
        next.push((ids[j].clone(), rev));
        j = j + 1;
    }
    next
}

impl LiveState {
    /// Nothing followed, nothing watched.
    pub fn new() -> (r: LiveState)
        ensures
            r.selection is None,
            r.ack is None,
            r.branches@.len() == 0,
            r.unavailable is None,
    {
        LiveState { selection: None, ack: None, branches: Vec::new(), unavailable: None }
    }

    /// Applies a client message. A subscription needs a file of the session's
    /// root, a valid offset, a revision at most 2^53 − 1 and a generation of at
    /// most 80 bytes; an acknowledgement must match the selection and the chunk
    /// awaiting it; at most 64 directories are watched, all of the session's
    /// root.
    pub fn apply<D>(&mut self, root: Option<&FileRoot<D>>, message: ClientMessage) -> (r: Result<Option<Notice>, Error>)
        ensures
            match message {
                ClientMessage::Subscribe { selection } => if !root_is(root, selection.root_id@) {
                    r matches Err(e) && error_is(e, "ROOT_CHANGED", "La racine active a chang\u{e9}.", 409)
                        && *final(self) == *old(self)
                } else if find_id(root->0.nodes(), selection.file_id@) is None {
                    r matches Err(e) && error_is(e, "NODE_EXPIRED", "Entr\u{e9}e expir\u{e9}e : actualisez son dossier.", 409)
                        && *final(self) == *old(self)
                } else if root->0.nodes()[find_id(root->0.nodes(), selection.file_id@)->0].kind != Kind::File {
                    r matches Err(e) && error_is(e, "INVALID_REQUEST", "Type de fichier incorrect.", 400)
                        && *final(self) == *old(self)
                } else if offset_view(selection.offset@) is Err {
                    r matches Err(e) && offset_view(selection.offset@) == Err::<u64, (Seq<char>, Seq<char>, u16)>(
                        (e.code@, e.message@, e.status),
                    ) && *final(self) == *old(self)
                } else if selection.revision > MAX_OFFSET || byte_len(selection.generation@) > 80 {
                    r matches Err(e) && error_is(e, "INVALID_REQUEST", "S\u{e9}lection invalide.", 400)
                        && *final(self) == *old(self)
                } else {
                    &&& r matches Ok(Some(Notice::Subscribed { revision, generation, offset })) && revision
                        == selection.revision && generation@ == selection.generation@ && offset@ == selection.offset@
                    &&& final(self).selection == Some(selection)
                    &&& final(self).ack is None && final(self).unavailable is None
                    &&& final(self).branches == old(self).branches
                },
                ClientMessage::Unsubscribe => {
                    &&& r matches Ok(None)
                    &&& final(self).selection is None && final(self).ack is None
                    &&& final(self).branches == old(self).branches
                    &&& final(self).unavailable == old(self).unavailable
                },
                ClientMessage::Ack { revision, generation, end } => {
                    let ok = (old(self).selection matches Some(s) && s.revision == revision && s.generation@
                        == generation@) && (old(self).ack matches Some(a) && a.end@ == end@);
                    if ok {
                        &&& r matches Ok(None)
                        &&& final(self).selection matches Some(s) && s.offset@ == end@ && s.revision
                            == revision && s.generation@ == old(self).selection->0.generation@
                            && s.root_id@ == old(self).selection->0.root_id@ && s.file_id@
                            == old(self).selection->0.file_id@
                        &&& final(self).ack is None
                        &&& final(self).branches == old(self).branches
                    } else {
                        &&& r matches Err(e) && error_is(e, "CURSOR_INVALID", "Acquittement p\u{e9}rim\u{e9}.", 409)
                        &&& *final(self) == *old(self)
                    }
                },
                ClientMessage::Branches { root_id, ids } => if ids@.len() > BRANCHES {
                    r matches Err(e) && error_is(e, "LIMIT", "Trop de dossiers ouverts.", 400) && *final(self) == *old(self)
                } else if !root_is(root, root_id@) {
                    r matches Err(e) && error_is(e, "ROOT_CHANGED", "La racine active a chang\u{e9}.", 409)
                        && *final(self) == *old(self)
                } else if !(forall|i: int| 0 <= i < ids@.len() ==> (find_id(root->0.nodes(), (#[trigger] ids@[i])@) matches Some(k)
                    && root->0.nodes()[k].kind == Kind::Directory)) {
                    &&& r matches Err(e) && exists|j: int|
                        0 <= j < ids@.len() && (forall|i: int| 0 <= i < j ==> known_directory(root->0, (#[trigger] ids@[i])@))
                            && !known_directory(root->0, ids@[j]@) && directory_refusal(root->0, (#[trigger] ids@[j])@, e)
                    &&& *final(self) == *old(self)
                } else {
                    &&& r matches Ok(None)
                    &&& final(self).branches@.len() == ids@.len()
                    &&& forall|i: int| 0 <= i < ids@.len() ==> (#[trigger] final(self).branches@[i]).0@ == ids@[i]@
                        && final(self).branches@[i].1@ == branch_rev(old(self).branches@, ids@[i]@)
                    &&& final(self).selection == old(self).selection
                    &&& final(self).ack == old(self).ack
                    &&& final(self).unavailable == old(self).unavailable
                },
            },
    {
        match message {
            ClientMessage::Subscribe { selection } => {
                match check_root(root, selection.root_id.as_str()) {
                    Err(e) => return Err(e),
                    Ok(()) => {},
                }
                let r = root.unwrap();
                match r.check_node(selection.file_id.as_str(), Kind::File) {
                    Err(e) => {
                        assert(root->0 == r);
                        return Err(e);
                    },
                    Ok(()) => {},
                }
                match offset(selection.offset.as_str()) {
                    Err(e) => return Err(e),
                    Ok(_) => {},
                }
                if selection.revision > MAX_OFFSET || byte_length(selection.generation.as_str()) > 80 {
                    return Err(Error::of("INVALID_REQUEST", "S\u{e9}lection invalide.", 400));
                }
                let notice = Notice::Subscribed {
                    revision: selection.revision,
                    generation: selection.generation.clone(),
                    offset: selection.offset.clone(),
                };
                self.selection = Some(selection);
                self.ack = None;
                self.unavailable = None;
                Ok(Some(notice))
            },
            ClientMessage::Unsubscribe => {
                self.selection = None;
                self.ack = None;
                Ok(None)
            },
            ClientMessage::Ack { revision, generation, end } => {
                let matches_selection = match &self.selection {
                    Some(s) => s.revision == revision && same_text(
                        &to_chars(s.generation.as_str()),
                        &to_chars(generation.as_str()),
                    ),
                    None => false,
                };
                let matches_ack = match &self.ack {
                    Some(a) => same_text(&to_chars(a.end.as_str()), &to_chars(end.as_str())),
                    None => false,
                };
                if matches_selection && matches_ack {
                    let s = self.selection.take().unwrap();
                    self.selection = Some(Selection { offset: end, ..s });
                    self.ack = None;
                    Ok(None)
                } else {
                    Err(Error::of("CURSOR_INVALID", "Acquittement p\u{e9}rim\u{e9}.", 409))
                }
            },
            ClientMessage::Branches { root_id, ids } => {
                if ids.len() > BRANCHES {
                    return Err(Error::of("LIMIT", "Trop de dossiers ouverts.", 400));
                }
                match check_root(root, root_id.as_str()) {
                    Err(e) => return Err(e),
                    Ok(()) => {},
                }
                let r = root.unwrap();
                match check_directories(r, &ids) {
                    Err(e) => return Err(e),
                    Ok(()) => {},
                }
                let next = renewed_branches(&self.branches, &ids);
                self.branches = next;
                Ok(None)
            },
        }
    }

    /// Whether the chunk sent has waited longer than `timeout` (milliseconds)
    /// at `now`: the client must then resync, and the revision of the
    /// selection (0 without one) is returned.
    pub fn overdue(&self, now: u64, timeout: u64) -> (r: Option<u64>)
        ensures
            match r {
                Some(rev) => self.ack matches Some(a) && now >= a.sent && now - a.sent > timeout && rev
                    == match self.selection {
                    Some(s) => s.revision,
                    None => 0,
                },
                None => !(self.ack matches Some(a) && now >= a.sent && now - a.sent > timeout),
            },
    {
        match &self.ack {
            Some(a) => if now >= a.sent && now - a.sent > timeout {
                match &self.selection {
                    Some(s) => Some(s.revision),
                    None => Some(0),
                }
            } else {
                None
            },
            None => None,
        }
    }

    /// What a poll reads: the selection, while no chunk awaits its
    /// acknowledgement.
    pub fn to_read(&self) -> (r: Option<&Selection>)
        ensures
            match r {
                Some(s) => self.ack is None && self.selection == Some(*s),
                None => self.ack is Some || self.selection is None,
            },
    {
        if self.ack.is_some() {
            return None;
        }
        self.selection.as_ref()
    }

    /// After reading the followed file at `now`: a chunk (its `start` and `end`
    /// offsets) or the error of the read. A chunk that was unavailable is
    /// subscribed again; a nonempty chunk awaits its acknowledgement; a
    /// generation change or invalid position resets the selection; other
    /// errors are reported once per revision and code (the selection stays for
    /// a missing or unreadable file).
    pub fn after_read(&mut self, read: Result<(String, String), Error>, now: u64) -> (r: Vec<Notice>)
        requires
            old(self).selection is Some,
        ensures
            ({
                let s = old(self).selection->0;
                match read {
                    Ok((start, end)) => {
                        &&& final(self).unavailable is None
                        &&& final(self).selection == old(self).selection
                        &&& r@.len() == (if old(self).unavailable is Some { 1int } else { 0int }) + (if start@
                            != end@ { 1int } else { 0int })
                        &&& old(self).unavailable is Some ==> (r@[0] matches Notice::Subscribed { revision, generation, offset }
                            && revision == s.revision && generation@ == s.generation@ && offset@ == s.offset@)
                        &&& start@ != end@ ==> (r@.last() matches Notice::Chunk { revision } && revision == s.revision)
                            && (final(self).ack matches Some(a) && a.end@ == end@ && a.sent == now)
                        &&& start@ == end@ ==> final(self).ack == old(self).ack
                    },
                    Err(e) => if e.code@ == "GENERATION_CHANGED"@ || e.code@ == "CURSOR_INVALID"@ {
                        &&& final(self).selection is None && final(self).ack is None
                        &&& r@.len() == 1
                        &&& r@[0] matches Notice::Reset { revision, reason } && revision
                            == s.revision && reason@ == e.message@
                    } else {
                        let key = decimal(s.revision as nat) + seq![':'] + e.code@;
                        &&& final(self).selection == if e.code@ == "NOT_FOUND"@ || e.code@ == "PERMISSION"@ {
                            old(self).selection
                        } else {
                            None
                        }
                        &&& final(self).unavailable matches Some(u) && u@ == key
                        &&& final(self).ack == old(self).ack
                        &&& if old(self).unavailable matches Some(u) && u@ == key {
                            r@.len() == 0
                        } else {
                            r@.len() == 1 && (r@[0] matches Notice::Unavailable { revision, reason } && revision
                                == s.revision && reason@ == e.message@)
                        }
                    },
                }
            }),
            final(self).branches == old(self).branches,
    {
        let s = self.selection.as_ref().unwrap();
        let revision = s.revision;
        let mut notices: Vec<Notice> = Vec::new();
        match read {
            Ok((start, end)) => {
                if self.unavailable.is_some() {
                    self.unavailable = None;
                    let s = self.selection.as_ref().unwrap();
                    notices.push(Notice::Subscribed {
                        revision,
                        generation: s.generation.clone(),
                        offset: s.offset.clone(),
                    });
                }
                if !same_text(&to_chars(start.as_str()), &to_chars(end.as_str())) {
                    self.ack = Some(Ack { end, sent: now });
                    notices.push(Notice::Chunk { revision });
                }
                notices
            },
            Err(e) => {
                let code = to_chars(e.code);
                if same_text(&code, &to_chars("GENERATION_CHANGED")) || same_text(&code, &to_chars("CURSOR_INVALID")) {
                    self.selection = None;
                    self.ack = None;
                    notices.push(Notice::Reset { revision, reason: e.message });
                    return notices;
                }
                if !(same_text(&code, &to_chars("NOT_FOUND")) || same_text(&code, &to_chars("PERMISSION"))) {
                    self.selection = None;
                }
                let mut key = String::new();
                push_decimal(&mut key, revision);
                crate::text::push_char(&mut key, ':');
                push_str(&mut key, e.code);
                assert(key@ =~= decimal(revision as nat) + seq![':'] + e.code@);
                let repeated = match &self.unavailable {
                    Some(u) => same_text(&to_chars(u.as_str()), &to_chars(key.as_str())),
                    None => false,
                };
                if !repeated {
                    notices.push(Notice::Unavailable { revision, reason: e.message });
                }
                self.unavailable = Some(key);
                notices
            },
        }
    }

    /// After reading the revisions of the watched directories (in order; `None`
    /// when one cannot be read): changed directories are reported, unreadable
    /// ones stop being watched, and the others keep their new revision.
    pub fn after_revisions(&mut self, revisions: &Vec<Option<String>>) -> (r: Vec<String>)
        requires
            revisions@.len() == old(self).branches@.len(),
        ensures
            r@.map_values(|x: String| x@) == changed_ids(old(self).branches@, revisions@),
            final(self).branches@.map_values(|x: (String, String)| (x.0@, x.1@)) == kept_branches(
                old(self).branches@,
                revisions@,
            ),
            final(self).selection == old(self).selection,
            final(self).ack == old(self).ack,
            final(self).unavailable == old(self).unavailable,
    {
        let mut changed: Vec<String> = Vec::new();
        let mut kept: Vec<(String, String)> = Vec::new();
        let n = self.branches.len();
        let mut i: usize = 0;
        while i < n
            invariant
                n == old(self).branches@.len(),
                revisions@.len() == n,
                i <= n,
                self.branches == old(self).branches,
                changed@.map_values(|x: String| x@) == changed_ids(old(self).branches@.take(i as int), revisions@.take(i as int)),
                kept@.map_values(|x: (String, String)| (x.0@, x.1@)) == kept_branches(
                    old(self).branches@.take(i as int),
                    revisions@.take(i as int),
                ),
            decreases n - i,
        {
            let ghost b = old(self).branches@;
            let ghost v = revisions@;
            assert(b.take(i + 1).drop_last() =~= b.take(i as int));
            assert(v.take(i + 1).drop_last() =~= v.take(i as int));
            let ghost c0 = changed@;
            let ghost k0 = kept@;
            match &revisions[i] {
                Some(rev) => {
                    if !same_text(&to_chars(rev.as_str()), &to_chars(self.branches[i].1.as_str())) {
                        changed.push(self.branches[i].0.clone());
                        assert(changed@.map_values(|x: String| x@) =~= c0.map_values(|x: String| x@).push(b[i as int].0@));
                    } else {
                        assert(changed@ == c0);
                    }
                    kept.push((self.branches[i].0.clone(), rev.clone()));
                    assert(kept@.map_values(|x: (String, String)| (x.0@, x.1@)) =~= k0.map_values(
                        |x: (String, String)| (x.0@, x.1@),
                    ).push((b[i as int].0@, rev@)));
                },
                None => {
                    changed.push(self.branches[i].0.clone());
                    assert(changed@.map_values(|x: String| x@) =~= c0.map_values(|x: String| x@).push(b[i as int].0@));
                },
            }
            i = i + 1;
        }
        assert(old(self).branches@.take(n as int) =~= old(self).branches@);
        assert(revisions@.take(n as int) =~= revisions@);
        self.branches = kept;
        changed
    }
}

/// Watched directories whose revision changed or could not be read.
pub open spec fn changed_ids(b: Seq<(String, String)>, revisions: Seq<Option<String>>) -> Seq<Seq<char>>
    decreases b.len(),
{
    if b.len() == 0 || revisions.len() != b.len() {
        Seq::empty()
    } else {
        let prev = changed_ids(b.drop_last(), revisions.drop_last());
        match revisions.last() {
            Some(rev) => if rev@ != b.last().1@ {
                prev.push(b.last().0@)
            } else {
                prev
            },
            None => prev.push(b.last().0@),
        }
    }
}

/// Watched directories still readable, with their new revision.
pub open spec fn kept_branches(b: Seq<(String, String)>, revisions: Seq<Option<String>>) -> Seq<(Seq<char>, Seq<char>)>
    decreases b.len(),
{
    if b.len() == 0 || revisions.len() != b.len() {
        Seq::empty()
    } else {
        let prev = kept_branches(b.drop_last(), revisions.drop_last());
        match revisions.last() {
            Some(rev) => prev.push((b.last().0@, rev@)),
            None => prev,
        }
    }
}

} // verus!
