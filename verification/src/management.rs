//! Management decisions of the local reader: what a file's state allows, and
//! the bounded size inventory of a root.
use vstd::prelude::*;
use crate::storage::{spec_parse_log_name, FileState, LogName};
use crate::text::{decimal, push_char, push_str, same_text, to_chars};
use crate::time::{chrono_parse_day, parse_day};

verus! {

/// The text of an optional check failure.
pub open spec fn failure_view(r: Result<(), String>) -> Result<(), Seq<char>> {
    match r {
        Ok(()) => Ok(()),
        Err(e) => Err(e@),
    }
}

/// The state, whether finalization actions are allowed, and why not: a root
/// that is not a private storage root, a directory chain that is not private,
/// a path outside the hourly layout or a name that is not a segment are
/// `legacy`; a run without its lease file is `unknown`; an active segment, or
/// one whose hour has not ended at `now`, is not eligible.
pub open spec fn file_state_view(
    managed: Result<(), Seq<char>>,
    chain: Result<(), Seq<char>>,
    layout: bool,
    name: Option<Seq<char>>,
    lease_present: bool,
    now: i64,
) -> (Seq<char>, bool, Seq<char>) {
    if managed is Err {
        ("legacy"@, false, managed->Err_0)
    } else if chain is Err {
        ("legacy"@, false, chain->Err_0)
    } else if !layout {
        ("legacy"@, false, "Ancien format ou racine g\u{e9}n\u{e9}rique : consultation seule."@)
    } else {
        match (match name {
            Some(n) => spec_parse_log_name(n),
            None => None,
        }) {
            None => ("legacy"@, false, "Format horaire non reconnu."@),
            Some(log) => if !lease_present {
                ("unknown"@, false, "M\u{e9}tadonn\u{e9}es du run indisponibles."@)
            } else {
                let state = match log.state {
                    FileState::Active => "active"@,
                    FileState::Closed => "closed"@,
                    FileState::Recovered => "recovered"@,
                };
                if log.state == FileState::Active {
                    (state, false, "Fichier actif : \u{e9}criture non finalis\u{e9}e."@)
                } else if !(log.hour_start + 3600 <= i64::MAX && log.hour_start + 3600 <= now) {
                    (state, false, "L\u{2019}intervalle horaire n\u{2019}est pas termin\u{e9}."@)
                } else {
                    (state, true, ""@)
                }
            },
        }
    }
}

/// The state of a file from the checks made on disk: the root's management
/// check, the privacy of the directories leading to the file, whether its path
/// follows the hourly layout, its file name, whether the lease file of the run
/// that its name gives exists, and the current UNIX time.
pub fn file_state_rooted(
    managed: Result<(), String>,
    chain: Result<(), String>,
    layout: bool,
    file_name: Option<&str>,
    lease_present: bool,
    now: i64,
) -> (r: (String, bool, String))
    ensures
        (r.0@, r.1, r.2@) == file_state_view(
            failure_view(managed),
            failure_view(chain),
            layout,
            match file_name {
                Some(n) => Some(n@),
                None => None,
            },
            lease_present,
            now,
        ),
{
    if let Err(reason) = managed {
        return ("legacy".to_owned(), false, reason);
    }
    if let Err(reason) = chain {
        return ("legacy".to_owned(), false, reason);
    }
    if !layout {
        return (
            "legacy".to_owned(),
            false,
            "Ancien format ou racine g\u{e9}n\u{e9}rique : consultation seule.".to_owned(),
        );
    }
    let log = match file_name {
        Some(n) => LogName::parse(n),
        None => None,
    };
    let log = match log {
        Some(l) => l,
        None => return ("legacy".to_owned(), false, "Format horaire non reconnu.".to_owned()),
    };
    if !lease_present {
        return ("unknown".to_owned(), false, "M\u{e9}tadonn\u{e9}es du run indisponibles.".to_owned());
    }
    let state = match log.state {
        FileState::Active => "active".to_owned(),
        FileState::Closed => "closed".to_owned(),
        FileState::Recovered => "recovered".to_owned(),
    };
    if log.state == FileState::Active {
        (state, false, "Fichier actif : \u{e9}criture non finalis\u{e9}e.".to_owned())
    } else if !log.ended(now) {
        (state, false, "L\u{2019}intervalle horaire n\u{2019}est pas termin\u{e9}.".to_owned())
    } else {
        (state, true, "".to_owned())
    }
}

/// The checks made on disk for one file of a root that could be opened: see
/// `file_state_rooted`.
pub struct FileFacts {
    pub managed: Result<(), String>,
    pub chain: Result<(), String>,
    pub layout: bool,
    pub file_name: Option<String>,
    pub lease_present: bool,
}

/// The state of a file at UNIX time `now`: `legacy` and read only where its
/// root could not be opened (`rooted` is `None`); otherwise as
/// `file_state_rooted` decides from the checks made on disk.
pub fn file_state(rooted: Option<FileFacts>, now: i64) -> (r: (String, bool, String))
    ensures
        (r.0@, r.1, r.2@) == match rooted {
            None => ("legacy"@, false, "Racine indisponible : consultation seule."@),
            Some(f) => file_state_view(
                failure_view(f.managed),
                failure_view(f.chain),
                f.layout,
                match f.file_name {
                    Some(n) => Some(n@),
                    None => None,
                },
                f.lease_present,
                now,
            ),
        },
{
    match rooted {
        None => ("legacy".to_owned(), false, "Racine indisponible : consultation seule.".to_owned()),
        Some(f) => {
            let name: Option<&str> = match &f.file_name {
                Some(n) => Some(n.as_str()),
                None => None,
            };
            file_state_rooted(f.managed, f.chain, f.layout, name, f.lease_present, now)
        },
    }
}

/// Whether a day directory name is a day before `today` (year, month, day).
pub open spec fn old_day_view(part: Option<Seq<char>>, today: (i32, u32, u32)) -> bool {
    match part {
        Some(p) => match chrono_parse_day(p) {
            Some(d) => d.0 < today.0 || (d.0 == today.0 && (d.1 < today.1 || (d.1 == today.1 && d.2
                < today.2))),
            None => false,
        },
        None => false,
    }
}

/// Whether the first component of a path names a day before `today`.
pub fn old_day(part: Option<&str>, today: (i32, u32, u32)) -> (r: bool)
    ensures
        r == old_day_view(
            match part {
                Some(p) => Some(p@),
                None => None,
            },
            today,
        ),
{
    match part {
        Some(p) => match parse_day(p) {
            Some(d) => d.0 < today.0 || (d.0 == today.0 && (d.1 < today.1 || (d.1 == today.1 && d.2
                < today.2))),
            None => false,
        },
        None => false,
    }
}

/// The deepest directory an inventory descends into.
pub const SCAN_DEPTH: usize = 64;

/// The most entries an inventory walks through.
pub const SCAN_ENTRIES: usize = 200_000;

/// Whether an inventory goes into a directory at `depth` after `seen`
/// entries, while its job is still wanted (`alive`).
pub fn scan_continue(depth: usize, seen: usize, alive: bool) -> (r: bool)
    ensures
        r == (depth <= 64 && seen < 200_000 && alive),
{
    depth <= SCAN_DEPTH && seen < SCAN_ENTRIES && alive
}

/// Whether an inventory may read one more entry after `seen`.
pub fn entries_left(seen: usize) -> (r: bool)
    ensures
        r == (seen < 200_000),
{
    seen < SCAN_ENTRIES
}

/// The notice of an inventory that reached its entry limit after `seen`
/// entries; `None` below the limit.
pub fn scan_limit_notice(seen: usize) -> (r: Option<String>)
    ensures
        match r {
            Some(t) => seen >= 200_000 && t@ == "Limite de 200 000 entr\u{e9}es parcourues atteinte."@,
            None => seen < 200_000,
        },
{
    if seen >= SCAN_ENTRIES {
        Some("Limite de 200 000 entr\u{e9}es parcourues atteinte.".to_owned())
    } else {
        None
    }
}

/// Whether a directory just inventoried is cleaned up: in a managed root,
/// when the first component of its path names a day before `today`.
pub fn cleanup_due(managed: bool, first: Option<&str>, today: (i32, u32, u32)) -> (r: bool)
    ensures
        r == (managed && old_day_view(
            match first {
                Some(p) => Some(p@),
                None => None,
            },
            today,
        )),
{
    managed && old_day(first, today)
}

/// Sizes of a file or directory: content bytes, allocated bytes when the
/// platform tells them, and whether the figure is incomplete.
#[derive(Debug)]
pub struct Size {
    pub content: String,
    pub allocated: Option<String>,
    pub partial: bool,
}

/// Total of the allocated sizes of distinct files.
pub open spec fn blocks_total(s: Seq<(u64, u64, u128)>) -> int
    decreases s.len(),
{
    if s.len() == 0 {
        0
    } else {
        blocks_total(s.drop_last()) + s.last().2
    }
}

/// The allocated size of each file, by (device, inode); later entries win.
pub open spec fn blocks_map(s: Seq<(u64, u64, u128)>) -> Map<(u64, u64), u128>
    decreases s.len(),
{
    if s.len() == 0 {
        Map::empty()
    } else {
        blocks_map(s.drop_last()).insert((s.last().0, s.last().1), s.last().2)
    }
}

/// No two entries name the same file.
pub open spec fn distinct_files(s: Seq<(u64, u64, u128)>) -> bool {
    forall|i: int, j: int|
        0 <= i < j < s.len() ==> ((#[trigger] s[i]).0, s[i].1) != ((#[trigger] s[j]).0, s[j].1)
}

/// A running total of a traversal: content bytes, allocated bytes per file
/// (each file counted once), whether it is incomplete, and whether allocated
/// sizes are unavailable.
#[derive(Debug)]
pub struct Sum {
    pub bytes: u128,
    pub blocks: Vec<(u64, u64, u128)>,
    pub partial: bool,
    pub unavailable: bool,
}

/// Appends the decimal writing of a `u128`.
pub fn push_decimal_wide(out: &mut String, n: u128)
    ensures
        final(out)@ == old(out)@ + decimal(n as nat),
    decreases n,
{
    if n >= 10 {
        push_decimal_wide(out, n / 10);
    }
    let d = (n % 10) as u8;
    push_char(out, (d + 48) as char);
    assert(old(out)@ + decimal(n as nat) =~= final(out)@) by {
        if n >= 10 {
            assert(decimal(n as nat) == decimal((n / 10) as nat).push(
                crate::text::digit_char((n % 10) as nat),
            ));
        }
    }
}

proof fn lemma_blocks_step(s: Seq<(u64, u64, u128)>, i: int)
    requires
        0 <= i < s.len(),
    ensures
        blocks_total(s.take(i + 1)) == blocks_total(s.take(i)) + s[i].2,
        blocks_map(s.take(i + 1)) == blocks_map(s.take(i)).insert((s[i].0, s[i].1), s[i].2),
{
    assert(s.take(i + 1).drop_last() =~= s.take(i));
}

proof fn lemma_blocks_total_nonneg(s: Seq<(u64, u64, u128)>)
    ensures
        blocks_total(s) >= 0,
    decreases s.len(),
{
    if s.len() > 0 {
        lemma_blocks_total_nonneg(s.drop_last());
    }
}

impl Sum {
    /// Nothing counted yet.
    pub fn new() -> (r: Sum)
        ensures
            r.bytes == 0,
            r.blocks@.len() == 0,
            !r.partial,
            !r.unavailable,
    {
        Sum { bytes: 0, blocks: Vec::new(), partial: false, unavailable: false }
    }

    /// The sizes: content bytes, allocated bytes unless unavailable, and
    /// whether the figure is incomplete.
    pub fn size(&self) -> (r: Size)
        requires
            !self.unavailable ==> blocks_total(self.blocks@) <= u128::MAX,
        ensures
            r.content@ == decimal(self.bytes as nat),
            r.partial == self.partial,
            match r.allocated {
                Some(a) => !self.unavailable && a@ == decimal(blocks_total(self.blocks@) as nat),
                None => self.unavailable,
            },
    {
        let mut content = String::new();
        push_decimal_wide(&mut content, self.bytes);
        let allocated = if self.unavailable {
            None
        } else {
            let mut total: u128 = 0;
            let mut i: usize = 0;
            proof {
                assert(self.blocks@.take(0) =~= Seq::<(u64, u64, u128)>::empty());
            }
            while i < self.blocks.len()
                invariant
                    i <= self.blocks@.len(),
                    total == blocks_total(self.blocks@.take(i as int)),
                    blocks_total(self.blocks@) <= u128::MAX,
                decreases self.blocks@.len() - i,
            {
                proof {
                    lemma_blocks_step(self.blocks@, i as int);
                    lemma_blocks_prefix(self.blocks@, i + 1);
                }
                total = total + self.blocks[i].2;
                i = i + 1;
            }
            assert(self.blocks@.take(self.blocks@.len() as int) =~= self.blocks@);
            let mut a = String::new();
            push_decimal_wide(&mut a, total);
            assert(a@ =~= decimal(total as nat));
            Some(a)
        };
        assert(content@ =~= decimal(self.bytes as nat));
        Size { content, allocated, partial: self.partial }
    }

    /// Adds another total: bytes add up, files counted once (its sizes win),
    /// incompleteness and unavailability carry over.
    pub fn add(&mut self, other: Sum)
        requires
            old(self).bytes + other.bytes <= u128::MAX,
            distinct_files(old(self).blocks@),
        ensures
            final(self).bytes == old(self).bytes + other.bytes,
            distinct_files(final(self).blocks@),
            blocks_map(final(self).blocks@) == blocks_map(old(self).blocks@).union_prefer_right(
                blocks_map(other.blocks@),
            ),
            final(self).partial == (old(self).partial || other.partial),
            final(self).unavailable == (old(self).unavailable || other.unavailable),
    {
        self.bytes = self.bytes + other.bytes;
        self.partial = self.partial || other.partial;
        self.unavailable = self.unavailable || other.unavailable;
        let ghost o = other.blocks@;
        let mut i: usize = 0;
        proof {
            assert(o.take(0) =~= Seq::<(u64, u64, u128)>::empty());
            assert(blocks_map(old(self).blocks@).union_prefer_right(Map::empty()) =~= blocks_map(
                old(self).blocks@,
            ));
        }
        while i < other.blocks.len()
            invariant
                o == other.blocks@,
                i <= o.len(),
                self.bytes == old(self).bytes + other.bytes,
                self.partial == (old(self).partial || other.partial),
                self.unavailable == (old(self).unavailable || other.unavailable),
                distinct_files(self.blocks@),
                blocks_map(self.blocks@) == blocks_map(old(self).blocks@).union_prefer_right(
                    blocks_map(o.take(i as int)),
                ),
            decreases o.len() - i,
        {
            let (dev, ino, v) = other.blocks[i];
            put_block(&mut self.blocks, dev, ino, v);
            proof {
                lemma_blocks_step(o, i as int);
                assert(blocks_map(self.blocks@) =~= blocks_map(old(self).blocks@).union_prefer_right(
                    blocks_map(o.take(i + 1)),
                ));
            }
            i = i + 1;
        }
        assert(o.take(o.len() as int) =~= o);
    }
}

proof fn lemma_blocks_prefix(s: Seq<(u64, u64, u128)>, i: int)
    requires
        0 <= i <= s.len(),
    ensures
        blocks_total(s.take(i)) <= blocks_total(s),
    decreases s.len() - i,
{
    if i < s.len() {
        lemma_blocks_prefix(s, i + 1);
        lemma_blocks_step(s, i);
    } else {
        assert(s.take(i) =~= s);
    }
}

proof fn lemma_blocks_map_contains(s: Seq<(u64, u64, u128)>, k: (u64, u64))
    requires
        distinct_files(s),
    ensures
        blocks_map(s).contains_key(k) <==> exists|i: int| 0 <= i < s.len() && (s[i].0, s[i].1) == k,
        forall|i: int| 0 <= i < s.len() && (s[i].0, s[i].1) == k ==> blocks_map(s)[k] == s[i].2,
    decreases s.len(),
{
    if s.len() > 0 {
        let t = s.drop_last();
        lemma_blocks_map_contains(t, k);
        if exists|i: int| 0 <= i < t.len() && (t[i].0, t[i].1) == k {
            let i = choose|i: int| 0 <= i < t.len() && (t[i].0, t[i].1) == k;
            assert(s[i] == t[i]);
        }
        if exists|i: int| 0 <= i < s.len() && (s[i].0, s[i].1) == k {
            let i = choose|i: int| 0 <= i < s.len() && (s[i].0, s[i].1) == k;
            if i < s.len() - 1 {
                assert(t[i] == s[i]);
            }
        }
        assert forall|i: int| 0 <= i < s.len() && (s[i].0, s[i].1) == k implies blocks_map(s)[k] == s[i].2 by {
            if i < s.len() - 1 {
                assert(t[i] == s[i]);
                assert(((s[i].0, s[i].1)) != ((s[s.len() - 1].0, s[s.len() - 1].1)));
            }
        }
    }
}

/// Sets the allocated size of a file, replacing the one it had.
fn put_block(blocks: &mut Vec<(u64, u64, u128)>, dev: u64, ino: u64, v: u128)
    requires
        distinct_files(old(blocks)@),
    ensures
        distinct_files(final(blocks)@),
        blocks_map(final(blocks)@) == blocks_map(old(blocks)@).insert((dev, ino), v),
{
    let ghost b0 = blocks@;
    let mut i: usize = 0;
    while i < blocks.len()
        invariant
            blocks@ == b0,
            b0 == old(blocks)@,
            distinct_files(b0),
            i <= b0.len(),
            forall|j: int| 0 <= j < i ==> ((#[trigger] b0[j]).0, b0[j].1) != (dev, ino),
        decreases b0.len() - i,
    {
        if blocks[i].0 == dev && blocks[i].1 == ino {
            blocks.set(i, (dev, ino, v));
            proof {
                lemma_blocks_map_contains(b0, (dev, ino));
                assert(distinct_files(blocks@)) by {
                    assert forall|a: int, b: int|
                        0 <= a < b < blocks@.len() implies ((#[trigger] blocks@[a]).0, blocks@[a].1)
                            != ((#[trigger] blocks@[b]).0, blocks@[b].1) by {
                        assert(((blocks@[a].0, blocks@[a].1)) == ((b0[a].0, b0[a].1)));
                        assert(((blocks@[b].0, blocks@[b].1)) == ((b0[b].0, b0[b].1)));
                    }
                }
                lemma_blocks_map_contains(blocks@, (dev, ino));
                assert forall|k: (u64, u64)| #[trigger] blocks_map(blocks@).contains_key(k) <==> blocks_map(
                    b0,
                ).insert((dev, ino), v).contains_key(k) by {
                    lemma_blocks_map_contains(b0, k);
                    lemma_blocks_map_contains(blocks@, k);
                    if exists|j: int| 0 <= j < b0.len() && (b0[j].0, b0[j].1) == k {
                        let j = choose|j: int| 0 <= j < b0.len() && (b0[j].0, b0[j].1) == k;
                        assert((blocks@[j].0, blocks@[j].1) == k);
                    }
                    if exists|j: int| 0 <= j < blocks@.len() && (blocks@[j].0, blocks@[j].1) == k {
                        let j = choose|j: int| 0 <= j < blocks@.len() && (blocks@[j].0, blocks@[j].1) == k;
                        assert((b0[j].0, b0[j].1) == k);
                    }
                }
                assert forall|k: (u64, u64)| #[trigger] blocks_map(blocks@).contains_key(k) implies blocks_map(blocks@)[k]
                    == blocks_map(b0).insert((dev, ino), v)[k] by {
                    lemma_blocks_map_contains(b0, k);
                    lemma_blocks_map_contains(blocks@, k);
                    let j = choose|j: int| 0 <= j < blocks@.len() && (blocks@[j].0, blocks@[j].1) == k;
                    if k != (dev, ino) {
                        assert(blocks@[j] == b0[j]);
                    }
                }
                assert(blocks_map(blocks@) =~= blocks_map(b0).insert((dev, ino), v));
            }
            return;
        }
        i = i + 1;
    }
    blocks.push((dev, ino, v));
    proof {
        assert(blocks@.drop_last() =~= b0);
        assert forall|a: int, b: int|
            0 <= a < b < blocks@.len() implies ((#[trigger] blocks@[a]).0, blocks@[a].1) != (
            (#[trigger] blocks@[b]).0,
            blocks@[b].1,
        ) by {
            if b < b0.len() {
                assert(blocks@[a] == b0[a] && blocks@[b] == b0[b]);
            } else {
                assert(blocks@[a] == b0[a]);
            }
        }
    }
}

/// A size inventory of a root.
#[derive(Debug)]
pub struct Inventory {
    /// Sizes by relative path.
    pub items: Vec<(String, Size)>,
    pub sampled_at: String,
    pub partial: bool,
    pub busy: bool,
    pub notices: Vec<String>,
}

/// Paths of inventory items.
pub open spec fn item_paths(s: Seq<(String, Size)>) -> Seq<Seq<char>> {
    s.map_values(|e: (String, Size)| e.0@)
}

impl Inventory {
    /// An empty inventory.
    pub fn new() -> (r: Inventory)
        ensures
            r.items@.len() == 0,
            r.sampled_at@.len() == 0,
            !r.partial,
            !r.busy,
            r.notices@.len() == 0,
    {
        Inventory {
            items: Vec::new(),
            sampled_at: String::new(),
            partial: false,
            busy: false,
            notices: Vec::new(),
        }
    }

    /// Records a notice: the inventory becomes partial; at most 16 notices
    /// are kept.
    pub fn notice(&mut self, s: &str)
        ensures
            final(self).partial,
            final(self).items@ == old(self).items@,
            old(self).notices@.len() < 16 ==> final(self).notices@.len() == old(self).notices@.len() + 1
                && final(self).notices@.drop_last() == old(self).notices@ && final(self).notices@.last()@
                == s@,
            old(self).notices@.len() >= 16 ==> final(self).notices@ == old(self).notices@,
    {
        self.partial = true;
        if self.notices.len() < 16 {
            self.notices.push(s.to_owned());
            assert(self.notices@.drop_last() =~= old(self).notices@);
        }
    }

    /// Records the size of a path, replacing its previous size; beyond 10,000
    /// paths only the root (empty path) is still recorded, and a notice says so.
    pub fn save(&mut self, path: String, size: Size)
        ensures
            old(self).items@.len() < 10000 || path@.len() == 0 ==> {
                &&& final(self).partial == old(self).partial
                &&& final(self).notices@ == old(self).notices@
                &&& match find_path(item_paths(old(self).items@), path@) {
                    Some(k) => final(self).items@ == old(self).items@.update(k, (path, size)),
                    None => final(self).items@ == old(self).items@.push((path, size)),
                }
            },
            !(old(self).items@.len() < 10000 || path@.len() == 0) ==> {
                &&& final(self).items@ == old(self).items@
                &&& final(self).partial
            },
    {
        if self.items.len() < 10000 || path.as_str().is_empty() {
            let key = to_chars(path.as_str());
            let mut i: usize = 0;
            while i < self.items.len()
                invariant
                    self.items@ == old(self).items@,
                    self.partial == old(self).partial,
                    self.notices@ == old(self).notices@,
                    old(self).items@.len() < 10000 || path@.len() == 0,
                    key@ == path@,
                    i <= self.items@.len(),
                    forall|j: int| 0 <= j < i ==> #[trigger] item_paths(self.items@)[j] != path@,
                decreases self.items@.len() - i,
            {
                if same_text(&to_chars(self.items[i].0.as_str()), &key) {
                    proof {
                        lemma_find_path(item_paths(self.items@), path@, i as int);
                    }
                    self.items.set(i, (path, size));
                    return;
                }
                i = i + 1;
            }
            proof {
                lemma_find_path_none(item_paths(self.items@), path@);
            }
            self.items.push((path, size));
        } else {
            self.notice("Cache de tailles limit\u{e9} \u{e0} 10 000 entr\u{e9}es.");
        }
    }
}

/// The first index of `p` in `s`.
pub open spec fn find_path(s: Seq<Seq<char>>, p: Seq<char>) -> Option<int>
    decreases s.len(),
{
    if s.len() == 0 {
        None
    } else if s[0] == p {
        Some(0)
    } else {
        match find_path(s.drop_first(), p) {
            Some(k) => Some(k + 1),
            None => None,
        }
    }
}

proof fn lemma_find_path(s: Seq<Seq<char>>, p: Seq<char>, i: int)
    requires
        0 <= i < s.len(),
        s[i] == p,
        forall|j: int| 0 <= j < i ==> s[j] != p,
    ensures
        find_path(s, p) == Some(i),
    decreases i,
{
    if i > 0 {
        lemma_find_path(s.drop_first(), p, i - 1);
    }
}

proof fn lemma_find_path_none(s: Seq<Seq<char>>, p: Seq<char>)
    requires
        forall|j: int| 0 <= j < s.len() ==> s[j] != p,
    ensures
        find_path(s, p) is None,
    decreases s.len(),
{
    if s.len() > 0 {
        lemma_find_path_none(s.drop_first(), p);
    }
}


/// What the reader found at a node of a storage root, checked in turn: it
/// could not be opened, its metadata could not be read, or its kind, owner,
/// mode bits and whether it carries an extended ACL (only reported where the
/// platform has them).
#[derive(Clone, Copy, Debug)]
pub enum NodeFacts {
    Unopened,
    NoMetadata,
    Found { directory: bool, uid: u32, mode: u32, extended_acl: bool },
}

/// Owned by the effective user and writable by no one else.
pub open spec fn private_to(uid: u32, mode: u32, euid: u32) -> bool {
    uid == euid && mode & 0o022u32 == 0
}

/// Why a technical node of the root (a directory when `directory` is
/// expected) makes the root read-only, if it does.
pub open spec fn root_node_reason(expect_directory: bool, f: NodeFacts, euid: u32) -> Option<Seq<char>> {
    match f {
        NodeFacts::Unopened => Some("M\u{e9}tadonn\u{e9}es RLOGGER incompl\u{e8}tes : consultation seule."@),
        NodeFacts::NoMetadata => Some("M\u{e9}tadonn\u{e9}es RLOGGER indisponibles : consultation seule."@),
        NodeFacts::Found { directory, uid, mode, extended_acl } => if expect_directory != directory {
            Some("M\u{e9}tadonn\u{e9}es RLOGGER invalides : consultation seule."@)
        } else if !private_to(uid, mode, euid) {
            Some("Racine RLOGGER non priv\u{e9}e ou appartenant \u{e0} un autre compte : consultation seule."@)
        } else if extended_acl {
            Some("ACL \u{e9}tendue sur la racine RLOGGER : consultation seule."@)
        } else {
            None
        },
    }
}

/// What the marker file gave: it could not be opened, its first 128 bytes
/// are not UTF-8 text, or their text.
#[derive(Debug)]
pub enum MarkerRead {
    Unopened,
    Unreadable,
    Text(String),
}

pub open spec fn marker_reason(m: MarkerRead) -> Option<Seq<char>> {
    match m {
        MarkerRead::Unopened => Some("Marqueur RLOGGER invalide : consultation seule."@),
        MarkerRead::Unreadable => Some("Marqueur RLOGGER illisible : consultation seule."@),
        MarkerRead::Text(t) => if t@ == crate::storage::MARKER@ {
            None
        } else {
            Some("Marqueur RLOGGER invalide : consultation seule."@)
        },
    }
}

/// The first reason among the technical nodes (root, technical directory,
/// format file, gate file, in that order), from node `i` on.
pub open spec fn nodes_reason(nodes: Seq<NodeFacts>, i: int, euid: u32) -> Option<Seq<char>>
    decreases nodes.len() - i,
{
    if i < 0 || i >= nodes.len() {
        None
    } else {
        match root_node_reason(i < 2, nodes[i], euid) {
            Some(r) => Some(r),
            None => nodes_reason(nodes, i + 1, euid),
        }
    }
}

/// Whether a root is managed, or why it is only browsed: it must be named
/// `rlogger`, its technical nodes must be of the right kind and private, and
/// its marker must be exactly [`crate::storage::MARKER`].
pub open spec fn managed_view(name: Option<Seq<char>>, nodes: Seq<NodeFacts>, marker: MarkerRead, euid: u32) -> Result<(), Seq<char>> {
    if name != Some("rlogger"@) {
        Err("Racine non nomm\u{e9}e rlogger : consultation seule."@)
    } else {
        match nodes_reason(nodes, 0, euid) {
            Some(r) => Err(r),
            None => match marker_reason(marker) {
                Some(r) => Err(r),
                None => Ok(()),
            },
        }
    }
}

fn private_exec(uid: u32, mode: u32, euid: u32) -> (r: bool)
    ensures
        r == private_to(uid, mode, euid),
{
    uid == euid && mode & 0o022u32 == 0
}

fn root_node_check(expect_directory: bool, f: NodeFacts, euid: u32) -> (r: Option<String>)
    ensures
        match r {
            Some(t) => root_node_reason(expect_directory, f, euid) == Some(t@),
            None => root_node_reason(expect_directory, f, euid) is None,
        },
{
    match f {
        NodeFacts::Unopened => Some("M\u{e9}tadonn\u{e9}es RLOGGER incompl\u{e8}tes : consultation seule.".to_owned()),
        NodeFacts::NoMetadata => Some("M\u{e9}tadonn\u{e9}es RLOGGER indisponibles : consultation seule.".to_owned()),
        NodeFacts::Found { directory, uid, mode, extended_acl } => if expect_directory != directory {
            Some("M\u{e9}tadonn\u{e9}es RLOGGER invalides : consultation seule.".to_owned())
        } else if !private_exec(uid, mode, euid) {
            Some("Racine RLOGGER non priv\u{e9}e ou appartenant \u{e0} un autre compte : consultation seule.".to_owned())
        } else if extended_acl {
            Some("ACL \u{e9}tendue sur la racine RLOGGER : consultation seule.".to_owned())
        } else {
            None
        },
    }
}

/// Whether the root named `name` is managed, from what was found at its
/// technical nodes (root, technical directory, format file, gate file) and
/// in its marker, for effective user `euid`.
pub fn managed_reason(name: Option<&str>, nodes: &Vec<NodeFacts>, marker: MarkerRead, euid: u32) -> (r: Result<(), String>)
    ensures
        failure_view(r) == managed_view(
            match name {
                Some(n) => Some(n@),
                None => None,
            },
            nodes@,
            marker,
            euid,
        ),
{
    let named = match name {
        Some(n) => same_text(&to_chars(n), &to_chars("rlogger")),
        None => false,
    };
    proof {
        reveal_strlit("rlogger");
    }
    if !named {
        return Err("Racine non nomm\u{e9}e rlogger : consultation seule.".to_owned());
    }
    let mut i: usize = 0;
    while i < nodes.len()
        invariant
            i <= nodes@.len(),
            nodes_reason(nodes@, 0, euid) == nodes_reason(nodes@, i as int, euid),
            match name {
                Some(n) => n@ == "rlogger"@,
                None => false,
            },
        decreases nodes@.len() - i,
    {
        match root_node_check(i < 2, nodes[i], euid) {
            Some(reason) => {
                assert(nodes_reason(nodes@, i as int, euid) == Some(reason@));
                return Err(reason);
            },
            None => {},
        }
        i = i + 1;
    }
    let ghost m = marker;
    match marker {
        MarkerRead::Unopened => Err("Marqueur RLOGGER invalide : consultation seule.".to_owned()),
        MarkerRead::Unreadable => Err("Marqueur RLOGGER illisible : consultation seule.".to_owned()),
        MarkerRead::Text(t) => if same_text(&to_chars(t.as_str()), &to_chars(crate::storage::MARKER)) {
            Ok(())
        } else {
            Err("Marqueur RLOGGER invalide : consultation seule.".to_owned())
        },
    }
}

/// Why a directory on the way to a file makes it read-only, if it does:
/// a component that is not a plain name, or a directory that cannot be
/// opened, has no metadata, is not private or carries an extended ACL.
pub open spec fn chain_reason(normal: bool, f: NodeFacts, euid: u32) -> Option<Seq<char>> {
    if !normal {
        Some("Chemin RLOGGER invalide : consultation seule."@)
    } else {
        match f {
            NodeFacts::Unopened => Some("Dossier RLOGGER inaccessible : consultation seule."@),
            NodeFacts::NoMetadata => Some("Dossier RLOGGER indisponible : consultation seule."@),
            NodeFacts::Found { uid, mode, extended_acl, .. } => if !private_to(uid, mode, euid) {
                Some("Dossier RLOGGER accessible en \u{e9}criture \u{e0} un autre compte : consultation seule."@)
            } else if extended_acl {
                Some("ACL \u{e9}tendue sur un dossier RLOGGER : consultation seule."@)
            } else {
                None
            },
        }
    }
}

/// The first reason along the directories of a path, from component `i` on.
pub open spec fn chain_view(parts: Seq<(bool, NodeFacts)>, i: int, euid: u32) -> Option<Seq<char>>
    decreases parts.len() - i,
{
    if i < 0 || i >= parts.len() {
        None
    } else {
        match chain_reason(parts[i].0, parts[i].1, euid) {
            Some(r) => Some(r),
            None => chain_view(parts, i + 1, euid),
        }
    }
}

/// Whether the directories leading to a file, each given as whether its
/// component is a plain name and what was found there, are all private.
pub fn private_directory_chain(parts: &Vec<(bool, NodeFacts)>, euid: u32) -> (r: Result<(), String>)
    ensures
        failure_view(r) == match chain_view(parts@, 0, euid) {
            Some(t) => Err::<(), Seq<char>>(t),
            None => Ok(()),
        },
{
    let mut i: usize = 0;
    while i < parts.len()
        invariant
            i <= parts@.len(),
            chain_view(parts@, 0, euid) == chain_view(parts@, i as int, euid),
        decreases parts@.len() - i,
    {
        let (normal, f) = parts[i];
        if !normal {
            return Err("Chemin RLOGGER invalide : consultation seule.".to_owned());
        }
        match f {
            NodeFacts::Unopened => return Err("Dossier RLOGGER inaccessible : consultation seule.".to_owned()),
            NodeFacts::NoMetadata => return Err("Dossier RLOGGER indisponible : consultation seule.".to_owned()),
            NodeFacts::Found { uid, mode, extended_acl, .. } => if !private_exec(uid, mode, euid) {
                return Err(
                    "Dossier RLOGGER accessible en \u{e9}criture \u{e0} un autre compte : consultation seule.".to_owned(),
                );
            } else if extended_acl {
                return Err("ACL \u{e9}tendue sur un dossier RLOGGER : consultation seule.".to_owned());
            },
        }
        i = i + 1;
    }
    Ok(())
}

/// A finalization action on a file: refused with its reason unless the
/// file's state allows it.
pub fn action_allowed(state: &(String, bool, String)) -> (r: Result<(), crate::protocol::Error>)
    ensures
        match r {
            Ok(()) => state.1,
            Err(e) => !state.1 && e.code == "FILE_PROTECTED" && e.message@ == state.2@ && e.status == 409,
        },
{
    if state.1 {
        Ok(())
    } else {
        Err(crate::protocol::Error::of("FILE_PROTECTED", state.2.as_str(), 409))
    }
}

/// The file is locked by another operation: a deletion needs it alone, a
/// download shares it with other downloads.
pub fn lock_refusal(delete: bool) -> (r: crate::protocol::Error)
    ensures
        r.code == "FILE_BUSY" && r.status == 409,
        delete ==> r.message@ == "Fichier occup\u{e9} par un t\u{e9}l\u{e9}chargement."@,
        !delete ==> r.message@ == "Fichier occup\u{e9}."@,
{
    if delete {
        crate::protocol::Error::of("FILE_BUSY", "Fichier occup\u{e9} par un t\u{e9}l\u{e9}chargement.", 409)
    } else {
        crate::protocol::Error::of("FILE_BUSY", "Fichier occup\u{e9}.", 409)
    }
}

/// The file opened for an action is the one the client saw: the token of the
/// path before opening and of the opened file are the expected one, and the
/// path still names the opened file.
pub fn same_generation(before: &str, opened: &str, expected: &str, same_file: bool) -> (r: Result<(), crate::protocol::Error>)
    ensures
        match r {
            Ok(()) => before@ == expected@ && opened@ == expected@ && same_file,
            Err(e) => !(before@ == expected@ && opened@ == expected@ && same_file) && e.code == "FILE_CHANGED"
                && e.message@ == "Le fichier a chang\u{e9} : actualisez avant de r\u{e9}essayer."@ && e.status == 409,
        },
{
    let want = to_chars(expected);
    let b = to_chars(before);
    let o = to_chars(opened);
    let same_before = same_text(&b, &want);
    let same_opened = same_text(&o, &want);
    if same_before && same_opened && same_file {
        Ok(())
    } else {
        Err(crate::protocol::Error::of("FILE_CHANGED", "Le fichier a chang\u{e9} : actualisez avant de r\u{e9}essayer.", 409))
    }
}


/// A file met by the inventory of a managed root is recovered when it is an
/// active segment, in the hourly layout (two directories deep), whose hour
/// has ended at `now`.
pub open spec fn recovery_view(managed: bool, depth: nat, layout: bool, name: Seq<char>, now: i64) -> Option<crate::storage::LogNameView> {
    if managed && depth == 2 && layout {
        match spec_parse_log_name(name) {
            Some(log) => if log.state == FileState::Active && log.hour_start + 3600 <= i64::MAX && log.hour_start
                + 3600 <= now {
                Some(log)
            } else {
                None
            },
            None => None,
        }
    } else {
        None
    }
}

/// The segment to recover, if the file named `name`, met at `depth` in a
/// traversal, is one.
pub fn recovery_candidate(managed: bool, depth: usize, layout: bool, name: &str, now: i64) -> (r: Option<LogName>)
    ensures
        match r {
            Some(log) => recovery_view(managed, depth as nat, layout, name@, now) == Some(log.view()),
            None => recovery_view(managed, depth as nat, layout, name@, now) is None,
        },
{
    if !(managed && depth == 2 && layout) {
        return None;
    }
    match LogName::parse(name) {
        Some(log) => if log.state == FileState::Active && log.ended(now) {
            Some(log)
        } else {
            None
        },
        None => None,
    }
}


/// The allocated size of a file of `blocks` 512-byte blocks, in decimal.
pub fn allocated_size(blocks: u64) -> (r: String)
    ensures
        r@ == decimal((blocks * 512) as nat),
{
    let mut out = String::new();
    let bytes: u128 = blocks as u128 * 512;
    push_decimal_wide(&mut out, bytes);
    out
}

} // verus!
