//! Requests of the local reader: origin checks, routing, content types and
//! archive sizes.
use vstd::prelude::*;
use crate::protocol::Error;
use crate::text::{decimal, rsplit_once, rsplit_once_exec, same_text, slice_range, starts_with, starts_with_exec, to_chars, from_chars};

verus! {

/// An error with the fixed code, message and status.
pub open spec fn error_is(e: Error, code: &str, message: &str, status: u16) -> bool {
    e.code@ == code@ && e.message@ == message@ && e.status == status
}

/// An entry is locked by another operation.
pub fn busy() -> (r: Error)
    ensures
        error_is(r, "FILE_BUSY", "Fichier ou dossier occup\u{e9} par une op\u{e9}ration.", 409),
{
    Error::of("FILE_BUSY", "Fichier ou dossier occup\u{e9} par une op\u{e9}ration.", 409)
}

/// An entry changed since it was listed.
pub fn changed() -> (r: Error)
    ensures
        error_is(r, "FILE_CHANGED", "Le fichier a chang\u{e9} : actualisez avant de r\u{e9}essayer.", 409),
{
    Error::of("FILE_CHANGED", "Le fichier a chang\u{e9} : actualisez avant de r\u{e9}essayer.", 409)
}

/// Settings of the reader's service; durations are in milliseconds.
#[derive(Clone, Debug)]
pub struct Options {
    /// Port on the loopback interface.
    pub port: u16,
    /// Directory of the exported web interface.
    pub dist: String,
    /// Interval between two looks at the selected files.
    pub poll_ms: u64,
    /// How long an update waits for the browser's acknowledgement.
    pub ack_timeout_ms: u64,
    /// Lifetime of a session without activity.
    pub session_ttl_ms: u64,
    /// Lifetime of a download ticket.
    pub download_ticket_ttl_ms: u64,
    /// Whether the web interface is exported again when its sources change.
    pub dev_reload: bool,
}

impl Default for Options {
    /// Port 4317, the interface exported under `front-react-logger/dist`, a
    /// look every 250 ms, 10 s for an acknowledgement, sessions of 120 s and
    /// download tickets of 30 s; no reloading.
    fn default() -> (r: Self)
        ensures
            r.port == 4317,
            r.dist@ == "front-react-logger/dist"@,
            r.poll_ms == 250,
            r.ack_timeout_ms == 10_000,
            r.session_ttl_ms == 120_000,
            r.download_ticket_ttl_ms == 30_000,
            !r.dev_reload,
    {
        Options {
            port: 4317,
            dist: "front-react-logger/dist".to_owned(),
            poll_ms: 250,
            ack_timeout_ms: 10_000,
            session_ttl_ms: 120_000,
            download_ticket_ttl_ms: 30_000,
            dev_reload: false,
        }
    }
}

/// A poll interval held between 10 ms and 5 s.
pub open spec fn bounded_poll(ms: u64) -> u64 {
    if ms < 10 {
        10
    } else if ms > 5000 {
        5000
    } else {
        ms
    }
}

impl Options {
    /// Sets the poll interval, held between 10 ms and 5 s.
    pub fn set_poll_ms(&mut self, ms: u64)
        ensures
            *final(self) == (Options { poll_ms: bounded_poll(ms), ..*old(self) }),
    {
        self.poll_ms = if ms < 10 {
            10
        } else if ms > 5000 {
            5000
        } else {
            ms
        };
    }
}

/// The most readers (sessions) open at once.
pub const SESSIONS: usize = 4;

/// A new session is refused once [`SESSIONS`] are open.
pub fn session_admission(open: usize) -> (r: Result<(), Error>)
    ensures
        match r {
            Ok(()) => open < 4,
            Err(e) => open >= 4 && error_is(e, "LIMIT", "Quatre lecteurs sont d\u{e9}j\u{e0} ouverts.", 429),
        },
{
    if open >= SESSIONS {
        Err(Error::of("LIMIT", "Quatre lecteurs sont d\u{e9}j\u{e0} ouverts.", 429))
    } else {
        Ok(())
    }
}

/// A session stays while its client is connected, or until `ttl`
/// milliseconds pass without activity.
pub fn session_kept(connected: bool, now: u64, touched: u64, ttl: u64) -> (r: bool)
    ensures
        r == (connected || (if now >= touched { now - touched } else { 0 }) < ttl),
{
    connected || now.saturating_sub(touched) < ttl
}

/// A download ticket lives as configured, at most 30 seconds.
pub fn ticket_ttl_ms(configured: u64) -> (r: u64)
    ensures
        r == (if configured < 30_000 { configured } else { 30_000 }),
{
    if configured < 30_000 {
        configured
    } else {
        30_000
    }
}

/// An inventory asked for by a client runs at most once a minute: it is due
/// when none ran yet or the last began at least 60 s (`since_last_ms`) ago.
pub fn refresh_due(since_last_ms: Option<u64>) -> (r: bool)
    ensures
        r == match since_last_ms {
            None => true,
            Some(ms) => ms >= 60_000,
        },
{
    match since_last_ms {
        None => true,
        Some(ms) => ms >= 60_000,
    }
}

/// The deepest level a tree action descends to.
pub const TREE_DEPTH: usize = 64;

/// The most entries a tree action gathers.
pub const TREE_ITEMS: usize = 200_000;

/// The most bytes of names (with 256 per entry) a tree action gathers.
pub const TREE_BUDGET: usize = 33_554_432;

/// The name budget after one more entry whose path takes `path_len` bytes:
/// 256 bytes more than its path, saturating.
pub fn tree_budget(budget: usize, path_len: usize) -> (r: usize)
    ensures
        r == (if budget + path_len + 256 <= usize::MAX { (budget + path_len + 256) as usize } else { usize::MAX }),
{
    if path_len <= usize::MAX - 256 && budget <= usize::MAX - 256 - path_len {
        budget + path_len + 256
    } else {
        usize::MAX
    }
}

/// Whether a tree action may take one more entry at `depth`, after `items`
/// entries and a name budget of `budget`: LIMIT (413) beyond 64 levels,
/// 200 000 entries or 32 MiB.
pub fn tree_entry_check(depth: usize, items: usize, budget: usize) -> (r: Result<(), Error>)
    ensures
        match r {
            Ok(()) => depth <= 64 && items < 200_000 && budget <= 33_554_432,
            Err(e) => !(depth <= 64 && items < 200_000 && budget <= 33_554_432) && error_is(
                e,
                "LIMIT",
                "Dossier trop volumineux : s\u{e9}lectionnez un sous-dossier.",
                413,
            ),
        },
{
    if depth > TREE_DEPTH || items >= TREE_ITEMS || budget > TREE_BUDGET {
        Err(Error::of("LIMIT", "Dossier trop volumineux : s\u{e9}lectionnez un sous-dossier.", 413))
    } else {
        Ok(())
    }
}

/// The order in which the `n` gathered entries of a tree are removed: last
/// gathered first. Entries are gathered parents before children, so children
/// go before their parents.
pub fn removal_order(n: usize) -> (r: Vec<usize>)
    ensures
        r@.len() == n,
        forall|i: int| 0 <= i < n ==> #[trigger] r@[i] == n - 1 - i,
{
    let mut r: Vec<usize> = Vec::new();
    let mut k: usize = n;
    while k > 0
        invariant
            k <= n,
            r@.len() == n - k,
            forall|i: int| 0 <= i < n - k ==> #[trigger] r@[i] == n - 1 - i,
        decreases k,
    {
        k = k - 1;
        r.push(k);
    }
    r
}

/// The text of an optional header.
pub open spec fn header_view(h: Option<&str>) -> Option<Seq<char>> {
    match h {
        Some(v) => Some(v@),
        None => None,
    }
}

/// A request is local: its `Host` is the server's, an `Origin`, if any (and
/// required when `require_origin`), is the server's, and it is not
/// cross-site.
pub open spec fn local_request(
    host: Seq<char>,
    origin: Seq<char>,
    got_host: Option<Seq<char>>,
    got_origin: Option<Seq<char>>,
    fetch_site: Option<Seq<char>>,
    require_origin: bool,
) -> bool {
    &&& got_host == Some(host)
    &&& (got_origin matches Some(o) ==> o == origin)
    &&& (require_origin ==> got_origin == Some(origin))
    &&& fetch_site != Some("cross-site"@)
}

fn same_header(got: Option<&str>, want: &str) -> (r: bool)
    ensures
        r == (header_view(got) == Some(want@)),
{
    match got {
        Some(v) => same_text(&to_chars(v), &to_chars(want)),
        None => false,
    }
}

/// Refuses a request that is not local.
pub fn guard(
    host: &str,
    origin: &str,
    got_host: Option<&str>,
    got_origin: Option<&str>,
    fetch_site: Option<&str>,
    require_origin: bool,
) -> (r: Result<(), Error>)
    ensures
        match r {
            Ok(()) => local_request(
                host@,
                origin@,
                header_view(got_host),
                header_view(got_origin),
                header_view(fetch_site),
                require_origin,
            ),
            Err(e) => !local_request(
                host@,
                origin@,
                header_view(got_host),
                header_view(got_origin),
                header_view(fetch_site),
                require_origin,
            ) && error_is(e, "FORBIDDEN", "Origine locale requise.", 403),
        },
{
    let host_ok = same_header(got_host, host);
    let origin_ok = match got_origin {
        Some(o) => same_text(&to_chars(o), &to_chars(origin)),
        None => !require_origin,
    };
    let cross = same_header(fetch_site, "cross-site");
    if !host_ok || !origin_ok || cross {
        return Err(Error::of("FORBIDDEN", "Origine locale requise.", 403));
    }
    Ok(())
}

/// Request methods the reader distinguishes.
#[derive(Clone, Copy, Debug, PartialEq, Eq, Structural)]
pub enum Method {
    Get,
    Head,
    Post,
    Delete,
    Other,
}

/// What a request asks for.
#[derive(Debug)]
pub enum Route {
    Health,
    CreateSession,
    Live,
    SessionInfo,
    CloseSession,
    Download(String),
    OpenRoot,
    CloseRoot(String),
    Statistics(String),
    FileEntry(String, String),
    DeleteFile(String, String),
    PrepareDownload(String, String),
    Entries(String),
    Content(String, String),
    /// Another `/api/` path: refused as unknown once the session is checked.
    UnknownApi,
    /// Neither `GET` nor `HEAD` outside the API.
    MethodNotAllowed,
    /// A file of the web client.
    Asset,
}

/// The text without its leading `/`s.
pub open spec fn trim_slashes(s: Seq<char>) -> Seq<char>
    decreases s.len(),
{
    if s.len() > 0 && s[0] == '/' {
        trim_slashes(s.drop_first())
    } else {
        s
    }
}

/// The segments of a text between `/`s (`str::split('/')`).
pub open spec fn segments(s: Seq<char>) -> Seq<Seq<char>>
    decreases s.len(),
{
    match rsplit_once(s, seq!['/']) {
        Some((a, b)) => if a.len() < s.len() {
            segments(a).push(b)
        } else {
            seq![s]
        },
        None => seq![s],
    }
}

/// The route of the API part of a path, given its segments.
pub open spec fn api_route(method: Method, path: Seq<char>) -> RouteView {
    let parts = segments(trim_slashes(path));
    if path == "/api/v1/roots"@ && method == Method::Post {
        RouteView::OpenRoot
    } else if parts.len() >= 4 && parts[0] == "api"@ && parts[1] == "v1"@ && parts[2] == "roots"@ {
        let root = parts[3];
        if parts.len() == 4 && method == Method::Delete {
            RouteView::CloseRoot(root)
        } else if parts.len() == 5 && parts[4] == "statistics"@ && method == Method::Get {
            RouteView::Statistics(root)
        } else if parts.len() >= 6 && parts[4] == "files"@ && parts.len() == 6 && method == Method::Get {
            RouteView::FileEntry(root, parts[5])
        } else if parts.len() >= 6 && parts[4] == "files"@ && method == Method::Delete && parts.len() == 6 {
            RouteView::DeleteFile(root, parts[5])
        } else if parts.len() >= 6 && parts[4] == "files"@ && method == Method::Post && parts.len() == 7
            && parts[6] == "download"@ {
            RouteView::PrepareDownload(root, parts[5])
        } else if parts.len() == 5 && parts[4] == "entries"@ && method == Method::Get {
            RouteView::Entries(root)
        } else if parts.len() == 7 && parts[4] == "files"@ && parts[6] == "content"@ && method
            == Method::Get {
            RouteView::Content(root, parts[5])
        } else {
            RouteView::UnknownApi
        }
    } else {
        RouteView::UnknownApi
    }
}

/// The route of a request, in the order the reader checks them.
pub open spec fn route_view(method: Method, path: Seq<char>) -> RouteView {
    if path == "/api/v1/health"@ && method == Method::Get {
        RouteView::Health
    } else if path == "/api/v1/session"@ && method == Method::Post {
        RouteView::CreateSession
    } else if path == "/api/v1/live"@ {
        RouteView::Live
    } else if path == "/api/v1/session"@ && method == Method::Get {
        RouteView::SessionInfo
    } else if path == "/api/v1/session"@ && method == Method::Delete {
        RouteView::CloseSession
    } else if method == Method::Get && starts_with(path, "/api/v1/downloads/"@) {
        RouteView::Download(path.skip(18))
    } else if starts_with(path, "/api/"@) {
        api_route(method, path)
    } else if method != Method::Get && method != Method::Head {
        RouteView::MethodNotAllowed
    } else {
        RouteView::Asset
    }
}

/// A route with its texts as character sequences.
pub enum RouteView {
    Health,
    CreateSession,
    Live,
    SessionInfo,
    CloseSession,
    Download(Seq<char>),
    OpenRoot,
    CloseRoot(Seq<char>),
    Statistics(Seq<char>),
    FileEntry(Seq<char>, Seq<char>),
    DeleteFile(Seq<char>, Seq<char>),
    PrepareDownload(Seq<char>, Seq<char>),
    Entries(Seq<char>),
    Content(Seq<char>, Seq<char>),
    UnknownApi,
    MethodNotAllowed,
    Asset,
}

impl Route {
    pub open spec fn view(&self) -> RouteView {
        match self {
            Route::Health => RouteView::Health,
            Route::CreateSession => RouteView::CreateSession,
            Route::Live => RouteView::Live,
            Route::SessionInfo => RouteView::SessionInfo,
            Route::CloseSession => RouteView::CloseSession,
            Route::Download(k) => RouteView::Download(k@),
            Route::OpenRoot => RouteView::OpenRoot,
            Route::CloseRoot(r) => RouteView::CloseRoot(r@),
            Route::Statistics(r) => RouteView::Statistics(r@),
            Route::FileEntry(r, f) => RouteView::FileEntry(r@, f@),
            Route::DeleteFile(r, f) => RouteView::DeleteFile(r@, f@),
            Route::PrepareDownload(r, f) => RouteView::PrepareDownload(r@, f@),
            Route::Entries(r) => RouteView::Entries(r@),
            Route::Content(r, f) => RouteView::Content(r@, f@),
            Route::UnknownApi => RouteView::UnknownApi,
            Route::MethodNotAllowed => RouteView::MethodNotAllowed,
            Route::Asset => RouteView::Asset,
        }
    }
}

fn trim_slashes_exec(s: &[char]) -> (r: Vec<char>)
    ensures
        r@ == trim_slashes(s@),
{
    let mut i: usize = 0;
    assert(s@.skip(0) =~= s@);
    while i < s.len() && s[i] == '/'
        invariant
            i <= s@.len(),
            trim_slashes(s@.skip(i as int)) == trim_slashes(s@),
        decreases s@.len() - i,
    {
        assert(s@.skip(i as int).drop_first() =~= s@.skip(i + 1));
        i = i + 1;
    }
    let r = slice_range(s, i, s.len());
    assert(r@ =~= s@.skip(i as int));
    r
}

/// The segments of a text between `/`s.
fn segments_exec(s: &[char]) -> (r: Vec<Vec<char>>)
    ensures
        r@.map_values(|x: Vec<char>| x@) == segments(s@),
    decreases s@.len(),
{
    let slash = ['/'];
    assert(slash@ =~= seq!['/']);
    match rsplit_once_exec(s, &slash) {
        Some((a, b)) => {
            if a.len() < s.len() {
                let mut r = segments_exec(&a);
                let ghost before = r@;
                let ghost bv = b@;
                r.push(b);
                assert(r@.map_values(|x: Vec<char>| x@) =~= before.map_values(|x: Vec<char>| x@).push(bv));
                r
            } else {
                let whole = slice_range(s, 0, s.len());
                assert(whole@ =~= s@);
                let r = vec![whole];
                assert(r@.map_values(|x: Vec<char>| x@) =~= seq![s@]);
                r
            }
        },
        None => {
            let whole = slice_range(s, 0, s.len());
            assert(whole@ =~= s@);
            let r = vec![whole];
            assert(r@.map_values(|x: Vec<char>| x@) =~= seq![s@]);
            r
        },
    }
}

fn is(s: &[char], lit: &str) -> (r: bool)
    ensures
        r == (s@ == lit@),
{
    same_text(s, &to_chars(lit))
}

/// Routes a request by its method and path.
pub fn route(method: Method, path: &str) -> (r: Route)
    ensures
        r@ == route_view(method, path@),
{
    let p = to_chars(path);
    if is(&p, "/api/v1/health") && method == Method::Get {
        return Route::Health;
    }
    if is(&p, "/api/v1/session") && method == Method::Post {
        return Route::CreateSession;
    }
    if is(&p, "/api/v1/live") {
        return Route::Live;
    }
    if is(&p, "/api/v1/session") && method == Method::Get {
        return Route::SessionInfo;
    }
    if is(&p, "/api/v1/session") && method == Method::Delete {
        return Route::CloseSession;
    }
    let downloads = to_chars("/api/v1/downloads/");
    proof {
        reveal_strlit("/api/v1/downloads/");
    }
    if method == Method::Get && starts_with_exec(&p, &downloads) {
        let key = slice_range(&p, 18, p.len());
        assert(key@ =~= p@.skip(18));
        return Route::Download(from_chars(&key));
    }
    if !starts_with_exec(&p, &to_chars("/api/")) {
        if method != Method::Get && method != Method::Head {
            return Route::MethodNotAllowed;
        }
        return Route::Asset;
    }
    if is(&p, "/api/v1/roots") && method == Method::Post {
        return Route::OpenRoot;
    }
    let parts = segments_exec(&trim_slashes_exec(&p));
    let ghost pv = parts@.map_values(|x: Vec<char>| x@);
    if parts.len() >= 4 && is(&parts[0], "api") && is(&parts[1], "v1") && is(&parts[2], "roots") {
        assert(pv[3] == parts@[3]@);
        let root = from_chars(&parts[3]);
        let n = parts.len();
        if n == 4 && method == Method::Delete {
            return Route::CloseRoot(root);
        }
        if n == 5 && is(&parts[4], "statistics") && method == Method::Get {
            return Route::Statistics(root);
        }
        if n >= 6 && is(&parts[4], "files") {
            assert(pv[5] == parts@[5]@);
            if n == 6 && method == Method::Get {
                return Route::FileEntry(root, from_chars(&parts[5]));
            }
            if method == Method::Delete && n == 6 {
                return Route::DeleteFile(root, from_chars(&parts[5]));
            }
            if method == Method::Post && n == 7 && is(&parts[6], "download") {
                return Route::PrepareDownload(root, from_chars(&parts[5]));
            }
        }
        if n == 5 && is(&parts[4], "entries") && method == Method::Get {
            return Route::Entries(root);
        }
        if n == 7 && is(&parts[4], "files") && is(&parts[6], "content") && method == Method::Get {
            assert(pv[5] == parts@[5]@);
            return Route::Content(root, from_chars(&parts[5]));
        }
        return Route::UnknownApi;
    }
    Route::UnknownApi
}

/// The content type of a web client file by its extension.
pub open spec fn mime_view(ext: Option<Seq<char>>) -> Seq<char> {
    match ext {
        Some(e) => if e == "html"@ {
            "text/html; charset=utf-8"@
        } else if e == "js"@ {
            "text/javascript; charset=utf-8"@
        } else if e == "css"@ {
            "text/css; charset=utf-8"@
        } else if e == "json"@ {
            "application/json"@
        } else if e == "png"@ {
            "image/png"@
        } else if e == "ico"@ {
            "image/x-icon"@
        } else if e == "woff2"@ {
            "font/woff2"@
        } else if e == "ttf"@ {
            "font/ttf"@
        } else {
            "application/octet-stream"@
        },
        None => "application/octet-stream"@,
    }
}

/// The content type of a web client file.
pub fn mime(ext: Option<&str>) -> (r: &'static str)
    ensures
        r@ == mime_view(header_view(ext)),
{
    let e = match ext {
        Some(e) => to_chars(e),
        None => return "application/octet-stream",
    };
    if is(&e, "html") {
        "text/html; charset=utf-8"
    } else if is(&e, "js") {
        "text/javascript; charset=utf-8"
    } else if is(&e, "css") {
        "text/css; charset=utf-8"
    } else if is(&e, "json") {
        "application/json"
    } else if is(&e, "png") {
        "image/png"
    } else if is(&e, "ico") {
        "image/x-icon"
    } else if is(&e, "woff2") {
        "font/woff2"
    } else if is(&e, "ttf") {
        "font/ttf"
    } else {
        "application/octet-stream"
    }
}

/// Bytes of a tar archive: two closing blocks, then per entry its headers, its
/// content and the padding of the content to 512 bytes.
pub open spec fn archive_total(items: Seq<(u64, u64)>) -> int
    decreases items.len(),
{
    if items.len() == 0 {
        1024
    } else {
        let (h, size) = items.last();
        archive_total(items.drop_last()) + h + size + ((512 - size % 512) % 512)
    }
}

proof fn lemma_archive_total_grows(items: Seq<(u64, u64)>, i: int)
    requires
        0 <= i <= items.len(),
    ensures
        archive_total(items.take(i)) <= archive_total(items),
    decreases items.len() - i,
{
    if i < items.len() {
        lemma_archive_total_grows(items, i + 1);
        assert(items.take(i + 1).drop_last() =~= items.take(i));
    } else {
        assert(items.take(i) =~= items);
    }
}

/// The size of the archive of entries given by (header bytes, content bytes);
/// refused when it exceeds `u64`.
pub fn archive_len(items: &Vec<(u64, u64)>) -> (r: Result<u64, Error>)
    ensures
        match r {
            Ok(n) => n == archive_total(items@),
            Err(e) => archive_total(items@) > u64::MAX && error_is(
                e,
                "LIMIT",
                "Archive trop volumineuse.",
                413,
            ),
        },
{
    let mut total: u64 = 1024;
    let mut i: usize = 0;
    assert(items@.take(0) =~= Seq::<(u64, u64)>::empty());
    while i < items.len()
        invariant
            i <= items@.len(),
            total == archive_total(items@.take(i as int)),
        decreases items@.len() - i,
    {
        let (h, size) = items[i];
        let pad = (512 - size % 512) % 512;
        assert(items@.take(i + 1).drop_last() =~= items@.take(i as int));
        let next = match total.checked_add(h) {
            Some(a) => match a.checked_add(size) {
                Some(b) => b.checked_add(pad),
                None => None,
            },
            None => None,
        };
        match next {
            Some(n) => total = n,
            None => {
                proof {
                    lemma_archive_total_grows(items@, i + 1);
                }
                return Err(Error::of("LIMIT", "Archive trop volumineuse.", 413));
            },
        }
        i = i + 1;
    }
    assert(items@.take(items@.len() as int) =~= items@);
    Ok(total)
}


/// The text of a deletion stopped after `removed` entries were removed.
pub open spec fn partial_message(removed: u64, message: Seq<char>) -> Seq<char> {
    "Suppression partielle ("@ + decimal(removed as nat) + " entr\u{e9}es supprim\u{e9}es). "@ + message
        + " Actualisez le dossier."@
}

/// A deletion that failed after removing some entries says how many.
pub fn partial_deletion(e: Error, removed: u64) -> (r: Error)
    ensures
        r.code == e.code,
        r.status == e.status,
        removed == 0 ==> r.message@ == e.message@,
        removed > 0 ==> r.message@ == partial_message(removed, e.message@),
{
    if removed == 0 {
        return e;
    }
    let mut text = String::new();
    crate::text::push_str(&mut text, "Suppression partielle (");
    crate::text::push_decimal(&mut text, removed);
    crate::text::push_str(&mut text, " entr\u{e9}es supprim\u{e9}es). ");
    crate::text::push_str(&mut text, e.message.as_str());
    crate::text::push_str(&mut text, " Actualisez le dossier.");
    Error { code: e.code, message: text, status: e.status }
}

} // verus!
