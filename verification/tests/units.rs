//! Concrete cases of the library's functions: names and paths, the reader's
//! protocol checks, routing, captures, the live session and the node cache.
use rlogger::capture::{choose_logger, inherit, span_record, Target, Visitor};
use rlogger::fields::Fields;
use rlogger::files::{
    anchor_offset, cursor_after, directory_check, listing_limit, listing_unchanged, opened_check, page_candidate,
    revision_text, root_input, size_check, CursorData, DirectoryStamp, FileRoot, Page,
};
use rlogger::live::{LiveState, Notice};
use rlogger::management::{
    action_allowed, cleanup_due, entries_left, file_state, file_state_rooted, lock_refusal, scan_continue, scan_limit_notice, managed_reason, old_day, private_directory_chain, recovery_candidate,
    same_generation, FileFacts, MarkerRead, NodeFacts, Sum,
};
use rlogger::model::{Config, Counters, InstanceConfig, Refusal, Route};
use rlogger::files::open_failure;
use rlogger::protocol::{id, offset, ClientMessage, Error, IoKind, Kind, Selection};
use rlogger::request::{asset_target, content_disposition, decode_cursor_bytes, encode_cursor_bytes, query_pairs, query_value};
use rlogger::routing::select_destination;
use rlogger::segments::{finalized_path, least_recent, next_segment, segment_file, SegmentError};
use rlogger::server::{archive_len, busy, changed, guard, mime, route, Method, Options, Route as Request};
use rlogger::storage::{hourly_layout, join_path, lease_path, recognized, token, FileState, LogName, PathPart, MARKER};
use rlogger::time::LocalTime;
use rlogger::value::{escape, Level, Value};
use rlogger::writer::path_for;

fn civil(text: &str) -> LocalTime {
    let t = chrono::DateTime::parse_from_rfc3339(text).unwrap();
    LocalTime { timestamp: t.timestamp(), nanos: t.timestamp_subsec_nanos(), offset: t.offset().local_minus_utc() }
}

fn fields(pairs: &[(&str, Value)]) -> Fields {
    let mut f = Fields::new();
    for (k, v) in pairs {
        f.insert((*k).to_owned(), v.duplicate());
    }
    f
}

#[test]
fn controlled_dst_paths_distinguish_repeated_hour_and_skip_missing_hour() {
    assert_ne!(
        path_for("a", "app", &civil("2026-10-25T02:30:00+02:00")),
        path_for("a", "app", &civil("2026-10-25T02:30:00+01:00"))
    );
    assert!(path_for("a", "app", &civil("2026-03-29T03:00:00+02:00")).unwrap().contains("app-03-h"));
    assert!(path_for("a", "app", &civil("2026-09-08T23:59:59+02:00")).unwrap().contains("2026-09-08/"));
}

#[test]
fn logical_path_names_day_instance_destination_and_utc_hour() {
    let p = path_for("api", "db", &civil("2026-09-08T14:25:00+02:00")).unwrap();
    assert_eq!(p, "2026-09-08/api/db-14-h1788868800");
}

#[test]
fn offsets_are_decimal_and_bounded() {
    assert_eq!(offset("0").unwrap(), 0);
    assert_eq!(offset("9007199254740991").unwrap(), 9_007_199_254_740_991);
    for bad in ["", "12a", "+1", "-1", "123456789012345678901", "9007199254740992"] {
        let e = offset(bad).unwrap_err();
        assert_eq!(e.code, "CURSOR_INVALID");
        assert_eq!(e.status, 409);
    }
    assert_eq!(offset("9007199254740992").unwrap_err().message, "Position sup\u{e9}rieure \u{e0} 2^53\u{2212}1 octets.");
}

#[test]
fn requests_are_routed_by_method_and_path() {
    assert!(matches!(route(Method::Get, "/api/v1/health"), Request::Health));
    assert!(matches!(route(Method::Post, "/api/v1/session"), Request::CreateSession));
    assert!(matches!(route(Method::Get, "/api/v1/live"), Request::Live));
    assert!(matches!(route(Method::Delete, "/api/v1/session"), Request::CloseSession));
    assert!(matches!(route(Method::Post, "/api/v1/roots"), Request::OpenRoot));
    assert!(matches!(route(Method::Delete, "/api/v1/roots/r1"), Request::CloseRoot(r) if r == "r1"));
    assert!(matches!(route(Method::Get, "/api/v1/roots/r1/statistics"), Request::Statistics(r) if r == "r1"));
    assert!(matches!(route(Method::Get, "/api/v1/roots/r1/entries"), Request::Entries(r) if r == "r1"));
    assert!(
        matches!(route(Method::Get, "/api/v1/roots/r1/files/f2"), Request::FileEntry(r, f) if r == "r1" && f == "f2")
    );
    assert!(
        matches!(route(Method::Delete, "/api/v1/roots/r1/files/f2"), Request::DeleteFile(r, f) if r == "r1" && f == "f2")
    );
    assert!(matches!(
        route(Method::Post, "/api/v1/roots/r1/files/f2/download"),
        Request::PrepareDownload(r, f) if r == "r1" && f == "f2"
    ));
    assert!(matches!(
        route(Method::Get, "/api/v1/roots/r1/files/f2/content"),
        Request::Content(r, f) if r == "r1" && f == "f2"
    ));
    assert!(matches!(route(Method::Get, "/api/v1/downloads/k3"), Request::Download(k) if k == "k3"));
    assert!(matches!(route(Method::Get, "/api/v2/x"), Request::UnknownApi));
    assert!(matches!(route(Method::Post, "/index.html"), Request::MethodNotAllowed));
    assert!(matches!(route(Method::Head, "/index.html"), Request::Asset));
}

#[test]
fn only_local_requests_pass_the_guard() {
    let host = "127.0.0.1:8080";
    let origin = "http://127.0.0.1:8080";
    assert!(guard(host, origin, Some(host), None, None, false).is_ok());
    assert!(guard(host, origin, Some(host), Some(origin), Some("same-origin"), true).is_ok());
    for (h, o, site, require) in [
        (None, None, None, false),
        (Some("evil:80"), None, None, false),
        (Some(host), Some("http://evil"), None, false),
        (Some(host), None, None, true),
        (Some(host), Some(origin), Some("cross-site"), false),
    ] {
        let e = guard(host, origin, h, o, site, require).unwrap_err();
        assert_eq!((e.code, e.status), ("FORBIDDEN", 403));
        assert_eq!(e.message, "Origine locale requise.");
    }
}

#[test]
fn assets_get_their_media_type() {
    assert_eq!(mime(Some("html")), "text/html; charset=utf-8");
    assert_eq!(mime(Some("js")), "text/javascript; charset=utf-8");
    assert_eq!(mime(Some("woff2")), "font/woff2");
    assert_eq!(mime(Some("exe")), "application/octet-stream");
    assert_eq!(mime(None), "application/octet-stream");
}

#[test]
fn archive_length_counts_headers_contents_padding_and_trailer() {
    assert_eq!(archive_len(&vec![]).unwrap(), 1024);
    assert_eq!(archive_len(&vec![(512, 0)]).unwrap(), 1536);
    assert_eq!(archive_len(&vec![(512, 1), (1024, 512)]).unwrap(), 1024 + 512 + 512 + 1024 + 512);
    let e = archive_len(&vec![(u64::MAX - 1024, 1)]).unwrap_err();
    assert_eq!((e.code, e.status), ("LIMIT", 413));
    assert_eq!((busy().code, busy().status), ("FILE_BUSY", 409));
    assert_eq!((changed().code, changed().status), ("FILE_CHANGED", 409));
}

#[test]
fn file_states_follow_root_chain_layout_name_lease_and_hour() {
    let closed = "app-02-1-2-3-h1792886400-s1.log";
    let ok = || Ok::<(), String>(());
    assert_eq!(file_state_rooted(Err("racine".to_owned()), ok(), true, Some(closed), true, 0), ("legacy".to_owned(), false, "racine".to_owned()));
    assert_eq!(file_state_rooted(ok(), Err("chemin".to_owned()), true, Some(closed), true, 0), ("legacy".to_owned(), false, "chemin".to_owned()));
    assert_eq!(file_state_rooted(ok(), ok(), false, Some(closed), true, 0).2, "Ancien format ou racine g\u{e9}n\u{e9}rique : consultation seule.");
    assert_eq!(file_state_rooted(ok(), ok(), true, Some("notes.txt"), true, 0), ("legacy".to_owned(), false, "Format horaire non reconnu.".to_owned()));
    assert_eq!(file_state_rooted(ok(), ok(), true, Some(closed), false, 0).0, "unknown");
    assert_eq!(
        file_state_rooted(ok(), ok(), true, Some("app-02-1-2-3-h1792886400-s1.active.log"), true, i64::MAX),
        ("active".to_owned(), false, "Fichier actif : \u{e9}criture non finalis\u{e9}e.".to_owned())
    );
    assert_eq!(file_state_rooted(ok(), ok(), true, Some(closed), true, 1792889999).1, false);
    assert_eq!(file_state_rooted(ok(), ok(), true, Some(closed), true, 1792890000), ("closed".to_owned(), true, String::new()));
    assert_eq!(
        file_state_rooted(ok(), ok(), true, Some("app-02-1-2-3-h1792886400-s2.recovered.log"), true, 1792890000).0,
        "recovered"
    );
}

#[test]
fn days_before_today_are_old() {
    assert!(old_day(Some("2026-09-07"), (2026, 9, 8)));
    assert!(old_day(Some("2025-12-31"), (2026, 1, 1)));
    assert!(!old_day(Some("2026-09-08"), (2026, 9, 8)));
    assert!(!old_day(Some("logs"), (2026, 9, 8)));
    assert!(!old_day(None, (2026, 9, 8)));
}

#[test]
fn sums_count_each_file_once() {
    let mut a = Sum::new();
    a.bytes = 10;
    a.blocks.push((1, 7, 4096));
    let mut b = Sum::new();
    b.bytes = 5;
    b.blocks.push((1, 7, 4096));
    b.blocks.push((1, 8, 512));
    a.add(b);
    let s = a.size();
    assert_eq!(s.content, "15");
    assert_eq!(s.allocated.as_deref(), Some("4608"));
    assert!(!s.partial);
}

#[test]
fn storage_names_lease_and_token() {
    assert_eq!(lease_path("/var/logs", "run-1"), "/var/logs/.rlogger/run-1.lock");
    assert_eq!(join_path("", "b"), "b");
    assert_eq!(join_path("a", "/b"), "/b");
    assert_eq!(join_path("a/", "b"), "a/b");
    assert_eq!(token(1, 2, 3, -4, 5, 6, 7), "1-2-3--4-5-6-7");
    assert!(recognized(true, true, Some(MARKER)));
    assert!(!recognized(true, true, Some("RLOGGER storage 1\n")));
    assert!(!recognized(true, false, Some(MARKER)));
    assert!(!recognized(true, true, None));
    let parts = |names: &[&str]| names.iter().map(|n| PathPart::Normal((*n).to_owned())).collect::<Vec<_>>();
    assert!(hourly_layout(&parts(&["2026-09-08", "api", "app-02-1-2-3-h1792886400-s1.log"])));
    assert!(!hourly_layout(&parts(&["api", "app-02-1-2-3-h1792886400-s1.log"])));
    assert!(!hourly_layout(&parts(&["2026-9-8", "api", "app-02-1-2-3-h1792886400-s1.log"])));
    let active = LogName::parse("app-02-170-42-1-h1792886400-s7.active.log").unwrap();
    assert_eq!(active.state, FileState::Active);
    assert_eq!(active.hour_start, 1792886400);
    assert!(!active.ended(1792889999));
    assert!(active.ended(1792890000));
}

#[test]
fn segment_files_carry_run_hour_and_number() {
    let (name, end) = segment_file("2026-09-08/api/db-14-h1788868800", "170-42-1", 3).unwrap();
    assert_eq!(name, "2026-09-08/api/db-14-170-42-1-h1788868800-s3.active.log");
    assert_eq!(end, 1788872400);
    assert_eq!(segment_file("2026-09-08/api/db", "run", 1), Err(SegmentError::InvalidHourKey));
    assert_eq!(segment_file("db-habc", "run", 1), Err(SegmentError::InvalidHour));
    assert_eq!(segment_file("db-h9223372036854775000", "run", 1), Err(SegmentError::HourOverflow));
    assert_eq!(next_segment(1), Ok(2));
    assert_eq!(next_segment(u64::MAX), Err(SegmentError::SegmentExhausted));
    assert_eq!(least_recent(&vec![5, 3, 3, 9]), Some(1));
    assert_eq!(least_recent(&vec![]), None);
    assert_eq!(finalized_path("d/a-s1.active.log", ".log"), "d/a-s1.log");
    assert_eq!(finalized_path("d.active.log/a-s1.active.log", ".recovered.log"), "d.active.log/a-s1.recovered.log");
    let parsed = LogName::parse("db-14-170-42-1-h1788868800-s3.log").unwrap();
    assert_eq!((parsed.run_id.as_str(), parsed.hour_start, parsed.state), ("170-42-1", 1788868800, FileState::Closed));
    assert!(LogName::parse("db-14-170-42-1-h1788868800-s0.log").is_none());
    assert!(LogName::parse("db-24-170-42-1-h1788868800-s3.log").is_none());
}

#[test]
fn escaping_keeps_lines_whole() {
    assert_eq!(escape("a\"b\\c\nd\re\tf"), "a\\\"b\\\\c\\nd\\re\\tf");
    assert_eq!(escape("x\u{7}y\u{2028}"), "x\\u{7}y\\u{2028}");
    assert!(!escape("one\ntwo\rthree").contains('\n'));
    assert_eq!(Value::text("q\"").render(), "\"q\\\"\"");
    assert_eq!(Value::I64(-5).render(), "-5");
    assert_eq!(Value::Bool(true).render(), "true");
    assert_eq!(Level::Warn.name(), "WARN");
    assert!(Level::Error.at_least(Level::Warn));
    assert!(!Level::Debug.at_least(Level::Info));
}

#[test]
fn counters_add_up_refusals() {
    let mut c = Counters::zero();
    c.full = 2;
    c.too_large = 1;
    c.unknown_destination = 4;
    c.accepted = 9;
    assert_eq!(c.refused(), 7);
    let d = c.add(&c);
    assert_eq!((d.full, d.accepted), (4, 18));
}

#[test]
fn fields_override_and_keep_one_value_per_key() {
    let mut f = fields(&[("a", Value::U64(1)), ("b", Value::text("x"))]);
    f.insert("a".to_owned(), Value::U64(2));
    assert_eq!(f.len(), 2);
    assert!(f.get("a").unwrap().same(&Value::U64(2)));
    f.extend(&fields(&[("b", Value::Bool(false)), ("c", Value::I64(3))]));
    assert_eq!(f.len(), 3);
    assert!(f.get("b").unwrap().same(&Value::Bool(false)));
    assert!(f.get("z").is_none());
    let keys: Vec<&str> = f.entries().iter().map(|(k, _)| k.as_str()).collect();
    assert_eq!(keys, vec!["a", "b", "c"]);
}

#[test]
fn destinations_follow_explicit_longest_route_crate_then_first() {
    let dests = vec!["app".to_owned(), "db".to_owned(), "net".to_owned()];
    let routes = vec![
        Route { module_prefix: "my".to_owned(), destination: "net".to_owned() },
        Route { module_prefix: "my::db".to_owned(), destination: "db".to_owned() },
    ];
    assert_eq!(select_destination(&dests, &routes, "my::db::pool", None).unwrap(), "db");
    assert_eq!(select_destination(&dests, &routes, "my::dbx", None).unwrap(), "net");
    assert_eq!(select_destination(&dests, &routes, "db::x", None).unwrap(), "db");
    assert_eq!(select_destination(&dests, &routes, "other::x", None).unwrap(), "app");
    assert_eq!(select_destination(&dests, &routes, "my::db", Some("app")).unwrap(), "app");
    assert_eq!(select_destination(&dests, &routes, "my", Some("nope")), Err(Refusal::UnknownDestination));
}

#[test]
fn captures_keep_message_and_instance_apart() {
    let mut v = Visitor::new();
    v.put("message", Value::text("hello"));
    v.put("log_instance", Value::text("db"));
    v.record_text("user", "ana");
    assert_eq!(v.message.as_deref(), Some("hello"));
    assert_eq!(v.instance.as_deref(), Some("db"));
    assert!(v.fields.get("user").unwrap().same(&Value::text("ana")));
    assert!(!v.invalid);
    v.put("message", Value::U64(1));
    assert!(v.invalid);
    let mut w = Visitor::new();
    w.record_formatted("debug", None);
    assert!(w.invalid);
    let names = vec!["db".to_owned(), "net".to_owned()];
    assert_eq!(choose_logger(None, "main", &names), Some(Target::Default));
    assert_eq!(choose_logger(Some("main"), "main", &names), Some(Target::Default));
    assert_eq!(choose_logger(Some("net"), "main", &names), Some(Target::Extra(1)));
    assert_eq!(choose_logger(Some("x"), "main", &names), None);
}

#[test]
fn spans_pass_fields_inward_and_refuse_unknown_or_oversized() {
    let outer = fields(&[("call", Value::text("a")), ("user", Value::text("u"))]);
    let inner = fields(&[("call", Value::text("b"))]);
    let f = inherit(&vec![Some(outer.duplicate()), Some(inner.duplicate())]).unwrap();
    assert!(f.get("call").unwrap().same(&Value::text("b")));
    assert!(f.get("user").unwrap().same(&Value::text("u")));
    assert!(matches!(inherit(&vec![Some(outer.duplicate()), None]), Err(Refusal::Invalid)));
    let deep: Vec<Option<Fields>> = (0..33).map(|_| Some(Fields::new())).collect();
    assert!(matches!(inherit(&deep), Err(Refusal::TooLarge)));
    let mut span = outer.duplicate();
    assert!(span_record(&mut span, &inner));
    assert!(!span_record(&mut span, &fields(&[("big", Value::text(&"x".repeat(9000)))])));
}

#[test]
fn node_cache_keeps_identifiers_per_path_and_kind() {
    let mut root = FileRoot::new("r1".to_owned(), "n0".to_owned(), "/logs".to_owned(), "1-2".to_owned(), ());
    let a = root.remember("2026-09-08/api/app.log".to_owned(), Kind::File);
    let b = root.remember("2026-09-08".to_owned(), Kind::Directory);
    assert_ne!(a, b);
    assert_eq!(root.remember("2026-09-08/api/app.log".to_owned(), Kind::File), a);
    assert_eq!(root.cached_nodes(), 3);
    assert_eq!(root.node(&a, Some(Kind::File)).unwrap().relative, "2026-09-08/api/app.log");
    assert_eq!(root.node(&a, Some(Kind::Directory)).unwrap_err().code, "INVALID_REQUEST");
    assert_eq!(root.node("missing", None).unwrap_err().code, "NODE_EXPIRED");
    assert_eq!(root.management_path(&b).unwrap(), "2026-09-08");
    assert_eq!(root.node("n0", None).unwrap().relative, "");
    let dto = root.dto(Ok(()));
    assert_eq!((dto.root_id.as_str(), dto.node_id.as_str(), dto.absolute_path.as_str()), ("r1", "n0", "/logs"));
}

#[test]
fn identifiers_are_hyphenated_version_four_uuids() {
    let a = id();
    let b = id();
    assert_ne!(a, b);
    let c: Vec<char> = a.chars().collect();
    assert_eq!(c.len(), 36);
    assert_eq!((c[8], c[13], c[14], c[18], c[23]), ('-', '-', '4', '-', '-'));
    assert!(a.chars().all(|x| x == '-' || x.is_ascii_digit() || ('a'..='f').contains(&x)));
}

#[test]
fn listing_cursor_and_candidates() {
    assert_eq!(cursor_after("r", "p", "v", None).unwrap(), None);
    let c = |root: &str| CursorData { root: root.to_owned(), parent: "p".to_owned(), rev: "v".to_owned(), after: "m".to_owned() };
    assert_eq!(cursor_after("r", "p", "v", Some(Some(c("r")))).unwrap(), Some("m".to_owned()));
    assert_eq!(cursor_after("r", "p", "v", Some(Some(c("other")))).unwrap_err().code, "CURSOR_INVALID");
    assert_eq!(cursor_after("r", "p", "v", Some(None)).unwrap_err().code, "CURSOR_INVALID");
    assert!(!page_candidate(".hidden", None));
    assert!(page_candidate("a", None));
    assert!(page_candidate("a", Some("b")));
    assert!(!page_candidate("b", Some("a")));
    assert!(!page_candidate("a", Some("a")));
    let mut page = Page::new();
    for n in ["c", "a", "b", "a"] {
        page.offer(n.to_owned(), Kind::File);
    }
    let (items, more) = page.finish();
    let names: Vec<&str> = items.iter().map(|(n, _)| n.as_str()).collect();
    assert_eq!(names, vec!["c", "b", "a"]);
    assert!(!more);
    assert_eq!(revision_text("i", 1, -2, 3, 4), "i:1:-2:3:4");
    assert!(size_check(9_007_199_254_740_991).is_ok());
    assert!(size_check(9_007_199_254_740_992).is_err());
}

#[test]
fn live_session_subscribes_acknowledges_and_watches() {
    let mut root = FileRoot::new("r1".to_owned(), "n0".to_owned(), "/logs".to_owned(), "1-2".to_owned(), ());
    let file = root.remember("a.log".to_owned(), Kind::File);
    let dir = root.remember("d".to_owned(), Kind::Directory);
    let selection = |root_id: &str, file_id: &str, offset: &str| Selection {
        root_id: root_id.to_owned(),
        file_id: file_id.to_owned(),
        generation: "g1".to_owned(),
        offset: offset.to_owned(),
        revision: 3,
    };
    let mut live = LiveState::new();
    let e = live.apply::<()>(None, ClientMessage::Subscribe { selection: selection("r1", &file, "0") }).unwrap_err();
    assert_eq!(e.code, "ROOT_CHANGED");
    let e = live.apply(Some(&root), ClientMessage::Subscribe { selection: selection("r1", &dir, "0") }).unwrap_err();
    assert_eq!(e.code, "INVALID_REQUEST");
    let e = live.apply(Some(&root), ClientMessage::Subscribe { selection: selection("r1", &file, "x") }).unwrap_err();
    assert_eq!(e.code, "CURSOR_INVALID");
    assert!(live.selection.is_none());
    let n = live.apply(Some(&root), ClientMessage::Subscribe { selection: selection("r1", &file, "10") }).unwrap();
    assert!(matches!(n, Some(Notice::Subscribed { revision: 3, ref generation, ref offset }) if generation == "g1" && offset == "10"));
    let e = live
        .apply(Some(&root), ClientMessage::Ack { revision: 3, generation: "g1".to_owned(), end: "20".to_owned() })
        .unwrap_err();
    assert_eq!(e.code, "CURSOR_INVALID");
    assert!(live.apply(Some(&root), ClientMessage::Branches { root_id: "r1".to_owned(), ids: vec![dir.clone()] }).unwrap().is_none());
    assert_eq!(live.branches.len(), 1);
    assert!(live.apply(Some(&root), ClientMessage::Branches { root_id: "r1".to_owned(), ids: vec![file.clone()] }).is_err());
    assert_eq!(live.branches[0].0, dir);
    let many: Vec<String> = (0..65).map(|_| dir.clone()).collect();
    assert_eq!(live.apply(Some(&root), ClientMessage::Branches { root_id: "r1".to_owned(), ids: many }).unwrap_err().code, "LIMIT");
    assert!(live.apply(Some(&root), ClientMessage::Unsubscribe).unwrap().is_none());
    assert!(live.selection.is_none());
    assert_eq!(live.overdue(100, 10), None);
}

#[test]
fn configuration_defaults_validate() {
    let c = Config::new("logs".to_owned());
    assert!(c.validate().is_ok());
    let i = InstanceConfig::new("api".to_owned());
    assert_eq!(i.destinations, vec!["app".to_owned()]);
    assert_eq!(i.level, Level::Info);
}

fn found(directory: bool, uid: u32, mode: u32) -> NodeFacts {
    NodeFacts::Found { directory, uid, mode, extended_acl: false }
}

#[test]
fn managed_roots_are_named_private_and_marked() {
    let good = vec![found(true, 7, 0o700), found(true, 7, 0o700), found(false, 7, 0o600), found(false, 7, 0o600)];
    let marker = || MarkerRead::Text(MARKER.to_owned());
    assert!(managed_reason(Some("rlogger"), &good, marker(), 7).is_ok());
    assert_eq!(managed_reason(Some("logs"), &good, marker(), 7).unwrap_err(), "Racine non nomm\u{e9}e rlogger : consultation seule.");
    let mut missing = good.clone();
    missing[2] = NodeFacts::Unopened;
    assert_eq!(managed_reason(Some("rlogger"), &missing, marker(), 7).unwrap_err(), "M\u{e9}tadonn\u{e9}es RLOGGER incompl\u{e8}tes : consultation seule.");
    let mut kind = good.clone();
    kind[1] = found(false, 7, 0o700);
    assert_eq!(managed_reason(Some("rlogger"), &kind, marker(), 7).unwrap_err(), "M\u{e9}tadonn\u{e9}es RLOGGER invalides : consultation seule.");
    let mut shared = good.clone();
    shared[0] = found(true, 7, 0o770);
    assert!(managed_reason(Some("rlogger"), &shared, marker(), 7).unwrap_err().starts_with("Racine RLOGGER non priv\u{e9}e"));
    assert!(managed_reason(Some("rlogger"), &good, marker(), 8).is_err());
    assert_eq!(managed_reason(Some("rlogger"), &good, MarkerRead::Unreadable, 7).unwrap_err(), "Marqueur RLOGGER illisible : consultation seule.");
    assert_eq!(
        managed_reason(Some("rlogger"), &good, MarkerRead::Text("RLOGGER storage 1\n".to_owned()), 7).unwrap_err(),
        "Marqueur RLOGGER invalide : consultation seule."
    );
}

#[test]
fn directory_chains_must_be_plain_and_private() {
    assert!(private_directory_chain(&vec![(true, found(true, 7, 0o700)), (true, found(true, 7, 0o755))], 7).is_ok());
    assert_eq!(private_directory_chain(&vec![(false, NodeFacts::Unopened)], 7).unwrap_err(), "Chemin RLOGGER invalide : consultation seule.");
    assert_eq!(private_directory_chain(&vec![(true, NodeFacts::Unopened)], 7).unwrap_err(), "Dossier RLOGGER inaccessible : consultation seule.");
    assert_eq!(private_directory_chain(&vec![(true, NodeFacts::NoMetadata)], 7).unwrap_err(), "Dossier RLOGGER indisponible : consultation seule.");
    assert!(private_directory_chain(&vec![(true, found(true, 7, 0o775))], 7).unwrap_err().starts_with("Dossier RLOGGER accessible"));
    let acl = NodeFacts::Found { directory: true, uid: 7, mode: 0o700, extended_acl: true };
    assert_eq!(private_directory_chain(&vec![(true, acl)], 7).unwrap_err(), "ACL \u{e9}tendue sur un dossier RLOGGER : consultation seule.");
}

#[test]
fn actions_need_an_allowed_unchanged_unlocked_file() {
    assert!(action_allowed(&("closed".to_owned(), true, String::new())).is_ok());
    let e = action_allowed(&("active".to_owned(), false, "Fichier actif".to_owned())).unwrap_err();
    assert_eq!((e.code, e.message.as_str(), e.status), ("FILE_PROTECTED", "Fichier actif", 409));
    assert_eq!(lock_refusal(true).message, "Fichier occup\u{e9} par un t\u{e9}l\u{e9}chargement.");
    assert_eq!(lock_refusal(false).message, "Fichier occup\u{e9}.");
    assert!(same_generation("t", "t", "t", true).is_ok());
    assert_eq!(same_generation("t", "u", "t", true).unwrap_err().code, "FILE_CHANGED");
    assert_eq!(same_generation("t", "t", "t", false).unwrap_err().code, "FILE_CHANGED");
    let e: Error = Error::io(IoKind::NotFound);
    assert_eq!((e.code, e.status), ("NOT_FOUND", 404));
    assert_eq!(Error::io(IoKind::PermissionDenied).code, "PERMISSION");
    assert_eq!(Error::io(IoKind::Other).status, 500);
    assert_eq!(open_failure(IoKind::Other, true).code, "FORBIDDEN");
    assert_eq!(open_failure(IoKind::NotFound, false).code, "NOT_FOUND");
}

#[test]
fn node_paths_are_validated_against_the_root() {
    let root = FileRoot::new("r1".to_owned(), "n0".to_owned(), "/logs".to_owned(), "1-2".to_owned(), ());
    let plain = |n: usize| (0..n).map(|i| PathPart::Normal(format!("d{i}"))).collect::<Vec<_>>();
    assert!(root.validate(false, "1-2", &plain(3), 8).is_ok());
    assert_eq!(root.validate(true, "1-2", &plain(1), 2).unwrap_err().code, "ROOT_CHANGED");
    assert_eq!(root.validate(false, "1-3", &plain(1), 2).unwrap_err().code, "ROOT_CHANGED");
    assert_eq!(root.validate(false, "1-2", &plain(65), 200).unwrap_err().code, "LIMIT");
    assert_eq!(root.validate(false, "1-2", &plain(1), 4097).unwrap_err().code, "LIMIT");
    let mut up = plain(2);
    up.push(PathPart::Other);
    assert_eq!(root.validate(false, "1-2", &up, 10).unwrap_err().code, "FORBIDDEN");
}

#[test]
fn ended_active_segments_in_the_hourly_layout_are_recovered() {
    let name = "app-02-1-2-3-h1792886400-s1.active.log";
    assert!(recovery_candidate(true, 2, true, name, 1792890000).is_some());
    assert!(recovery_candidate(true, 2, true, name, 1792889999).is_none());
    assert!(recovery_candidate(false, 2, true, name, 1792890000).is_none());
    assert!(recovery_candidate(true, 1, true, name, 1792890000).is_none());
    assert!(recovery_candidate(true, 2, true, "app-02-1-2-3-h1792886400-s1.log", 1792890000).is_none());
}

#[test]
fn archive_headers_use_a_long_name_record_when_the_path_does_not_fit() {
    let short = rlogger::archive::tar_headers("2026-09-08/api/app.log", false, 10, 7).unwrap();
    assert_eq!(short.len(), 512);
    let h = tar::Header::from_byte_slice(&short);
    assert_eq!(h.size().unwrap(), 10);
    assert_eq!(h.mode().unwrap(), 0o644);
    assert_eq!(h.mtime().unwrap(), 7);
    assert_eq!(h.entry_type(), tar::EntryType::Regular);
    assert_eq!(h.path().unwrap().to_str().unwrap(), "2026-09-08/api/app.log");
    let dir = rlogger::archive::tar_headers("logs", true, 99, 0).unwrap();
    let h = tar::Header::from_byte_slice(&dir);
    assert_eq!((h.size().unwrap(), h.mode().unwrap(), h.entry_type()), (0, 0o755, tar::EntryType::Directory));
    let long_name = "x".repeat(120);
    let long = rlogger::archive::tar_headers(&long_name, false, 1, 0).unwrap();
    assert_eq!(long.len(), 512 + 512 + 512);
    assert_eq!(&long[512..632], long_name.as_bytes());
    assert!(long[632..1024].iter().all(|b| *b == 0));
    let record = tar::Header::from_byte_slice(&long[..512]);
    assert_eq!(record.entry_type(), tar::EntryType::GNULongName);
    assert_eq!(record.size().unwrap(), 121);
    let entry = tar::Header::from_byte_slice(&long[1024..]);
    assert_eq!(entry.path().unwrap().to_str().unwrap(), "entry");
    assert_eq!(archive_len(&vec![(long.len() as u64, 1)]).unwrap(), 1024 + 1536 + 512);
}

#[test]
fn reader_checks_give_their_errors() {
    assert!(root_input("/var/log").is_ok());
    for bad in ["relative/path", "", "/a\0b"] {
        let e = root_input(bad).unwrap_err();
        assert_eq!((e.code, e.message.as_str(), e.status), ("INVALID_REQUEST", "Saisissez un chemin absolu de dossier.", 400));
    }
    assert!(root_input(&format!("/{}", "x".repeat(4096))).is_err());
    assert!(directory_check(true).is_ok());
    assert_eq!(directory_check(false).unwrap_err().message, "Ce chemin d\u{e9}signe un fichier, pas un dossier.");
    assert!(listing_limit(199_999).is_ok());
    assert_eq!(listing_limit(200_000).unwrap_err().code, "LIMIT");
    assert!(listing_unchanged("r1", "r1").is_ok());
    assert_eq!(listing_unchanged("r1", "r2").unwrap_err().code, "CURSOR_INVALID");
    assert!(opened_check(true, true, true, true).is_ok());
    assert_eq!(opened_check(false, true, true, true).unwrap_err().code, "INVALID_REQUEST");
    assert_eq!(opened_check(true, true, false, true).unwrap_err().code, "GENERATION_CHANGED");
    assert_eq!(anchor_offset(10), 0);
    assert_eq!(anchor_offset(100), 36);
    assert_eq!(rlogger::management::allocated_size(8), "4096");
    assert_eq!(rlogger::archive::tar_padding(0), 0);
    assert_eq!(rlogger::archive::tar_padding(1), 511);
    assert_eq!(rlogger::archive::tar_padding(512), 0);
    let e = rlogger::server::partial_deletion(Error::new("FILE_BUSY", "Occup\u{e9}.".to_owned(), 409), 3);
    assert_eq!(e.message, "Suppression partielle (3 entr\u{e9}es supprim\u{e9}es). Occup\u{e9}. Actualisez le dossier.");
    assert_eq!(e.code, "FILE_BUSY");
    let same = rlogger::server::partial_deletion(Error::new("FILE_BUSY", "Occup\u{e9}.".to_owned(), 409), 0);
    assert_eq!(same.message, "Occup\u{e9}.");
}

#[test]
fn remembered_generations_are_listed() {
    let mut root = FileRoot::new("r1".to_owned(), "n0".to_owned(), "/logs".to_owned(), "1-2".to_owned(), ());
    let a = root.remember("a.log".to_owned(), Kind::File);
    assert!(root.generation_nodes().is_empty());
    let g = root.record_generation(&a, true, "7:9:None".to_owned(), 10, vec![1, 2, 3]);
    assert_eq!(root.generation_nodes(), vec![a.clone()]);
    let again = root.record_generation(&a, false, "7:9:None".to_owned(), 12, vec![4]);
    assert_eq!(g, again);
}

#[test]
fn finalized_active_file_is_followed_to_its_closed_name() {
    let mut root = FileRoot::new("r1".to_owned(), "n0".to_owned(), "/logs".to_owned(), "1-2".to_owned(), ());
    let a = root.remember("2026-09-08/api/app-s1.active.log".to_owned(), Kind::File);
    let d = root.remember("2026-09-08".to_owned(), Kind::Directory);
    assert_eq!(root.relocate("missing", false, &vec![]).unwrap_err().code, "NODE_EXPIRED");
    assert_eq!(root.relocate(&d, false, &vec![]).unwrap_err().code, "INVALID_REQUEST");
    // Nothing read yet from the file: nothing to follow.
    assert!(matches!(root.relocate(&a, false, &vec![Some("7:9".to_owned())]), Ok(false)));
    root.record_generation(&a, true, "7:9".to_owned(), 10, vec![1]);
    let r = root.relocation(&a).unwrap().unwrap();
    assert_eq!(r.targets, vec!["2026-09-08/api/app-s1.log".to_owned(), "2026-09-08/api/app-s1.recovered.log".to_owned()]);
    // Still at its active path.
    assert!(matches!(root.relocate(&a, true, &vec![]), Ok(false)));
    // Another file under the closed name, the one last read under the recovered name.
    assert!(matches!(root.relocate(&a, false, &vec![Some("8:1".to_owned()), None]), Ok(false)));
    assert!(matches!(root.relocate(&a, false, &vec![Some("8:1".to_owned()), Some("7:9".to_owned())]), Ok(true)));
    assert_eq!(root.management_path(&a).unwrap(), "2026-09-08/api/app-s1.recovered.log");
    assert_eq!(root.remember("2026-09-08/api/app-s1.recovered.log".to_owned(), Kind::File), a);
}

#[test]
fn directory_revision_joins_identity_and_times() {
    let mut root = FileRoot::new("r1".to_owned(), "n0".to_owned(), "/logs".to_owned(), "1-2".to_owned(), ());
    let d = root.remember("2026-09-08".to_owned(), Kind::Directory);
    let f = root.remember("a.log".to_owned(), Kind::File);
    let stamp = || DirectoryStamp { identity: "5:6:None".to_owned(), mtime: 10, mtime_nsec: 20, ctime: -3, ctime_nsec: 4 };
    assert_eq!(root.directory_revision(&d, Ok(stamp())).unwrap(), "5:6:None:10:20:-3:4");
    assert_eq!(root.directory_revision(&f, Ok(stamp())).unwrap_err().code, "INVALID_REQUEST");
    assert_eq!(root.directory_revision("gone", Ok(stamp())).unwrap_err().code, "NODE_EXPIRED");
    let refused = Error::of("ROOT_CHANGED", "Le dossier racine a \u{e9}t\u{e9} remplac\u{e9}.", 409);
    let e = root.directory_revision(&d, Err(refused)).unwrap_err();
    assert_eq!((e.code, e.message.as_str(), e.status), ("ROOT_CHANGED", "Le dossier racine a \u{e9}t\u{e9} remplac\u{e9}.", 409));
}

#[test]
fn file_state_of_an_unavailable_root_is_read_only() {
    assert_eq!(
        file_state(None, 0),
        ("legacy".to_owned(), false, "Racine indisponible : consultation seule.".to_owned())
    );
    let facts = FileFacts {
        managed: Ok(()),
        chain: Ok(()),
        layout: true,
        file_name: Some("app-02-1-2-3-h1792886400-s1.log".to_owned()),
        lease_present: true,
    };
    assert_eq!(file_state(Some(facts), 1792890000), ("closed".to_owned(), true, String::new()));
}

#[test]
fn options_default_and_bounded_poll() {
    let mut o = Options::default();
    assert_eq!(o.port, 4317);
    assert_eq!(o.dist, "front-react-logger/dist");
    assert_eq!((o.poll_ms, o.ack_timeout_ms, o.session_ttl_ms, o.download_ticket_ttl_ms), (250, 10_000, 120_000, 30_000));
    assert!(!o.dev_reload);
    o.set_poll_ms(3);
    assert_eq!(o.poll_ms, 10);
    o.set_poll_ms(9000);
    assert_eq!(o.poll_ms, 5000);
    o.set_poll_ms(400);
    assert_eq!(o.poll_ms, 400);
}

#[test]
fn pages_list_names_in_descending_order() {
    let names: Vec<String> = (0..510).map(|n| format!("{n:04}.txt")).collect();
    let page_of = |before: Option<&str>| {
        let mut page = Page::new();
        for n in &names {
            if page_candidate(n, before) {
                page.offer(n.clone(), Kind::File);
            }
        }
        page.finish()
    };
    let (first, more) = page_of(None);
    assert_eq!(first.len(), 500);
    assert_eq!(first[0].0, "0509.txt");
    assert_eq!(first[499].0, "0010.txt");
    assert!(more);
    let (last, more) = page_of(Some(&first[499].0));
    assert_eq!(last.len(), 10);
    assert_eq!(last[0].0, "0009.txt");
    assert_eq!(last[9].0, "0000.txt");
    assert!(!more);
}

#[test]
fn query_pairs_decode_and_last_value_wins() {
    let pairs = query_pairs(Some("parentId=a%20b&cursor=x+y&parentId=c"));
    assert_eq!(pairs.len(), 3);
    assert_eq!(pairs[1], ("cursor".to_owned(), "x y".to_owned()));
    assert_eq!(query_value(&pairs, "parentId"), Some("c".to_owned()));
    assert_eq!(query_value(&pairs, "cursor"), Some("x y".to_owned()));
    assert_eq!(query_value(&pairs, "missing"), None);
    assert!(query_pairs(None).is_empty());
}

#[test]
fn asset_paths_are_decoded_and_confined() {
    assert_eq!(asset_target("/assets/app%2Ejs").unwrap(), vec!["assets".to_owned(), "app.js".to_owned()]);
    assert_eq!(asset_target("//a//./b/").unwrap(), vec!["a".to_owned(), "b".to_owned()]);
    assert!(asset_target("/").unwrap().is_empty());
    for bad in ["/../etc/passwd", "/a/%2E%2E/b", "/./a", "/%FF"] {
        let e = asset_target(bad).unwrap_err();
        assert_eq!((e.code, e.message.as_str(), e.status), ("FORBIDDEN", "Asset refus\u{e9}.", 403));
    }
    assert_eq!(asset_target("/a/...").unwrap(), vec!["a".to_owned(), "...".to_owned()]);
}

#[test]
fn cursor_bytes_round_trip_and_disposition() {
    let text = encode_cursor_bytes(b"{\"a\":1}");
    assert_eq!(text, "eyJhIjoxfQ");
    assert_eq!(decode_cursor_bytes(&text), Some(b"{\"a\":1}".to_vec()));
    assert_eq!(decode_cursor_bytes("***"), None);
    assert_eq!(content_disposition("r\u{e9}sum\u{e9}.log"), "attachment; filename=\"log.log\"; filename*=UTF-8''r%C3%A9sum%C3%A9%2Elog");
}

#[test]
fn inventory_limits_and_cleanup() {
    assert!(scan_continue(64, 199_999, true));
    assert!(!scan_continue(65, 0, true));
    assert!(!scan_continue(0, 200_000, true));
    assert!(!scan_continue(0, 0, false));
    assert!(entries_left(199_999));
    assert!(!entries_left(200_000));
    assert_eq!(scan_limit_notice(1), None);
    assert_eq!(scan_limit_notice(200_000).unwrap(), "Limite de 200 000 entr\u{e9}es parcourues atteinte.");
    assert!(cleanup_due(true, Some("2026-01-01"), (2026, 1, 2)));
    assert!(!cleanup_due(false, Some("2026-01-01"), (2026, 1, 2)));
    assert!(!cleanup_due(true, Some("2026-01-02"), (2026, 1, 2)));
    assert!(!cleanup_due(true, Some("notes"), (2026, 1, 2)));
}

#[test]
fn remembered_nodes_get_uuid_identifiers() {
    let mut root = FileRoot::new("r1".to_owned(), "n0".to_owned(), "/logs".to_owned(), "1-2".to_owned(), ());
    let a = root.remember("a.log".to_owned(), Kind::File);
    let c: Vec<char> = a.chars().collect();
    assert_eq!(c.len(), 36);
    assert_eq!((c[8], c[13], c[14], c[18], c[23]), ('-', '-', '4', '-', '-'));
    assert_ne!(a, "a.log");
    assert_eq!(root.directory_handle(), ());
}

#[test]
fn sessions_tickets_and_refresh_throttle() {
    assert!(rlogger::server::session_admission(3).is_ok());
    let e = rlogger::server::session_admission(4).unwrap_err();
    assert_eq!((e.code, e.message.as_str(), e.status), ("LIMIT", "Quatre lecteurs sont d\u{e9}j\u{e0} ouverts.", 429));
    assert!(rlogger::server::session_kept(true, 1_000_000, 0, 10));
    assert!(rlogger::server::session_kept(false, 100, 95, 10));
    assert!(!rlogger::server::session_kept(false, 100, 90, 10));
    assert!(rlogger::server::session_kept(false, 5, 90, 10));
    assert_eq!(rlogger::server::ticket_ttl_ms(10_000), 10_000);
    assert_eq!(rlogger::server::ticket_ttl_ms(60_000), 30_000);
    assert!(rlogger::server::refresh_due(None));
    assert!(!rlogger::server::refresh_due(Some(59_999)));
    assert!(rlogger::server::refresh_due(Some(60_000)));
}

#[test]
fn tree_limits_budget_and_removal_order() {
    assert!(rlogger::server::tree_entry_check(64, 199_999, 33_554_432).is_ok());
    for (d, n, b) in [(65, 0, 0), (0, 200_000, 0), (0, 0, 33_554_433)] {
        let e = rlogger::server::tree_entry_check(d, n, b).unwrap_err();
        assert_eq!((e.code, e.status), ("LIMIT", 413));
    }
    assert_eq!(rlogger::server::tree_budget(10, 4), 270);
    assert_eq!(rlogger::server::tree_budget(usize::MAX - 100, 4), usize::MAX);
    assert_eq!(rlogger::server::removal_order(3), vec![2, 1, 0]);
    assert!(rlogger::server::removal_order(0).is_empty());
}

#[test]
fn new_generation_is_the_drawn_identifier() {
    let mut root = FileRoot::new("r1".to_owned(), "n0".to_owned(), "/logs".to_owned(), "1-2".to_owned(), ());
    let a = root.remember("a.log".to_owned(), Kind::File);
    assert_eq!(root.record_generation_from(&a, false, "7:9".to_owned(), 10, vec![1], "g1".to_owned()), "g1");
    assert_eq!(root.record_generation_from(&a, false, "7:9".to_owned(), 12, vec![2], "g2".to_owned()), "g1");
    assert_eq!(root.record_generation_from(&a, true, "8:1".to_owned(), 3, vec![3], "g3".to_owned()), "g3");
    let drawn = root.record_generation(&a, true, "8:2".to_owned(), 4, vec![4]);
    assert_ne!(drawn, "g3");
    assert_eq!(drawn.len(), 36);
}
