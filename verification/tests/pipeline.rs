//! Scenarios of the logger driven step by step: admission, the writer's
//! grouping and lines, flushes, overload summaries and shutdown, with a
//! controlled clock and an in-memory output.
use rlogger::control::WriterStep;
use rlogger::engine::{Item, Stamp, State};
use rlogger::fields::Fields;
use rlogger::grouping::Selector;
use rlogger::model::{Config, EmitResult, Error, Health, InstanceConfig, Refusal, Report, Route, Source, MILLISECOND};
use rlogger::time::LocalTime;
use rlogger::value::{Level, Value};
use rlogger::worker::{Confirmation, Outcome, Worker};
use std::collections::BTreeMap;

struct Clock {
    mono_ms: u64,
    civil: LocalTime,
    offsets: BTreeMap<(i64, u32), i32>,
}

fn civil(text: &str) -> LocalTime {
    let t = chrono::DateTime::parse_from_rfc3339(text).unwrap();
    LocalTime { timestamp: t.timestamp(), nanos: t.timestamp_subsec_nanos(), offset: t.offset().local_minus_utc() }
}

impl Clock {
    fn new() -> Clock {
        Clock { mono_ms: 0, civil: civil("2026-09-08T12:00:00+02:00"), offsets: BTreeMap::new() }
    }
    fn set(&mut self, mono_ms: u64, text: &str) {
        self.mono_ms = mono_ms;
        self.civil = civil(text);
        self.offsets.insert((self.civil.timestamp, self.civil.nanos), self.civil.offset);
    }
    fn now(&self) -> Stamp {
        Stamp { mono: self.mono_ms * MILLISECOND, wall_secs: self.civil.timestamp, wall_nanos: self.civil.nanos }
    }
    fn local(&self, s: &Stamp) -> LocalTime {
        let offset = *self.offsets.get(&(s.wall_secs, s.wall_nanos)).unwrap_or(&self.civil.offset);
        LocalTime { timestamp: s.wall_secs, nanos: s.wall_nanos, offset }
    }
}

struct Sim {
    state: State,
    worker: Worker,
    clock: Clock,
    config: Config,
    lines: BTreeMap<String, String>,
    fail_write: bool,
    fail_flush: bool,
}

impl Sim {
    fn new(mut config: Config) -> Sim {
        config.group_duration = 200 * MILLISECOND;
        let state = State::start(&config).unwrap();
        Sim {
            state,
            worker: Worker::new(),
            clock: Clock::new(),
            config,
            lines: BTreeMap::new(),
            fail_write: false,
            fail_flush: false,
        }
    }
    fn instance(&mut self, config: InstanceConfig) -> Result<usize, Error> {
        let app = self.config.context.duplicate();
        self.state.instance(config, &app)
    }
    fn emit_with(&mut self, id: usize, level: Level, source: Source, dest: Option<&str>, fields: &Fields, base: &Fields, message: &str) -> EmitResult {
        assert!(self.state.has_room(1));
        let stamp = self.clock.now();
        self.state.emit(id, level, source, dest, fields, base, message.to_owned(), None, stamp)
    }
    fn emit(&mut self, id: usize, message: &str) -> EmitResult {
        let base = self.state.instances[id].context.duplicate();
        self.emit_with(id, Level::Info, Source::unknown(), None, &Fields::new(), &base, message)
    }
    /// Gives back `n` slots, as the writer does, stopping when none is held.
    fn release(&mut self, n: u64) {
        for _ in 0..n {
            let queued = self.state.queue.iter().filter(|i| matches!(i, Item::Event(_))).count();
            if self.state.reserved_events <= queued {
                break;
            }
            self.state.release();
        }
    }
    /// The writer stops on a disk error: the runtime fails and the events
    /// still grouped give their slots back.
    fn stop(&mut self, why: &str) {
        let held = self.worker.groups.take(Selector::All).len();
        self.state.writer_failed(why.to_owned(), held);
    }
    fn write(&mut self, out: Outcome) -> bool {
        let mut written = true;
        for line in out.lines {
            if self.fail_write {
                written = false;
                break;
            }
            self.lines.entry(line.path).or_default().push_str(&line.text);
        }
        self.release(out.released);
        if !written {
            self.stop("injected write");
        }
        written
    }
    fn flush_output(&mut self) -> bool {
        if self.worker.unconfirmed.is_empty() {
            return true;
        }
        if self.fail_flush {
            self.stop("injected flush");
            return false;
        }
        let list = self.worker.take_confirmations();
        assert!(self.state.confirm_all(&list));
        true
    }
    fn finish(&mut self, sel: Selector) -> bool {
        let now = self.clock.now().mono;
        let out = self.worker.finish(sel, now).unwrap();
        self.write(out)
    }
    /// One pass of the writer until nothing is queued.
    fn pump(&mut self) {
        loop {
            let stamp = self.clock.now();
            let gd = self.config.group_duration;
            if !self.finish(Selector::Expired { now: stamp.mono, wall: stamp.wall_secs, group_duration: gd }) {
                return;
            }
            if self.worker.flush_due(stamp.mono, self.config.flush_interval) {
                if !self.flush_output() {
                    return;
                }
                self.worker.last_flush = stamp.mono;
            }
            match self.state.next_step(stamp) {
                WriterStep::Stop | WriterStep::Idle => return,
                WriterStep::Next(Item::Event(e)) => {
                    let local = self.clock.local(&e.stamp);
                    let out = self.worker.on_event(e, local, stamp.mono, gd).unwrap();
                    if !self.write(out) {
                        return;
                    }
                }
                WriterStep::Next(Item::Summary { instance, stamp: at, sequence, count }) => {
                    let name = self.state.instances[instance].name.clone();
                    let dest = self.state.instances[instance].destinations[0].clone();
                    let local = self.clock.local(&at);
                    let out = self.worker.on_summary(instance, &name, &dest, at, local, sequence, count, stamp.mono).unwrap();
                    if !self.write(out) {
                        return;
                    }
                    self.state.summary_written(instance);
                }
                WriterStep::Next(Item::Barrier(b)) => {
                    if !self.finish(Selector::All) || !self.flush_output() {
                        return;
                    }
                    self.state.complete_barrier(b);
                }
                WriterStep::Next(Item::Shutdown) => {
                    if self.state.shutdown_step(stamp) {
                        continue;
                    }
                    if !self.finish(Selector::All) || !self.flush_output() {
                        return;
                    }
                    self.state.mark_closed();
                    return;
                }
            }
        }
    }
    fn flush(&mut self) -> Result<Report, Error> {
        let b = self.state.request_barrier(self.clock.now())?;
        self.pump();
        match self.state.barrier_status(b) {
            Some(Ok(())) => Ok(self.state.report()),
            Some(Err(e)) => Err(e),
            None => panic!("barrier not reached"),
        }
    }
    fn shutdown(&mut self) -> Result<Report, Report> {
        self.state.begin_shutdown(self.clock.now());
        self.pump();
        match self.state.shutdown_outcome() {
            Ok(r) => Ok(r),
            Err(e) => Err(*e.report),
        }
    }
    fn all(&self) -> String {
        self.lines.values().cloned().collect()
    }
}

fn config() -> Config {
    Config::new("unused".to_owned())
}

fn fields(pairs: &[(&str, Value)]) -> Fields {
    let mut f = Fields::new();
    for (k, v) in pairs {
        f.insert((*k).to_owned(), v.duplicate());
    }
    f
}

#[test]
fn consecutive_groups_and_escaped_fields() {
    let mut sim = Sim::new(config());
    let l = sim.instance(InstanceConfig::new("test".to_owned())).unwrap();
    for m in ["A", "A", "B", "A", "A"] {
        assert!(matches!(sim.emit(l, m), EmitResult::Accepted(_)));
    }
    let report = sim.shutdown().unwrap();
    assert_eq!(report.totals.written, 5);
    assert_eq!(report.totals.lines, 3);
    assert_eq!(report.reserved_bytes, 0);
    let s = sim.all();
    assert_eq!(s.lines().filter(|l| l.ends_with("A x2")).count(), 2);
    assert!(s.contains("seq_first=4 seq_last=5 count=2"));
    assert_eq!(s.matches("LATENCY").count(), 3);
}

#[test]
fn overload_control_survives_full_queue_and_breaks_continuity() {
    let mut cfg = config();
    cfg.max_events = 1;
    let mut sim = Sim::new(cfg);
    let l = sim.instance(InstanceConfig::new("test".to_owned())).unwrap();
    assert_eq!(sim.emit(l, "A"), EmitResult::Accepted(1));
    assert_eq!(sim.emit(l, "A"), EmitResult::Refused(Refusal::Full));
    sim.flush().unwrap();
    assert!(matches!(sim.emit(l, "A"), EmitResult::Accepted(_)));
    let r = sim.shutdown().unwrap();
    assert_eq!(r.totals.full, 1);
    assert_eq!(r.totals.overload_reported, 1);
    assert_eq!(r.totals.written, 2);
    assert!(!sim.all().contains("x2"));
    assert!(sim.all().contains("OVERLOAD refused=1"));
}

#[test]
fn context_is_immutable_bounded_and_overridden_by_event() {
    let mut sim = Sim::new(config());
    let l = sim.instance(InstanceConfig::new("test".to_owned())).unwrap();
    let base = sim.state.instances[l].context.duplicate();
    let a = sim.state.with_context(&base, &fields(&[("call_id", Value::text("a"))])).unwrap();
    let b = sim.state.with_context(&base, &fields(&[("call_id", Value::text("b"))])).unwrap();
    sim.emit_with(l, Level::Info, Source::unknown(), None, &Fields::new(), &a, "A");
    sim.emit_with(l, Level::Info, Source::unknown(), None, &Fields::new(), &b, "A");
    let event = fields(&[("call_id", Value::text("override")), ("note", Value::text("a\nb\r\t\u{1b}"))]);
    sim.emit_with(l, Level::Info, Source::unknown(), None, &event, &a, "Unicode 🦀\nnext");
    sim.shutdown().unwrap();
    let text = sim.all();
    assert_eq!(text.lines().count(), 3);
    assert!(text.contains("call_id=\"a\""));
    assert!(text.contains("call_id=\"b\""));
    assert!(text.contains("call_id=\"override\""));
    assert!(text.contains("note=\"a\\nb\\r\\t\\u{1b}\""));
    assert!(text.contains("Unicode 🦀\\nnext"));
    sim.state.release_context();
    sim.state.release_context();
    assert_eq!(sim.state.report().context_bytes, 0);
}

#[test]
fn oversized_invalid_filtered_and_unknown_are_distinct() {
    let mut sim = Sim::new(config());
    let l = sim.instance(InstanceConfig::new("test".to_owned())).unwrap();
    let base = Fields::new();
    assert_eq!(
        sim.emit_with(l, Level::Debug, Source::unknown(), None, &Fields::new(), &base, "never"),
        EmitResult::Filtered
    );
    assert_eq!(sim.emit(l, &"x".repeat(8193)), EmitResult::Refused(Refusal::TooLarge));
    assert_eq!(
        sim.emit_with(l, Level::Info, Source::unknown(), Some("../escape"), &Fields::new(), &base, "x"),
        EmitResult::Refused(Refusal::UnknownDestination)
    );
    assert_eq!(
        sim.emit_with(l, Level::Info, Source::unknown(), None, &fields(&[("seq", Value::U64(1))]), &base, "x"),
        EmitResult::Refused(Refusal::Invalid)
    );
    let nan = Value::F64 { bits: f64::NAN.to_bits(), debug: "NaN".to_owned() };
    assert_eq!(
        sim.emit_with(l, Level::Info, Source::unknown(), None, &fields(&[("v", nan)]), &base, "x"),
        EmitResult::Refused(Refusal::Invalid)
    );
    assert_eq!(sim.state.report().reserved_bytes, 0);
    let r = sim.shutdown().unwrap();
    assert_eq!(r.totals.filtered, 1);
    assert_eq!(r.totals.too_large, 1);
    assert_eq!(r.totals.unknown_destination, 1);
    assert_eq!(r.totals.invalid, 2);
}

#[test]
fn configuration_and_registry_reject_invalid_limits_and_names() {
    let mut c = config();
    c.max_events = 0;
    assert!(c.validate().is_err());
    let mut sim = Sim::new(config());
    for name in ["Test", "../escape", "con", ""] {
        assert!(sim.instance(InstanceConfig::new(name.to_owned())).is_err());
    }
    assert!(sim.instance(InstanceConfig::new("test".to_owned())).is_ok());
    assert_eq!(
        sim.instance(InstanceConfig::new("test".to_owned())),
        Err(Error::Invalid("duplicate instance name"))
    );
    let mut c = InstanceConfig::new("routes".to_owned());
    c.destinations = vec!["a".to_owned(), "a".to_owned()];
    assert_eq!(sim.instance(c), Err(Error::Invalid("duplicate destination")));
    sim.shutdown().unwrap();
    assert_eq!(sim.instance(InstanceConfig::new("closed".to_owned())), Err(Error::Closed));
}

#[test]
fn routing_uses_segments_and_longest_prefix() {
    let mut sim = Sim::new(config());
    let mut c = InstanceConfig::new("router".to_owned());
    c.destinations = vec!["default".to_owned(), "module".to_owned(), "nested".to_owned()];
    c.routes = vec![
        Route { module_prefix: "app::http".to_owned(), destination: "module".to_owned() },
        Route { module_prefix: "app::http::api".to_owned(), destination: "nested".to_owned() },
    ];
    let l = sim.instance(c).unwrap();
    let base = Fields::new();
    for module in ["app::http", "app::https", "app::http::api::get"] {
        let source = Source { module, file: "", line: 0 };
        sim.emit_with(l, Level::Info, source, None, &Fields::new(), &base, module);
    }
    sim.shutdown().unwrap();
    assert!(sim.lines["2026-09-08/router/default-12-h1788861600"].contains("app::https"));
    assert!(sim.lines["2026-09-08/router/module-12-h1788861600"].ends_with("app::http\n"));
    assert!(sim.lines["2026-09-08/router/nested-12-h1788861600"].ends_with("app::http::api::get\n"));
}

#[test]
fn disk_errors_fail_stop_and_keep_unconfirmed_counts() {
    for (write, flush) in [(true, false), (false, true)] {
        let mut sim = Sim::new(config());
        sim.fail_write = write;
        sim.fail_flush = flush;
        let l = sim.instance(InstanceConfig::new("a".to_owned())).unwrap();
        sim.emit(l, "A");
        let e = sim.shutdown().unwrap_err();
        assert_eq!(e.health, Health::Failed);
        assert_eq!(e.pending, 1);
        assert_eq!(e.totals.written, 0);
        assert_eq!(e.reserved_bytes, 0);
        assert_eq!(sim.state.reserved_events, 0);
        assert_eq!(sim.emit(l, "B"), EmitResult::Refused(Refusal::Failed));
        assert!(sim.shutdown().is_err());
    }
}

#[test]
fn monotone_latency_ignores_civil_rollback() {
    let mut sim = Sim::new(config());
    let l = sim.instance(InstanceConfig::new("test".to_owned())).unwrap();
    sim.emit(l, "A");
    sim.clock.set(175, "2026-09-08T11:00:00+02:00");
    sim.flush().unwrap();
    assert!(sim.all().contains("LATENCY \u{2014} 175ms"));
    sim.shutdown().unwrap();
}

#[test]
fn noncontiguous_global_sequences_and_refusal_boundaries() {
    let mut sim = Sim::new(config());
    let mut c = InstanceConfig::new("projection".to_owned());
    c.destinations = vec!["a".to_owned(), "b".to_owned()];
    let l = sim.instance(c).unwrap();
    let base = Fields::new();
    for (dest, message) in [("a", "A"), ("b", "B"), ("a", "A"), ("unknown", "refused"), ("a", "A")] {
        sim.emit_with(l, Level::Info, Source::unknown(), Some(dest), &Fields::new(), &base, message);
    }
    let report = sim.shutdown().unwrap();
    assert_eq!(report.totals.written, 4);
    let a = &sim.lines["2026-09-08/projection/a-12-h1788861600"];
    assert!(a.contains("seq_first=1 seq_last=3 count=2"));
    assert_eq!(a.lines().count(), 2);
}

#[test]
fn delayed_midnight_and_repeated_hour_keep_capture_paths_and_split_groups() {
    let mut sim = Sim::new(config());
    let l = sim.instance(InstanceConfig::new("rotation".to_owned())).unwrap();
    sim.clock.set(0, "2026-09-08T23:59:59+02:00");
    sim.emit(l, "midnight");
    sim.clock.set(1, "2026-09-09T00:00:00+02:00");
    sim.emit(l, "midnight");
    sim.clock.set(2, "2026-10-25T02:30:00+02:00");
    sim.emit(l, "repeated");
    sim.clock.set(3, "2026-10-25T02:30:00+01:00");
    sim.emit(l, "repeated");
    sim.shutdown().unwrap();
    assert!(sim.lines.keys().any(|s| s.starts_with("2026-09-08/rotation/app-23-h")));
    assert!(sim.lines.keys().any(|s| s.starts_with("2026-09-09/rotation/app-00-h")));
    let repeated = sim
        .lines
        .iter()
        .filter(|(p, _)| p.starts_with("2026-10-25/rotation/app-02-h"))
        .map(|(_, s)| s.as_str())
        .collect::<String>();
    assert_eq!(repeated.lines().count(), 2);
    assert!(repeated.contains("+02:00"));
    assert!(repeated.contains("+01:00"));
    assert!(!repeated.contains("x2"));
}

#[test]
fn isolated_group_deadline_flushes_without_another_event() {
    let mut sim = Sim::new(config());
    let l = sim.instance(InstanceConfig::new("deadline".to_owned())).unwrap();
    sim.emit(l, "isolated");
    sim.pump();
    assert!(sim.all().is_empty());
    sim.clock.set(201, "2026-09-08T12:00:00.201+02:00");
    sim.pump();
    let line = sim.all();
    assert!(line.contains("LATENCY \u{2014} 201ms"));
    assert!(line.ends_with("isolated\n"));
    assert_eq!(sim.shutdown().unwrap().totals.written, 1);
}

#[test]
fn context_budget_frees_on_last_clone_and_drop_drains() {
    let mut c = config();
    c.max_context_bytes = 8192;
    let mut sim = Sim::new(c);
    let l = sim.instance(InstanceConfig::new("test".to_owned())).unwrap();
    let base = sim.state.instances[l].context.duplicate();
    let _context = sim.state.with_context(&base, &fields(&[("call_id", Value::text("one"))])).unwrap();
    assert!(matches!(sim.state.with_context(&base, &Fields::new()), Err(Error::Limit("shared context budget"))));
    assert_eq!(sim.state.report().context_bytes, 8192);
    sim.state.release_context();
    assert_eq!(sim.state.report().context_bytes, 0);
    sim.emit(l, "drop drains");
    sim.shutdown().unwrap();
    assert!(sim.all().ends_with("drop drains\n"));
    assert_eq!(sim.emit(l, "closed"), EmitResult::Refused(Refusal::Closed));
}

#[test]
fn shared_contract_fixture_matches_writer() {
    let mut sim = Sim::new(config());
    let l = sim.instance(InstanceConfig::new("test".to_owned())).unwrap();
    let source = Source { module: "fixture", file: "fixture.rs", line: 1 };
    let f = fields(&[("call_id", Value::text("c1"))]);
    let base = Fields::new();
    for message in ["A", "A", "B", "A", "A"] {
        sim.emit_with(l, Level::Info, source, None, &f, &base, message);
    }
    sim.emit_with(l, Level::Error, source, None, &f, &base, "Erreur 🦀\nligne\t\u{1b}");
    let report = sim.shutdown().unwrap();
    assert_eq!(report.totals.written, 6);
    let t = "2026-09-08T12:00:00.000+02:00";
    let meta = "instance=test source=\"fixture:fixture.rs:1\" call_id=\"c1\"";
    let expected = format!(
        "RLOG/1 {t} INFO [LATENCY \u{2014} 0ms] [seq_first=1 seq_last=2 count=2 last={t} {meta}] A x2\n\
         RLOG/1 {t} INFO [LATENCY \u{2014} 0ms] [seq=3 {meta}] B\n\
         RLOG/1 {t} INFO [LATENCY \u{2014} 0ms] [seq_first=4 seq_last=5 count=2 last={t} {meta}] A x2\n\
         RLOG/1 {t} ERROR [LATENCY \u{2014} 0ms] [seq=6 {meta}] Erreur 🦀\\nligne\\t\\u{{1b}}\n"
    );
    assert_eq!(sim.all(), expected);
}

#[test]
fn report_orders_instances_by_name_and_reconciles() {
    let mut sim = Sim::new(config());
    let b = sim.instance(InstanceConfig::new("beta".to_owned())).unwrap();
    let a = sim.instance(InstanceConfig::new("alpha".to_owned())).unwrap();
    sim.emit(b, "x");
    sim.emit(a, "y");
    sim.emit(a, "y");
    let r = sim.flush().unwrap();
    assert_eq!(r.instances.len(), 2);
    assert_eq!(r.instances[0].0, "alpha");
    assert_eq!(r.instances[0].1.accepted, 2);
    assert_eq!(r.instances[1].0, "beta");
    assert_eq!(r.totals.accepted, 3);
    assert_eq!(r.totals.written, 3);
    assert_eq!(r.totals.lines, 2);
    assert_eq!(r.pending, 0);
    assert_eq!(r.reserved_events, 0);
}

#[test]
fn drained_writer_wrote_every_accepted_event() {
    let mut sim = Sim::new(config());
    let a = sim.instance(InstanceConfig::new("alpha".to_owned())).unwrap();
    let b = sim.instance(InstanceConfig::new("beta".to_owned())).unwrap();
    for (i, m) in ["x", "x", "y", "x", "z", "z"].iter().enumerate() {
        let id = if i % 2 == 0 { a } else { b };
        assert!(matches!(sim.emit(id, m), EmitResult::Accepted(_)));
    }
    sim.flush().unwrap();
    assert!(sim.worker.groups.list.is_empty());
    assert!(sim.worker.unconfirmed.is_empty());
    for stats in &sim.state.stats {
        assert_eq!(stats.counters.accepted, stats.counters.written);
    }
    let report = sim.shutdown().unwrap();
    assert_eq!(report.pending, 0);
    assert_eq!(report.totals.accepted, 6);
}

#[test]
fn confirmations_apply_in_order_and_stop_at_a_misfit() {
    let mut sim = Sim::new(config());
    let l = sim.instance(InstanceConfig::new("a".to_owned())).unwrap();
    sim.emit(l, "A");
    sim.emit(l, "B");
    let one = Confirmation { instance: l, occurrences: 1, lines: 1, overload: 0 };
    let unknown = Confirmation { instance: 9, occurrences: 1, lines: 1, overload: 0 };
    assert!(!sim.state.confirm_all(&vec![one, unknown, one]));
    assert_eq!((sim.state.stats[l].counters.written, sim.state.stats[l].counters.lines), (1, 1));
    let too_many = Confirmation { instance: l, occurrences: 2, lines: 0, overload: 0 };
    assert!(!sim.state.confirm_all(&vec![too_many]));
    assert_eq!(sim.state.stats[l].counters.written, 1);
    assert!(sim.state.confirm_all(&vec![one]));
    assert_eq!(sim.state.stats[l].counters.written, 2);
}
