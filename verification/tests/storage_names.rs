use rlogger::storage::{FileState, LogName};

#[test]
fn naming_distinguishes_recovery_and_repeated_hours() {
    let a = LogName::parse("app-02-1-2-3-h1792886400-s1.log").unwrap();
    let b = LogName::parse("app-02-1-2-3-h1792890000-s2.recovered.log").unwrap();
    assert_ne!(a.hour_start, b.hour_start);
    assert_eq!(b.state, FileState::Recovered);
    assert!(LogName::parse("app-02-1-2-3-h9223372036854775807-s1.log").is_none());
}
