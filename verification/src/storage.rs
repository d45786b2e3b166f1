//! Versioned hourly storage contract shared by the writer and the local reader.
//!
//! Segment names are
//! `<destination>-<HH>-<stamp>-<pid>-<counter>-h<UTC hour start>-s<segment><suffix>`
//! where the suffix is `.active.log`, `.log` or `.recovered.log`.
use vstd::prelude::*;
use crate::names::{spec_valid_name, valid_name_chars};
use crate::text::{
    all_digits, ends_with, ends_with_exec, from_chars, parse_i64, parse_signed,
    parse_unsigned, parse_unsigned_up_to, parse_u64, push_chars, rsplit_once,
    rsplit_once_exec, slice_range, to_chars,
};

verus! {

/// Content of the storage marker file `.rlogger/format`.
pub const MARKER: &'static str = "RLOGGER storage 2\n";
/// Name of the technical directory beneath a storage root.
pub const TECH: &'static str = ".rlogger";

/// Life-cycle state of a segment, given by its suffix.
#[derive(Debug, Clone, Copy, PartialEq, Eq, Structural)]
pub enum FileState {
    Active,
    Closed,
    Recovered,
}

/// What a segment name says: the run that wrote it, the UTC start of its hour
/// and its state.
#[derive(Debug, Clone)]
pub struct LogName {
    pub run_id: String,
    pub hour_start: i64,
    pub state: FileState,
}

/// The abstract content of a [`LogName`].
pub struct LogNameView {
    pub run_id: Seq<char>,
    pub hour_start: int,
    pub state: FileState,
}

impl LogName {
    pub open spec fn view(&self) -> LogNameView {
        LogNameView { run_id: self.run_id@, hour_start: self.hour_start as int, state: self.state }
    }
}

pub open spec fn active_suffix() -> Seq<char> {
    seq!['.', 'a', 'c', 't', 'i', 'v', 'e', '.', 'l', 'o', 'g']
}

pub open spec fn recovered_suffix() -> Seq<char> {
    seq!['.', 'r', 'e', 'c', 'o', 'v', 'e', 'r', 'e', 'd', '.', 'l', 'o', 'g']
}

pub open spec fn log_suffix() -> Seq<char> {
    seq!['.', 'l', 'o', 'g']
}

/// The name without its state suffix, and the state that the suffix gives.
pub open spec fn split_state(name: Seq<char>) -> Option<(Seq<char>, FileState)> {
    if ends_with(name, active_suffix()) {
        Some((name.take(name.len() - 11), FileState::Active))
    } else if ends_with(name, recovered_suffix()) {
        Some((name.take(name.len() - 14), FileState::Recovered))
    } else if ends_with(name, log_suffix()) {
        Some((name.take(name.len() - 4), FileState::Closed))
    } else {
        None
    }
}

/// A nonempty run of ASCII digits.
pub open spec fn number_text(s: Seq<char>) -> bool {
    s.len() > 0 && all_digits(s)
}

/// A two-character hour `00` to `23` (as `u8` parsing accepts it, so `+5` too).
pub open spec fn hour_text(s: Seq<char>) -> bool {
    s.len() == 2 && match parse_unsigned(s) {
        Some(h) => h <= 23,
        None => false,
    }
}

/// `<destination>-<HH>-<stamp>-<pid>-<counter>` split from the right: the run
/// id is `<stamp>-<pid>-<counter>`, all three nonempty digit runs.
pub open spec fn run_part(base: Seq<char>) -> Option<Seq<char>> {
    let dash = seq!['-'];
    match rsplit_once(base, dash) {
        None => None,
        Some((b1, counter)) => match rsplit_once(b1, dash) {
            None => None,
            Some((b2, pid)) => match rsplit_once(b2, dash) {
                None => None,
                Some((b3, stamp)) => match rsplit_once(b3, dash) {
                    None => None,
                    Some((destination, hh)) => {
                        if number_text(counter) && number_text(pid) && number_text(stamp)
                            && hour_text(hh) && spec_valid_name(destination) {
                            Some(stamp + dash + pid + dash + counter)
                        } else {
                            None
                        }
                    },
                },
            },
        },
    }
}

/// What a segment name denotes, if it is one.
pub open spec fn spec_parse_log_name(name: Seq<char>) -> Option<LogNameView> {
    match split_state(name) {
        None => None,
        Some((base, state)) => match rsplit_once(base, seq!['-', 's']) {
            None => None,
            Some((b1, segment)) => match parse_unsigned(segment) {
                None => None,
                Some(s) => if s == 0 || s > u64::MAX {
                    None
                } else {
                    match rsplit_once(b1, seq!['-', 'h']) {
                        None => None,
                        Some((b2, hour)) => match parse_signed(hour) {
                            None => None,
                            Some(h) => if h < i64::MIN || h > i64::MAX - 3600 {
                                None
                            } else {
                                match run_part(b2) {
                                    None => None,
                                    Some(run) => Some(
                                        LogNameView { run_id: run, hour_start: h, state },
                                    ),
                                }
                            },
                        },
                    }
                },
            },
        },
    }
}

fn split_state_exec(name: &[char]) -> (r: Option<(Vec<char>, FileState)>)
    ensures
        r matches Some((b, st)) ==> split_state(name@) == Some((b@, st)),
        r is None ==> split_state(name@) is None,
{
    let active = ['.', 'a', 'c', 't', 'i', 'v', 'e', '.', 'l', 'o', 'g'];
    let recovered = ['.', 'r', 'e', 'c', 'o', 'v', 'e', 'r', 'e', 'd', '.', 'l', 'o', 'g'];
    let log = ['.', 'l', 'o', 'g'];
    assert(active@ =~= active_suffix());
    assert(recovered@ =~= recovered_suffix());
    assert(log@ =~= log_suffix());
    if ends_with_exec(name, &active) {
        Some((slice_range(name, 0, name.len() - 11), FileState::Active))
    } else if ends_with_exec(name, &recovered) {
        Some((slice_range(name, 0, name.len() - 14), FileState::Recovered))
    } else if ends_with_exec(name, &log) {
        Some((slice_range(name, 0, name.len() - 4), FileState::Closed))
    } else {
        None
    }
}

fn number_text_exec(s: &[char]) -> (r: bool)
    ensures
        r == number_text(s@),
{
    if s.len() == 0 {
        return false;
    }
    let mut i: usize = 0;
    while i < s.len()
        invariant
            i <= s@.len(),
            forall|k: int| 0 <= k < i ==> crate::text::is_digit(#[trigger] s@[k]),
        decreases s@.len() - i,
    {
        if !(s[i] >= '0' && s[i] <= '9') {
            return false;
        }
        i = i + 1;
    }
    true
}

fn hour_text_exec(s: &[char]) -> (r: bool)
    ensures
        r == hour_text(s@),
{
    if s.len() != 2 {
        return false;
    }
    match parse_unsigned_up_to(s, 255) {
        Some(h) => h <= 23,
        None => false,
    }
}

fn run_part_exec(base: &[char]) -> (r: Option<Vec<char>>)
    ensures
        r matches Some(v) ==> run_part(base@) == Some(v@),
        r is None ==> run_part(base@) is None,
{
    let dash = ['-'];
    assert(dash@ =~= seq!['-']);
    let (b1, counter) = match rsplit_once_exec(base, &dash) {
        Some(p) => p,
        None => return None,
    };
    let (b2, pid) = match rsplit_once_exec(&b1, &dash) {
        Some(p) => p,
        None => return None,
    };
    let (b3, stamp) = match rsplit_once_exec(&b2, &dash) {
        Some(p) => p,
        None => return None,
    };
    let (destination, hh) = match rsplit_once_exec(&b3, &dash) {
        Some(p) => p,
        None => return None,
    };
    if !(number_text_exec(&counter) && number_text_exec(&pid) && number_text_exec(&stamp)
        && hour_text_exec(&hh) && valid_name_chars(&destination)) {
        return None;
    }
    let mut run = stamp;
    run.push('-');
    let mut i: usize = 0;
    let ghost start = run@;
    while i < pid.len()
        invariant
            i <= pid@.len(),
            run@ == start + pid@.take(i as int),
        decreases pid@.len() - i,
    {
        run.push(pid[i]);
        assert(pid@.take(i + 1) =~= pid@.take(i as int).push(pid@[i as int]));
        i = i + 1;
    }
    run.push('-');
    let ghost mid = run@;
    i = 0;
    while i < counter.len()
        invariant
            i <= counter@.len(),
            run@ == mid + counter@.take(i as int),
        decreases counter@.len() - i,
    {
        run.push(counter[i]);
        assert(counter@.take(i + 1) =~= counter@.take(i as int).push(counter@[i as int]));
        i = i + 1;
    }
    assert(pid@.take(pid@.len() as int) =~= pid@);
    assert(counter@.take(counter@.len() as int) =~= counter@);
    assert(run@ =~= stamp@ + seq!['-'] + pid@ + seq!['-'] + counter@);
    Some(run)
}

impl LogName {
    /// Parses a segment file name (without directories).
    pub fn parse(name: &str) -> (r: Option<LogName>)
        ensures
            r matches Some(n) ==> spec_parse_log_name(name@) == Some(n.view()),
            r is None ==> spec_parse_log_name(name@) is None,
    {
        let chars = to_chars(name);
        let (base, state) = match split_state_exec(&chars) {
            Some(p) => p,
            None => return None,
        };
        let dash_s = ['-', 's'];
        assert(dash_s@ =~= seq!['-', 's']);
        let (b1, segment) = match rsplit_once_exec(&base, &dash_s) {
            Some(p) => p,
            None => return None,
        };
        match parse_u64(&segment) {
            None => return None,
            Some(s) => {
                if s == 0 {
                    return None;
                }
            },
        }
        let dash_h = ['-', 'h'];
        assert(dash_h@ =~= seq!['-', 'h']);
        let (b2, hour) = match rsplit_once_exec(&b1, &dash_h) {
            Some(p) => p,
            None => return None,
        };
        let hour_start = match parse_i64(&hour) {
            None => return None,
            Some(h) => h,
        };
        if hour_start > i64::MAX - 3600 {
            return None;
        }
        let run = match run_part_exec(&b2) {
            Some(r) => r,
            None => return None,
        };
        Some(LogName { run_id: from_chars(&run), hour_start, state })
    }

    /// Whether the hour of this segment has ended at UNIX time `now` (seconds).
    pub fn ended(&self, now: i64) -> (r: bool)
        ensures
            r == (self.hour_start + 3600 <= i64::MAX && self.hour_start + 3600 <= now),
    {
        match self.hour_start.checked_add(3600) {
            Some(end) => end <= now,
            None => false,
        }
    }
}

} // verus!

verus! {

/// One component of a relative path: a name, or anything else (root, `.`, `..`).
#[derive(Debug)]
pub enum PathPart {
    Normal(String),
    Other,
}

/// `PathBuf::join` on text: an absolute second part replaces the first; an
/// empty first part gives the second; otherwise one `/` separates them.
pub open spec fn join(a: Seq<char>, b: Seq<char>) -> Seq<char> {
    if b.len() > 0 && b[0] == '/' {
        b
    } else if a.len() == 0 {
        b
    } else if a[a.len() - 1] == '/' {
        a + b
    } else {
        a + seq!['/'] + b
    }
}

/// Joins two path texts as `PathBuf::join` does.
pub fn join_path(a: &str, b: &str) -> (r: String)
    ensures
        r@ == join(a@, b@),
{
    let ac = to_chars(a);
    let bc = to_chars(b);
    let mut out = String::new();
    if bc.len() > 0 && bc[0] == '/' {
        push_chars(&mut out, &bc);
    } else if ac.len() == 0 {
        push_chars(&mut out, &bc);
    } else if ac[ac.len() - 1] == '/' {
        push_chars(&mut out, &ac);
        push_chars(&mut out, &bc);
    } else {
        push_chars(&mut out, &ac);
        crate::text::push_char(&mut out, '/');
        push_chars(&mut out, &bc);
    }
    assert(out@ =~= join(a@, b@));
    out
}

/// The lease file of run `run` beneath storage root `root`:
/// `root/.rlogger/<run>.lock`.
pub fn lease_path(root: &str, run: &str) -> (r: String)
    ensures
        r@ == join(join(root@, TECH@), run@ + ".lock"@),
{
    let tech = join_path(root, TECH);
    let mut file = String::new();
    crate::text::push_str(&mut file, run);
    crate::text::push_str(&mut file, ".lock");
    join_path(tech.as_str(), file.as_str())
}

/// A storage root: it and its technical directory are real directories, and
/// its marker file holds exactly [`MARKER`].
pub open spec fn spec_recognized(root_is_directory: bool, tech_is_directory: bool, marker: Option<Seq<char>>) -> bool {
    root_is_directory && tech_is_directory && marker == Some(MARKER@)
}

/// Whether a directory is a storage root: it and its technical directory are
/// real directories, and its marker file holds exactly [`MARKER`].
pub fn recognized(root_is_directory: bool, tech_is_directory: bool, marker: Option<&str>) -> (r: bool)
    ensures
        r == spec_recognized(
            root_is_directory,
            tech_is_directory,
            match marker {
                Some(m) => Some(m@),
                None => None,
            },
        ),
{
    match marker {
        Some(m) => root_is_directory && tech_is_directory && crate::text::same_text(
            &to_chars(m),
            &to_chars(MARKER),
        ),
        None => false,
    }
}

/// A relative path `<day>/<instance>/<file>` of the hourly layout: three
/// names, the first a day `YYYY-MM-DD` as chrono writes it, the second a
/// valid instance name.
pub open spec fn spec_hourly_layout(parts: Seq<PathPart>) -> bool {
    &&& parts.len() == 3
    &&& forall|i: int| 0 <= i < 3 ==> #[trigger] parts[i] is Normal
    &&& crate::time::chrono_canonical_day(parts[0]->Normal_0@)
    &&& spec_valid_name(parts[1]->Normal_0@)
}

/// Whether the components of a relative path follow the hourly layout.
pub fn hourly_layout(parts: &Vec<PathPart>) -> (r: bool)
    ensures
        r == spec_hourly_layout(parts@),
{
    if parts.len() != 3 {
        return false;
    }
    let day = match &parts[0] {
        PathPart::Normal(d) => d,
        PathPart::Other => return false,
    };
    let instance = match &parts[1] {
        PathPart::Normal(n) => n,
        PathPart::Other => return false,
    };
    match &parts[2] {
        PathPart::Normal(_) => {},
        PathPart::Other => return false,
    }
    assert(forall|i: int| 0 <= i < 3 ==> #[trigger] parts@[i] is Normal);
    crate::time::canonical_day(day.as_str()) && crate::names::valid_name(instance.as_str())
}

/// The change token of a file: device, inode, length, modification and
/// change times (seconds and nanoseconds), joined by `-`.
pub open spec fn token_text(dev: u64, ino: u64, len: u64, mtime: i64, mtime_nsec: i64, ctime: i64, ctime_nsec: i64) -> Seq<char> {
    crate::text::decimal(dev as nat) + seq!['-'] + crate::text::decimal(ino as nat) + seq!['-']
        + crate::text::decimal(len as nat) + seq!['-'] + crate::text::signed_decimal(mtime as int)
        + seq!['-'] + crate::text::signed_decimal(mtime_nsec as int) + seq!['-']
        + crate::text::signed_decimal(ctime as int) + seq!['-'] + crate::text::signed_decimal(
        ctime_nsec as int,
    )
}

/// The change token of a file from its metadata numbers.
pub fn token(dev: u64, ino: u64, len: u64, mtime: i64, mtime_nsec: i64, ctime: i64, ctime_nsec: i64) -> (r: String)
    ensures
        r@ == token_text(dev, ino, len, mtime, mtime_nsec, ctime, ctime_nsec),
{
    let mut out = String::new();
    crate::text::push_decimal(&mut out, dev);
    crate::text::push_char(&mut out, '-');
    crate::text::push_decimal(&mut out, ino);
    crate::text::push_char(&mut out, '-');
    crate::text::push_decimal(&mut out, len);
    crate::text::push_char(&mut out, '-');
    crate::text::push_signed_decimal(&mut out, mtime);
    crate::text::push_char(&mut out, '-');
    crate::text::push_signed_decimal(&mut out, mtime_nsec);
    crate::text::push_char(&mut out, '-');
    crate::text::push_signed_decimal(&mut out, ctime);
    crate::text::push_char(&mut out, '-');
    crate::text::push_signed_decimal(&mut out, ctime_nsec);
    assert(out@ =~= token_text(dev, ino, len, mtime, mtime_nsec, ctime, ctime_nsec));
    out
}

} // verus!
