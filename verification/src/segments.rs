//! Segment files of the writer: their names, the hour they cover, the
//! writers kept open, and their names once finalized.
use vstd::prelude::*;
use crate::files::{file_name, with_file_name};
use crate::text::{
    decimal, from_chars, parse_i64, parse_signed, push_chars, push_decimal, push_str, replace_all,
    replace_all_exec, rsplit_once, rsplit_once_exec, signed_decimal, slice_range, to_chars,
};

verus! {

/// Why a segment cannot be opened.
#[derive(Clone, Copy, Debug, PartialEq, Eq, Structural)]
pub enum SegmentError {
    /// The logical path has no `-h<hour>` part.
    InvalidHourKey,
    /// The hour is not an `i64`.
    InvalidHour,
    /// The end of the hour does not fit an `i64`.
    HourOverflow,
    /// No segment number is left.
    SegmentExhausted,
}

/// The file of a new segment of logical path `path` (`<base>-h<hour>`):
/// `<base>-<run>-h<hour>-s<segment>.active.log`, and the end of its hour.
pub open spec fn segment_view(path: Seq<char>, run: Seq<char>, segment: u64) -> Result<(Seq<char>, int), SegmentError> {
    match rsplit_once(path, seq!['-', 'h']) {
        None => Err(SegmentError::InvalidHourKey),
        Some((base, hour)) => match parse_signed(hour) {
            None => Err(SegmentError::InvalidHour),
            Some(h) => if h < i64::MIN || h > i64::MAX {
                Err(SegmentError::InvalidHour)
            } else if h + 3600 > i64::MAX {
                Err(SegmentError::HourOverflow)
            } else {
                Ok((
                    base + seq!['-'] + run + seq!['-', 'h'] + hour + seq!['-', 's'] + decimal(segment as nat)
                        + ".active.log"@,
                    h + 3600,
                ))
            },
        },
    }
}

/// The file of a new segment and the end of its hour.
pub fn segment_file(path: &str, run: &str, segment: u64) -> (r: Result<(String, i64), SegmentError>)
    ensures
        match r {
            Ok((name, end)) => segment_view(path@, run@, segment) == Ok::<(Seq<char>, int), SegmentError>(
                (name@, end as int),
            ),
            Err(e) => segment_view(path@, run@, segment) == Err::<(Seq<char>, int), SegmentError>(e),
        },
{
    let p = to_chars(path);
    let dash_h = ['-', 'h'];
    assert(dash_h@ =~= seq!['-', 'h']);
    let (base, hour) = match rsplit_once_exec(&p, &dash_h) {
        Some(x) => x,
        None => return Err(SegmentError::InvalidHourKey),
    };
    let h = match parse_i64(&hour) {
        Some(h) => h,
        None => return Err(SegmentError::InvalidHour),
    };
    let end = match h.checked_add(3600) {
        Some(e) => e,
        None => return Err(SegmentError::HourOverflow),
    };
    let mut out = String::new();
    push_chars(&mut out, &base);
    crate::text::push_char(&mut out, '-');
    push_str(&mut out, run);
    crate::text::push_char(&mut out, '-');
    crate::text::push_char(&mut out, 'h');
    push_chars(&mut out, &hour);
    crate::text::push_char(&mut out, '-');
    crate::text::push_char(&mut out, 's');
    push_decimal(&mut out, segment);
    push_str(&mut out, ".active.log");
    assert(out@ =~= base@ + seq!['-'] + run@ + seq!['-', 'h'] + hour@ + seq!['-', 's'] + decimal(
        segment as nat,
    ) + ".active.log"@);
    Ok((out, end))
}

/// The next segment number.
pub fn next_segment(segment: u64) -> (r: Result<u64, SegmentError>)
    ensures
        match r {
            Ok(n) => n == segment + 1,
            Err(e) => segment == u64::MAX && e == SegmentError::SegmentExhausted,
        },
{
    match segment.checked_add(1) {
        Some(n) => Ok(n),
        None => Err(SegmentError::SegmentExhausted),
    }
}

/// The writer to close for room: the least recently used (the first of them).
pub fn least_recent(used: &Vec<u64>) -> (r: Option<usize>)
    ensures
        match r {
            Some(i) => i < used@.len() && (forall|j: int| 0 <= j < used@.len() ==> used@[i as int] <= #[trigger] used@[j])
                && forall|j: int| 0 <= j < i ==> used@[i as int] < #[trigger] used@[j],
            None => used@.len() == 0,
        },
{
    if used.len() == 0 {
        return None;
    }
    let mut best: usize = 0;
    let mut i: usize = 1;
    while i < used.len()
        invariant
            1 <= i <= used@.len(),
            best < i,
            forall|j: int| 0 <= j < i ==> used@[best as int] <= #[trigger] used@[j],
            forall|j: int| 0 <= j < best ==> used@[best as int] < #[trigger] used@[j],
        decreases used@.len() - i,
    {
        if used[i] < used[best] {
            best = i;
        }
        i = i + 1;
    }
    Some(best)
}

/// The path of a segment once finalized with `suffix` (`.log` when closed,
/// `.recovered.log` when recovered): `.active.log` replaced in its file name.
pub open spec fn finalized(path: Seq<char>, suffix: Seq<char>) -> Seq<char> {
    with_file_name(path, replace_all(file_name(path), ".active.log"@, suffix))
}

/// The path of a segment once finalized with `suffix`.
pub fn finalized_path(path: &str, suffix: &str) -> (r: String)
    ensures
        r@ == finalized(path@, suffix@),
{
    let p = to_chars(path);
    let slash = ['/'];
    assert(slash@ =~= seq!['/']);
    let active = to_chars(".active.log");
    proof {
        reveal_strlit(".active.log");
    }
    let suffix_chars = to_chars(suffix);
    match rsplit_once_exec(&p, &slash) {
        Some((dir, name)) => {
            let replaced = replace_all_exec(&name, &active, &suffix_chars);
            let mut out = String::new();
            push_chars(&mut out, &dir);
            crate::text::push_char(&mut out, '/');
            push_chars(&mut out, &replaced);
            assert(out@ =~= finalized(path@, suffix@));
            out
        },
        None => {
            let replaced = replace_all_exec(&p, &active, &suffix_chars);
            assert(replaced@ =~= finalized(path@, suffix@));
            from_chars(&replaced)
        },
    }
}

} // verus!
