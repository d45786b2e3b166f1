//! Limits, errors and messages of the local log reader's protocol.
use vstd::prelude::*;
use crate::text::{all_digits, byte_len, byte_length, digits_value, parse_unsigned_up_to, to_chars};

verus! {

/// Bytes of a first snapshot of a file.
pub const SNAPSHOT: usize = 256 * 1024;
/// Bytes of a live chunk.
pub const CHUNK: usize = 64 * 1024;
/// Largest byte offset (2^53 − 1, exact in a JavaScript number).
pub const MAX_OFFSET: u64 = 9_007_199_254_740_991;
/// Nodes kept by a root's identifier cache.
pub const NODES: usize = 10_000;
/// Entries of one directory page.
pub const PAGE: usize = 500;
/// Branches one client may watch.
pub const BRANCHES: usize = 64;
/// Bytes of a request body.
pub const BODY: usize = 8192;

/// An error of the reader: a stable code, a message for people, an HTTP status.
#[derive(Debug)]
pub struct Error {
    pub code: &'static str,
    pub message: String,
    pub status: u16,
}

impl Error {
    pub fn new(code: &'static str, message: String, status: u16) -> (r: Error)
        ensures
            r.code == code,
            r.message@ == message@,
            r.status == status,
    {
        Error { code, message, status }
    }

    /// An error from a text literal.
    pub fn of(code: &'static str, message: &str, status: u16) -> (r: Error)
        ensures
            r.code == code,
            r.message@ == message@,
            r.status == status,
    {
        Error { code, message: message.to_owned(), status }
    }
}

/// What kind of failure a disk operation reported.
#[derive(Clone, Copy, Debug, PartialEq, Eq, Structural)]
pub enum IoKind {
    NotFound,
    PermissionDenied,
    Other,
}

/// The error a failed disk operation gives the client: its code, message and
/// status.
pub open spec fn io_view(kind: IoKind) -> (Seq<char>, Seq<char>, u16) {
    match kind {
        IoKind::NotFound => ("NOT_FOUND"@, "Fichier ou dossier disparu."@, 404),
        IoKind::PermissionDenied => ("PERMISSION"@, "Permission de lecture refus\u{e9}e."@, 403),
        IoKind::Other => ("INTERNAL"@, "Lecture du disque impossible."@, 500),
    }
}

impl Error {
    /// The error a failed disk operation gives the client.
    pub fn io(kind: IoKind) -> (r: Error)
        ensures
            (r.code@, r.message@, r.status) == io_view(kind),
    {
        match kind {
            IoKind::NotFound => Error::of("NOT_FOUND", "Fichier ou dossier disparu.", 404),
            IoKind::PermissionDenied => Error::of("PERMISSION", "Permission de lecture refus\u{e9}e.", 403),
            IoKind::Other => Error::of("INTERNAL", "Lecture du disque impossible.", 500),
        }
    }
}

/// Whether an error is the given one.
pub open spec fn is_error(e: Error, code: &'static str, message: &str, status: u16) -> bool {
    e.code@ == code@ && e.message@ == message@ && e.status == status
}

/// The value of a byte offset written in decimal: 1 to 20 ASCII digits, at
/// most 2^53 − 1.
pub open spec fn offset_view(value: Seq<char>) -> Result<u64, (Seq<char>, Seq<char>, u16)> {
    if value.len() == 0 || byte_len(value) > 20 || !all_digits(value) {
        Err(("CURSOR_INVALID"@, "Position d\u{2019}octets invalide."@, 409))
    } else if digits_value(value) > MAX_OFFSET {
        Err(("CURSOR_INVALID"@, "Position sup\u{e9}rieure \u{e0} 2^53\u{2212}1 octets."@, 409))
    } else {
        Ok(digits_value(value) as u64)
    }
}

/// Reads a byte offset.
pub fn offset(value: &str) -> (r: Result<u64, Error>)
    ensures
        match r {
            Ok(n) => offset_view(value@) == Ok::<u64, (Seq<char>, Seq<char>, u16)>(n),
            Err(e) => offset_view(value@) == Err::<u64, (Seq<char>, Seq<char>, u16)>(
                (e.code@, e.message@, e.status),
            ),
        },
{
    let cs = to_chars(value);
    let len = byte_length(value);
    let mut digits = true;
    let mut i: usize = 0;
    while i < cs.len()
        invariant
            i <= cs@.len(),
            digits == forall|k: int| 0 <= k < i ==> crate::text::is_digit(#[trigger] cs@[k]),
        decreases cs@.len() - i,
    {
        if !(cs[i] >= '0' && cs[i] <= '9') {
            digits = false;
        }
        i = i + 1;
    }
    if cs.len() == 0 || len > 20 || !digits {
        return Err(Error::of("CURSOR_INVALID", "Position d\u{2019}octets invalide.", 409));
    }
    assert(crate::text::is_digit(cs@[0]));
    assert(all_digits(cs@));
    match parse_unsigned_up_to(&cs, MAX_OFFSET) {
        Some(n) => Ok(n),
        None => Err(Error::of("CURSOR_INVALID", "Position sup\u{e9}rieure \u{e0} 2^53\u{2212}1 octets.", 409)),
    }
}

/// A lowercase hexadecimal digit.
pub open spec fn lower_hex(c: char) -> bool {
    ('0' <= c && c <= '9') || ('a' <= c && c <= 'f')
}

/// The hyphenated lowercase text of a version-4 UUID: 36 characters, `-` at
/// 8, 13, 18 and 23, hexadecimal digits elsewhere, the version digit `4` and a
/// variant digit among `8`, `9`, `a`, `b`.
pub open spec fn uuid_v4_text(s: Seq<char>) -> bool {
    &&& s.len() == 36
    &&& forall|i: int|
        0 <= i < 36 ==> if i == 8 || i == 13 || i == 18 || i == 23 {
            #[trigger] s[i] == '-'
        } else {
            lower_hex(s[i])
        }
    &&& s[14] == '4'
    &&& s[19] == '8' || s[19] == '9' || s[19] == 'a' || s[19] == 'b'
}

/// A fresh random identifier. `uuid::Uuid::new_v4` draws 122 random bits and
/// sets the version and variant; its `to_string` is the hyphenated lowercase
/// form. Which identifier comes out is left open: it is random.
#[verifier::external_body]
pub fn id() -> (r: String)
    ensures
        uuid_v4_text(r@),
{
    uuid::Uuid::new_v4().to_string()
}

/// Kind of a node.
#[derive(Clone, Copy, Debug, PartialEq, Eq, Structural)]
pub enum Kind {
    Directory,
    File,
}

/// A root as the client sees it.
#[derive(Debug)]
pub struct RootDto {
    pub root_id: String,
    pub node_id: String,
    pub absolute_path: String,
    pub managed_reason: Option<String>,
}

/// One entry of a directory listing.
#[derive(Debug)]
pub struct Entry {
    pub id: String,
    pub name: String,
    pub relative_path: String,
    pub kind: Kind,
    pub size: String,
    pub identity: String,
    pub allocated_size: Option<String>,
    pub state: String,
    pub eligible: bool,
    pub reason: String,
}

/// A page of a directory listing.
#[derive(Debug)]
pub struct EntryPage {
    pub entries: Vec<Entry>,
    pub revision: String,
    pub cursor: Option<String>,
}

/// Bytes of a file, base64-encoded, with their range.
#[derive(Debug)]
pub struct Chunk {
    pub generation: String,
    pub start: String,
    pub end: String,
    pub size: String,
    pub data: String,
    pub partial_start: bool,
}

/// What part of a file to read.
#[derive(Debug)]
pub struct ContentOptions {
    pub generation: Option<String>,
    pub before: Option<String>,
    pub after: Option<String>,
    pub limit: Option<usize>,
}

/// A file followed live by a client.
#[derive(Debug)]
pub struct Selection {
    pub root_id: String,
    pub file_id: String,
    pub generation: String,
    pub offset: String,
    pub revision: u64,
}

/// Messages of a live session's client.
#[derive(Debug)]
pub enum ClientMessage {
    Subscribe { selection: Selection },
    Ack { revision: u64, generation: String, end: String },
    Branches { root_id: String, ids: Vec<String> },
    Unsubscribe,
}

} // verus!
