//! Headers of the tar archive of a directory: a GNU header per entry, preceded
//! by a long-name record when the entry's path does not fit the header.
//!
//! A header is its 512 bytes. Each step of building one is a call of the `tar`
//! crate on those bytes: the numeric fields, the path and the checksum are
//! encoded by `tar`, and the contracts name each encoding.
use vstd::prelude::*;
use crate::protocol::{Error, IoKind};
use vstd::string::StringSliceAdditionalSpecFns;

verus! {

/// `tar::Header::set_mode` on the header of these bytes.
pub uninterp spec fn tar_set_mode(block: Seq<u8>, mode: u32) -> Seq<u8>;

/// `tar::Header::set_uid` on the header of these bytes.
pub uninterp spec fn tar_set_uid(block: Seq<u8>, uid: u64) -> Seq<u8>;

/// `tar::Header::set_gid` on the header of these bytes.
pub uninterp spec fn tar_set_gid(block: Seq<u8>, gid: u64) -> Seq<u8>;

/// `tar::Header::set_mtime` on the header of these bytes.
pub uninterp spec fn tar_set_mtime(block: Seq<u8>, mtime: u64) -> Seq<u8>;

/// `tar::Header::set_size` on the header of these bytes.
pub uninterp spec fn tar_set_size(block: Seq<u8>, size: u64) -> Seq<u8>;

/// `tar::Header::set_path` on the header of these bytes: whether the path was
/// accepted, and the bytes afterwards (a refused path may leave part of it
/// written in the name field).
pub uninterp spec fn tar_set_path(block: Seq<u8>, path: Seq<char>) -> (bool, Seq<u8>);

/// `tar::Header::set_cksum` on the header of these bytes.
pub uninterp spec fn tar_set_cksum(block: Seq<u8>) -> Seq<u8>;

/// The kind recorded in a header.
#[derive(Clone, Copy, Debug, PartialEq, Eq, Structural)]
pub enum EntryKind {
    Directory,
    Regular,
    LongName,
}

/// The type flag byte of a kind (`tar::EntryType::as_byte`).
pub open spec fn kind_byte(kind: EntryKind) -> u8 {
    match kind {
        EntryKind::Directory => 53u8,
        EntryKind::Regular => 48u8,
        EntryKind::LongName => 76u8,
    }
}

/// The bytes of `tar::Header::new_gnu()`: all zero but the modification time
/// (octal zero: eleven `0` digits and a NUL at 136..148), the magic `ustar `
/// at 257 and the version ` \0` at 263.
pub open spec fn gnu_blank() -> Seq<u8> {
    Seq::new(
        512,
        |i: int|
            if 136 <= i < 147 {
                48u8
            } else if i == 257 {
                117u8
            } else if i == 258 {
                115u8
            } else if i == 259 {
                116u8
            } else if i == 260 {
                97u8
            } else if i == 261 {
                114u8
            } else if i == 262 || i == 263 {
                32u8
            } else {
                0u8
            },
    )
}

/// `tar::Header::new_gnu`: the bytes of a blank GNU header.
#[verifier::external_body]
fn new_gnu() -> (r: Vec<u8>)
    ensures
        r@ == gnu_blank(),
{
    tar::Header::new_gnu().as_bytes().to_vec()
}

/// `tar::Header::set_mode` on the header of these bytes.
#[verifier::external_body]
fn set_mode(block: &[u8], mode: u32) -> (r: Vec<u8>)
    requires
        block@.len() == 512,
    ensures
        r@ == tar_set_mode(block@, mode),
        r@.len() == 512,
{
    let mut h = tar::Header::new_old();
    h.as_mut_bytes().copy_from_slice(block);
    h.set_mode(mode);
    h.as_bytes().to_vec()
}

/// `tar::Header::set_uid` on the header of these bytes.
#[verifier::external_body]
fn set_uid(block: &[u8], uid: u64) -> (r: Vec<u8>)
    requires
        block@.len() == 512,
    ensures
        r@ == tar_set_uid(block@, uid),
        r@.len() == 512,
{
    let mut h = tar::Header::new_old();
    h.as_mut_bytes().copy_from_slice(block);
    h.set_uid(uid);
    h.as_bytes().to_vec()
}

/// `tar::Header::set_gid` on the header of these bytes.
#[verifier::external_body]
fn set_gid(block: &[u8], gid: u64) -> (r: Vec<u8>)
    requires
        block@.len() == 512,
    ensures
        r@ == tar_set_gid(block@, gid),
        r@.len() == 512,
{
    let mut h = tar::Header::new_old();
    h.as_mut_bytes().copy_from_slice(block);
    h.set_gid(gid);
    h.as_bytes().to_vec()
}

/// `tar::Header::set_mtime` on the header of these bytes.
#[verifier::external_body]
fn set_mtime(block: &[u8], mtime: u64) -> (r: Vec<u8>)
    requires
        block@.len() == 512,
    ensures
        r@ == tar_set_mtime(block@, mtime),
        r@.len() == 512,
{
    let mut h = tar::Header::new_old();
    h.as_mut_bytes().copy_from_slice(block);
    h.set_mtime(mtime);
    h.as_bytes().to_vec()
}

/// `tar::Header::set_size` on the header of these bytes.
#[verifier::external_body]
fn set_size(block: &[u8], size: u64) -> (r: Vec<u8>)
    requires
        block@.len() == 512,
    ensures
        r@ == tar_set_size(block@, size),
        r@.len() == 512,
{
    let mut h = tar::Header::new_old();
    h.as_mut_bytes().copy_from_slice(block);
    h.set_size(size);
    h.as_bytes().to_vec()
}

/// `tar::Header::set_entry_type`: writes the type flag byte at offset 156.
#[verifier::external_body]
fn set_entry_type(block: &[u8], kind: EntryKind) -> (r: Vec<u8>)
    requires
        block@.len() == 512,
    ensures
        r@ == block@.update(156, kind_byte(kind)),
{
    let mut h = tar::Header::new_old();
    h.as_mut_bytes().copy_from_slice(block);
    h.set_entry_type(
        match kind {
            EntryKind::Directory => tar::EntryType::Directory,
            EntryKind::Regular => tar::EntryType::Regular,
            EntryKind::LongName => tar::EntryType::GNULongName,
        },
    );
    h.as_bytes().to_vec()
}

/// `tar::Header::set_path` on the header of these bytes: whether the path was
/// accepted, and the bytes afterwards.
#[verifier::external_body]
fn set_path(block: &[u8], path: &str) -> (r: (bool, Vec<u8>))
    requires
        block@.len() == 512,
    ensures
        (r.0, r.1@) == tar_set_path(block@, path@),
        r.1@.len() == 512,
{
    let mut h = tar::Header::new_old();
    h.as_mut_bytes().copy_from_slice(block);
    let accepted = h.set_path(std::path::Path::new(path)).is_ok();
    (accepted, h.as_bytes().to_vec())
}

/// `tar::Header::set_cksum` on the header of these bytes.
#[verifier::external_body]
fn set_cksum(block: &[u8]) -> (r: Vec<u8>)
    requires
        block@.len() == 512,
    ensures
        r@ == tar_set_cksum(block@),
        r@.len() == 512,
{
    let mut h = tar::Header::new_old();
    h.as_mut_bytes().copy_from_slice(block);
    h.set_cksum();
    h.as_bytes().to_vec()
}

/// The length of a record of `n` bytes padded to whole 512-byte blocks.
pub open spec fn padded(n: nat) -> nat {
    ((n + 511) / 512 * 512) as nat
}

/// The fields of an entry's header before its path: mode 0755 for a
/// directory and 0644 for a file, owner and group 0, the modification time,
/// the kind, and the size (0 for a directory).
pub open spec fn entry_fields(is_dir: bool, len: u64, mtime: u64) -> Seq<u8> {
    tar_set_size(
        tar_set_mtime(
            tar_set_gid(tar_set_uid(tar_set_mode(gnu_blank(), if is_dir { 0o755u32 } else { 0o644u32 }), 0), 0),
            mtime,
        ).update(156, if is_dir { 53u8 } else { 48u8 }),
        if is_dir { 0 } else { len },
    )
}

/// The `././@LongLink` header, once its path is set, for a name of `n` bytes:
/// kind long name, size `n + 1`, mode 0644, owner, group and time 0.
pub open spec fn long_header(named: Seq<u8>, n: nat) -> Seq<u8> {
    tar_set_cksum(
        tar_set_mtime(
            tar_set_gid(tar_set_uid(tar_set_mode(tar_set_size(named.update(156, 76u8), (n + 1) as u64), 0o644u32), 0), 0),
            0,
        ),
    )
}

/// `n` zero bytes.
pub open spec fn zeros(n: nat) -> Seq<u8> {
    Seq::new(n, |i: int| 0u8)
}

/// The bytes before an entry's content. Its header holds the entry's fields
/// and its path; where the path does not fit, a `././@LongLink` record holding
/// the path's bytes, a NUL and zero padding comes first, and the header's name
/// is `entry`.
pub fn tar_headers(path: &str, is_dir: bool, len: u64, mtime: u64) -> (r: Result<Vec<u8>, Error>)
    requires
        path.spec_bytes().len() + 1024 <= usize::MAX,
    ensures
        ({
            let name = path.spec_bytes();
            let n = name.len();
            let first = tar_set_path(entry_fields(is_dir, len, mtime), path@);
            let long = tar_set_path(gnu_blank(), "././@LongLink"@);
            let second = tar_set_path(first.1, "entry"@);
            match r {
                Ok(b) => if first.0 {
                    b@ == tar_set_cksum(first.1)
                } else {
                    &&& long.0 && second.0
                    &&& b@ == long_header(long.1, n) + name + zeros((padded(n + 1) - n) as nat) + tar_set_cksum(second.1)
                },
                Err(e) => {
                    &&& !first.0
                    &&& !long.0 || !second.0
                    &&& (e.code@, e.message@, e.status) == crate::protocol::io_view(IoKind::Other)
                },
            }
        }),
{
    let mode: u32 = if is_dir { 0o755 } else { 0o644 };
    let blank = new_gnu();
    let b = set_mode(blank.as_slice(), mode);
    let b = set_uid(b.as_slice(), 0);
    let b = set_gid(b.as_slice(), 0);
    let b = set_mtime(b.as_slice(), mtime);
    let b = set_entry_type(b.as_slice(), if is_dir { EntryKind::Directory } else { EntryKind::Regular });
    let b = set_size(b.as_slice(), if is_dir { 0 } else { len });
    assert(b@ == entry_fields(is_dir, len, mtime));
    let (fits, header) = set_path(b.as_slice(), path);
    let mut bytes: Vec<u8> = Vec::new();
    let header = if fits {
        header
    } else {
        let name = path.as_bytes();
        let n = name.len();
        let blank = new_gnu();
        let (ok, long) = set_path(blank.as_slice(), "././@LongLink");
        if !ok {
            return Err(Error::io(IoKind::Other));
        }
        let long = set_entry_type(long.as_slice(), EntryKind::LongName);
        let long = set_size(long.as_slice(), n as u64 + 1);
        let long = set_mode(long.as_slice(), 0o644);
        let long = set_uid(long.as_slice(), 0);
        let long = set_gid(long.as_slice(), 0);
        let long = set_mtime(long.as_slice(), 0);
        let long = set_cksum(long.as_slice());
        bytes = long;
        let ghost lh = bytes@;
        let mut i: usize = 0;
        while i < n
            invariant
                name@ == path.spec_bytes(),
                n == name@.len(),
                i <= n,
                lh.len() == 512,
                bytes@ == lh + name@.subrange(0, i as int),
            decreases n - i,
        {
            bytes.push(name[i]);
            assert(bytes@ =~= lh + name@.subrange(0, i + 1));
            i = i + 1;
        }
        assert(name@.subrange(0, n as int) =~= name@);
        let total: usize = 512 + (n + 1 + 511) / 512 * 512;
        let ghost prefix = bytes@;
        while bytes.len() < total
            invariant
                prefix.len() == 512 + n,
                bytes@.len() <= total,
                bytes@.len() >= 512 + n,
                bytes@ == prefix + zeros((bytes@.len() - prefix.len()) as nat),
            decreases total - bytes@.len(),
        {
            bytes.push(0);
            assert(bytes@ =~= prefix + zeros((bytes@.len() - prefix.len()) as nat));
        }
        let (ok2, named) = set_path(header.as_slice(), "entry");
        if !ok2 {
            return Err(Error::io(IoKind::Other));
        }
        assert(bytes@ =~= lh + name@ + zeros((padded((n + 1) as nat) - n) as nat));
        named
    };
    let block = set_cksum(header.as_slice());
    let ghost front = bytes@;
    let mut j: usize = 0;
    while j < 512
        invariant
            block@.len() == 512,
            j <= 512,
            bytes@ == front + block@.subrange(0, j as int),
        decreases 512 - j,
    {
        bytes.push(block[j]);
        assert(bytes@ =~= front + block@.subrange(0, j + 1));
        j = j + 1;
    }
    assert(block@.subrange(0, 512) =~= block@);
    proof {
        if fits {
            assert(front =~= Seq::<u8>::empty());
            assert(bytes@ =~= block@);
        }
    }
    Ok(bytes)
}


/// The zero bytes that complete the last block of a content of `len` bytes.
pub fn tar_padding(len: u64) -> (r: u64)
    ensures
        r == (512 - len % 512) % 512,
        (len + r) % 512 == 0,
        r < 512,
{
    (512 - len % 512) % 512
}

} // verus!
