//! Parsing and validating magic + version.  This header is created once at
//! offset 0.
//!
//! ```text
//! Magic (8 bytes):                     "Syncless"
//! Version (4 bytes, little endian):    major (8 bits), format (8 bits), minor (16 bits)
//! ```
//!
//! A newer major version cannot be opened at all, a newer format version
//! only for reading.  The minor version is informational.
use crate::bytes::{
    le_bytes, le_value, lemma_le_bytes_len, lemma_le_roundtrip, lemma_le_value_bound,
    lemma_radix_values, push_le, read_le,
};
use crate::Error;
use vstd::prelude::*;

verus! {

/// The major version that this implementation writes, and the newest that
/// it opens.
pub const CURRENT_MAJOR: u8 = 0;

/// The format version that this implementation writes, and the newest that
/// it opens for writing.
pub const CURRENT_FORMAT: u8 = 0;

/// The minor version that this implementation writes.
pub const CURRENT_MINOR: u16 = 0;

/// Length of the magic tag.
pub const MAGIC_SIZE: usize = 8;

/// Length of the whole header: the magic tag and the version triple.
pub const HEADER_SIZE: usize = 12;

/// The version triple that follows the magic.
#[derive(Clone, Copy, Debug, PartialEq, Eq, Structural)]
pub struct HeaderVer {
    pub major: u8,
    pub format: u8,
    pub minor: u16,
}

/// The magic tag: the ASCII word `Syncless`.
pub open spec fn magic() -> Seq<u8> {
    seq![0x53u8, 0x79u8, 0x6eu8, 0x63u8, 0x6cu8, 0x65u8, 0x73u8, 0x73u8]
}

/// The version that this implementation writes.
pub open spec fn current_version() -> HeaderVer {
    HeaderVer { major: CURRENT_MAJOR, format: CURRENT_FORMAT, minor: CURRENT_MINOR }
}

/// The twelve bytes of a header of version `v`.
pub open spec fn header_bytes(v: HeaderVer) -> Seq<u8> {
    magic() + seq![v.major, v.format] + le_bytes(v.minor as nat, 2)
}

/// What twelve bytes say as a header: the version triple behind the magic
/// tag, or nothing where the tag is absent.
pub open spec fn parse_header(s: Seq<u8>) -> Option<HeaderVer>
    recommends
        s.len() == HEADER_SIZE,
{
    if s.subrange(0, 8) == magic() {
        Some(HeaderVer { major: s[8], format: s[9], minor: le_value(s.subrange(10, 12)) as u16 })
    } else {
        None
    }
}

/// What the file says as a header at `pos`: nothing where fewer than twelve
/// bytes follow `pos`.
pub open spec fn header_at(file: Seq<u8>, pos: int) -> Option<HeaderVer> {
    if 0 <= pos && pos + HEADER_SIZE <= file.len() {
        parse_header(file.subrange(pos, pos + HEADER_SIZE))
    } else {
        None
    }
}

/// A store of version `v` can be read: its major version is not newer than
/// ours.
pub open spec fn read_compatible(v: HeaderVer) -> bool {
    v.major <= CURRENT_MAJOR
}

/// A store of version `v` can be appended to: it can be read, and its
/// format version is not newer than ours.
pub open spec fn write_compatible(v: HeaderVer) -> bool {
    read_compatible(v) && v.format <= CURRENT_FORMAT
}

/// A header is read back as the version it was written for.
pub proof fn lemma_header_roundtrip(v: HeaderVer)
    ensures
        header_bytes(v).len() == HEADER_SIZE,
        parse_header(header_bytes(v)) == Some(v),
        header_at(header_bytes(v), 0) == Some(v),
{
    let b = header_bytes(v);
    let minor = le_bytes(v.minor as nat, 2);
    lemma_le_bytes_len(v.minor as nat, 2);
    lemma_radix_values();
    lemma_le_roundtrip(v.minor as nat, 2);
    assert(b.len() == 12);
    assert(b.subrange(0, 8) =~= magic());
    assert(b.subrange(10, 12) =~= minor);
    assert(b[8] == v.major && b[9] == v.format);
    assert(b.subrange(0, 12) =~= b);
}

impl HeaderVer {
    /// Whether a store of this version can be read.
    pub fn is_read_compatible(&self) -> (ok: bool)
        ensures
            ok == read_compatible(*self),
    {
        self.major <= CURRENT_MAJOR
    }

    /// Whether a store of this version can be appended to.
    pub fn is_write_compatible(&self) -> (ok: bool)
        ensures
            ok == write_compatible(*self),
    {
        self.is_read_compatible() && self.format <= CURRENT_FORMAT
    }
}

/// Reads the header that starts at `*file_offset`.
///
/// Where twelve bytes follow that position they are consumed, whatever they
/// hold, and `*file_offset` moves past them.  A file that ends before, or
/// whose magic tag is absent, is not a store.
pub fn read_header(file: &[u8], file_offset: &mut u64) -> (r: Result<HeaderVer, Error>)
    ensures
        *final(file_offset) == if *old(file_offset) + HEADER_SIZE <= file.len() {
            (*old(file_offset) + HEADER_SIZE) as u64
        } else {
            *old(file_offset)
        },
        match header_at(file@, *old(file_offset) as int) {
            Some(v) => r == Ok::<HeaderVer, Error>(v),
            None => r == Err::<HeaderVer, Error>(Error::NotSyncless),
        },
{
    let len = file.len();
    if *file_offset > (len as u64) || len - (*file_offset as usize) < HEADER_SIZE {
        return Err(Error::NotSyncless);
    }
    let start: usize = *file_offset as usize;
    *file_offset = *file_offset + HEADER_SIZE as u64;
    let tag: [u8; 8] = [0x53, 0x79, 0x6e, 0x63, 0x6c, 0x65, 0x73, 0x73];
    let ghost head = file@.subrange(start as int, start + HEADER_SIZE);
    let mut i: usize = 0;
    while i < MAGIC_SIZE
        invariant
            i <= MAGIC_SIZE,
            start + HEADER_SIZE <= file.len(),
            start == *old(file_offset),
            *file_offset == start + HEADER_SIZE,
            tag@ == magic(),
            head == file@.subrange(start as int, start + HEADER_SIZE),
            forall|j: int| 0 <= j < i ==> head[j] == magic()[j],
        decreases MAGIC_SIZE - i,
    {
        if file[start + i] != tag[i] {
            proof {
                assert(head.subrange(0, 8)[i as int] != magic()[i as int]);
            }
            return Err(Error::NotSyncless);
        }
        i = i + 1;
    }
    proof {
        assert(head.subrange(0, 8) =~= magic());
        assert(head.subrange(10, 12) =~= file@.subrange(start + 10, start + 12));
        lemma_le_value_bound(head.subrange(10, 12));
        lemma_radix_values();
    }
    let minor: u64 = read_le(file, start + 10, 2);
    Ok(HeaderVer { major: file[start + 8], format: file[start + 9], minor: minor as u16 })
}

/// Appends the header of the current version to `file`, and returns its
/// length.
pub fn write_header(file: &mut Vec<u8>) -> (written: u64)
    ensures
        final(file)@ == old(file)@ + header_bytes(current_version()),
        written == HEADER_SIZE,
{
    let tag: [u8; 8] = [0x53, 0x79, 0x6e, 0x63, 0x6c, 0x65, 0x73, 0x73];
    let mut i: usize = 0;
    while i < MAGIC_SIZE
        invariant
            i <= MAGIC_SIZE,
            tag@ == magic(),
            file@ == old(file)@ + magic().subrange(0, i as int),
        decreases MAGIC_SIZE - i,
    {
        let ghost before = file@;
        file.push(tag[i]);
        assert(file@ =~= old(file)@ + magic().subrange(0, i + 1));
        i = i + 1;
    }
    file.push(CURRENT_MAJOR);
    file.push(CURRENT_FORMAT);
    push_le(file, CURRENT_MINOR as u64, 2);
    assert(file@ =~= old(file)@ + header_bytes(current_version()));
    HEADER_SIZE as u64
}

} // verus!
