//! The records of the log.  Each write appends one or more of them:
//!
//! ```text
//! [logical_offset: le64]
//! [length: le24]
//! [data...: length]
//! [hash: le64] (covers offset, length, and data)
//! ```
//!
//! The checksum at the end is what makes a write atomic: a record that was
//! torn, cut short or damaged does not have it, and is no record.
use crate::bytes::{
    le_bytes, le_value, lemma_le_bytes_len, lemma_le_roundtrip, lemma_le_value_bound,
    lemma_radix_values, push_le, read_le,
};
use vstd::prelude::*;
use vstd::slice::slice_subrange;

verus! {

/// A record's payload is shorter than this.
pub const MAX_RECORD_SIZE: usize = 0x100_0000;

/// Bytes before the payload: the logical offset and the length.
pub const RECORD_HDR_SIZE: usize = 11;

/// Bytes behind the payload: the checksum.
pub const RECORD_TLR_SIZE: usize = 8;

/// What a record says of itself: where its payload belongs in the logical
/// space, and how long it is.
#[derive(Clone, Copy, Debug, PartialEq, Eq, Structural)]
pub struct RecordHeader {
    pub logical_offset: u64,
    pub length: u64,
}

/// A record that was found in the file: its header, and where in the file
/// its payload begins.
#[derive(Clone, Copy, Debug, PartialEq, Eq, Structural)]
pub struct Record {
    pub hdr: RecordHeader,
    pub file_data_offset: u64,
}

/// The CRC-64 that `crc64fast` computes of `bytes`.
pub uninterp spec fn crc64_sum(bytes: Seq<u8>) -> u64;

/// Feeds `bytes` to a fresh `crc64fast::Digest` and takes its `sum64`.
///
/// The digest starts from a fixed state and `write` folds nothing but the
/// bytes into it, so the sum is a function of the bytes alone.  Nothing else
/// is claimed of it here.
#[verifier::external_body]
fn crc64(bytes: &[u8]) -> (sum: u64)
    ensures
        sum == crc64_sum(bytes@),
{
    let mut d = crc64fast::Digest::new();
    d.write(bytes);
    d.sum64()
}

/// The checksummed part of a record: offset, length and payload.
pub open spec fn record_frame(logical_offset: u64, data: Seq<u8>) -> Seq<u8> {
    le_bytes(logical_offset as nat, 8) + le_bytes(data.len(), 3) + data
}

/// A whole record as it stands in the file: the frame and its checksum.
pub open spec fn record_bytes(logical_offset: u64, data: Seq<u8>) -> Seq<u8> {
    record_frame(logical_offset, data) + le_bytes(
        crc64_sum(record_frame(logical_offset, data)) as nat,
        8,
    )
}

/// Bytes that a record with `length` bytes of payload takes in the file.
pub open spec fn framed_len(length: int) -> int {
    RECORD_HDR_SIZE + length + RECORD_TLR_SIZE
}

/// The record that stands in `file` at `pos`.
///
/// There is one where the header's eleven bytes lie inside the file, the
/// payload it announces and the checksum behind it do too, and the checksum
/// is that of header and payload.  A torn, truncated or damaged tail is no
/// record.
pub open spec fn record_at(file: Seq<u8>, pos: int) -> Option<Record> {
    if 0 <= pos && pos + RECORD_HDR_SIZE <= file.len() {
        let length = le_value(file.subrange(pos + 8, pos + 11));
        let end = pos + RECORD_HDR_SIZE + length;
        if end + RECORD_TLR_SIZE <= file.len() && le_value(file.subrange(end, end + 8))
            == crc64_sum(file.subrange(pos, end)) {
            Some(
                Record {
                    hdr: RecordHeader {
                        logical_offset: le_value(file.subrange(pos, pos + 8)) as u64,
                        length: length as u64,
                    },
                    file_data_offset: (pos + RECORD_HDR_SIZE) as u64,
                },
            )
        } else {
            None
        }
    } else {
        None
    }
}

/// The checksum behind the `len` payload bytes at `data_offset` is that of
/// the eleven bytes before the payload and the payload.
pub open spec fn record_checks(file: Seq<u8>, data_offset: int, len: int) -> bool {
    le_value(file.subrange(data_offset + len, data_offset + len + 8)) == crc64_sum(
        file.subrange(data_offset - RECORD_HDR_SIZE, data_offset + len),
    )
}

/// `file` with `bytes` written at `pos`: they replace what stood there and
/// lengthen the file where they reach beyond its end.  (A write behind the
/// end would leave a gap of zeros, as in a file.)
pub open spec fn written_at(file: Seq<u8>, pos: int, bytes: Seq<u8>) -> Seq<u8> {
    Seq::new(
        if file.len() >= pos + bytes.len() {
            file.len()
        } else {
            (pos + bytes.len()) as nat
        },
        |i: int|
            if pos <= i < pos + bytes.len() {
                bytes[i - pos]
            } else if i < file.len() {
                file[i]
            } else {
                0u8
            },
    )
}

/// Read `len` more bytes of the record that starts at `start`, behind the
/// `*total_read` bytes of it that were read before.
///
/// Where the file ends before, nothing counts as read: `*total_read` falls
/// back to 0, the start of the record.
pub fn read_bytes_fail_back(file: &[u8], start: u64, len: u64, total_read: &mut u64) -> (ok: bool)
    requires
        start + *old(total_read) <= file.len(),
    ensures
        ok == (start + *old(total_read) + len <= file@.len()),
        *final(total_read) == if ok {
            (*old(total_read) + len) as u64
        } else {
            0
        },
{
    let left: u64 = file.len() as u64 - start - *total_read;
    if len <= left {
        *total_read = *total_read + len;
        true
    } else {
        // Short read, stop at this point.
        *total_read = 0;
        false
    }
}

/// Whether the record whose payload of `data_length` bytes begins at
/// `data_offset` has the checksum of its header and payload behind it.
pub fn validate(file: &[u8], data_offset: u64, data_length: usize) -> (ok: bool)
    requires
        RECORD_HDR_SIZE <= data_offset,
        data_offset + data_length + RECORD_TLR_SIZE <= file.len(),
    ensures
        ok == record_checks(file@, data_offset as int, data_length as int),
{
    let start: usize = data_offset as usize - RECORD_HDR_SIZE;
    let end: usize = data_offset as usize + data_length;
    let sum = crc64(slice_subrange(file, start, end));
    sum == read_le(file, end, RECORD_TLR_SIZE)
}

/// Reads the record at `*file_offset`, if there is one, and moves
/// `*file_offset` past it.  Where there is none, `*file_offset` stays.
pub fn read_next_record(file: &[u8], file_offset: &mut u64) -> (r: Option<Record>)
    ensures
        r == record_at(file@, *old(file_offset) as int),
        *final(file_offset) == match r {
            Some(rec) => (*old(file_offset) + framed_len(rec.hdr.length as int)) as u64,
            None => *old(file_offset),
        },
        r is Some ==> *old(file_offset) + framed_len(r->0.hdr.length as int) <= file@.len(),
        r is Some ==> r->0.hdr.length < MAX_RECORD_SIZE,
{
    let start: u64 = *file_offset;
    if start > file.len() as u64 {
        return None;
    }
    let mut total_read: u64 = 0;
    if !read_bytes_fail_back(file, start, RECORD_HDR_SIZE as u64, &mut total_read) {
        return None;
    }
    let at: usize = start as usize;
    let logical_offset = read_le(file, at, 8);
    let length = read_le(file, at + 8, 3);
    proof {
        lemma_le_value_bound(file@.subrange(at + 8, at + 11));
        lemma_radix_values();
    }
    if !read_bytes_fail_back(file, start, length, &mut total_read) {
        return None;
    }
    if !read_bytes_fail_back(file, start, RECORD_TLR_SIZE as u64, &mut total_read) {
        return None;
    }
    let end: usize = at + RECORD_HDR_SIZE + length as usize;
    // Calculate and check hash.
    if !validate(file, start + RECORD_HDR_SIZE as u64, length as usize) {
        return None;
    }
    *file_offset = start + total_read;
    Some(
        Record {
            hdr: RecordHeader { logical_offset: logical_offset, length: length },
            file_data_offset: start + RECORD_HDR_SIZE as u64,
        },
    )
}

/// Appends a record to the end of the store (must be < 16MB!)
///
/// `*file_size` is the end of the valid log, where the record is written.
/// Atomicity is provided by the trailer checksum; durability is not
/// guaranteed.  Returns where in the file the payload begins.
pub fn write_record(
    file: &mut Vec<u8>,
    logical_offset: u64,
    data: &[u8],
    file_size: &mut u64,
) -> (data_off: u64)
    requires
        data.len() < MAX_RECORD_SIZE,
        *old(file_size) <= old(file).len(),
    ensures
        final(file)@ == written_at(
            old(file)@,
            *old(file_size) as int,
            record_bytes(logical_offset, data@),
        ),
        data_off == *old(file_size) + RECORD_HDR_SIZE,
        *final(file_size) == *old(file_size) + framed_len(data@.len() as int),
        *final(file_size) <= final(file).len(),
{
    let mut rec: Vec<u8> = Vec::new();
    push_le(&mut rec, logical_offset, 8);
    push_le(&mut rec, data.len() as u64, 3);
    let mut i: usize = 0;
    while i < data.len()
        invariant
            i <= data@.len(),
            rec@ == le_bytes(logical_offset as nat, 8) + le_bytes(data@.len(), 3) + data@.take(
                i as int,
            ),
        decreases data@.len() - i,
    {
        rec.push(data[i]);
        assert(data@.take(i + 1) =~= data@.take(i as int).push(data@[i as int]));
        i = i + 1;
    }
    assert(data@.take(data@.len() as int) =~= data@);
    let sum = crc64(rec.as_slice());
    push_le(&mut rec, sum, 8);
    proof {
        lemma_le_bytes_len(logical_offset as nat, 8);
        lemma_le_bytes_len(data@.len(), 3);
        lemma_le_bytes_len(sum as nat, 8);
    }
    assert(rec@ == record_bytes(logical_offset, data@));
    assert(rec@.len() == framed_len(data@.len() as int));
    let at: usize = *file_size as usize;
    write_at(file, at, rec.as_slice());
    *file_size = (at + rec.len()) as u64;
    (at + RECORD_HDR_SIZE) as u64
}

/// Writes `bytes` into `file` at `at`, over what stands there and beyond
/// the end where they reach further.
fn write_at(file: &mut Vec<u8>, at: usize, bytes: &[u8])
    requires
        at <= old(file).len(),
    ensures
        final(file)@ == written_at(old(file)@, at as int, bytes@),
        at + bytes.len() <= final(file).len(),
{
    let mut i: usize = 0;
    while i < bytes.len()
        invariant
            i <= bytes.len(),
            at <= old(file).len(),
            at + i <= file.len(),
            file@ == written_at(old(file)@, at as int, bytes@.take(i as int)),
        decreases bytes@.len() - i,
    {
        let ghost before = file@;
        if at + i < file.len() {
            file.set(at + i, bytes[i]);
        } else {
            file.push(bytes[i]);
        }
        assert(file@ =~= written_at(old(file)@, at as int, bytes@.take(i + 1)));
        i = i + 1;
    }
    assert(bytes@.take(bytes@.len() as int) =~= bytes@);
}

/// A record's bytes: as many as its frame and checksum take, with the
/// payload behind the eleven bytes of the header.
pub proof fn lemma_record_bytes(logical_offset: u64, data: Seq<u8>)
    ensures
        record_bytes(logical_offset, data).len() == framed_len(data.len() as int),
        forall|k: int|
            0 <= k < data.len() ==> #[trigger] record_bytes(logical_offset, data)[RECORD_HDR_SIZE
                + k] == data[k],
{
    lemma_le_bytes_len(logical_offset as nat, 8);
    lemma_le_bytes_len(data.len(), 3);
    lemma_le_bytes_len(crc64_sum(record_frame(logical_offset, data)) as nat, 8);
}

/// The record that `record_bytes(logical_offset, data)` is.
pub open spec fn record_of(logical_offset: u64, data: Seq<u8>, pos: int) -> Record {
    Record {
        hdr: RecordHeader { logical_offset: logical_offset, length: data.len() as u64 },
        file_data_offset: (pos + RECORD_HDR_SIZE) as u64,
    }
}

/// A record is read back where it was written, with its payload, and the
/// file before it is untouched.
pub proof fn lemma_record_written(file: Seq<u8>, pos: int, logical_offset: u64, data: Seq<u8>)
    requires
        0 <= pos <= file.len(),
        data.len() < MAX_RECORD_SIZE,
    ensures
        ({
            let after = written_at(file, pos, record_bytes(logical_offset, data));
            &&& record_at(after, pos) == Some(record_of(logical_offset, data, pos))
            &&& after.subrange(pos + RECORD_HDR_SIZE, pos + RECORD_HDR_SIZE + data.len()) == data
            &&& after.take(pos) == file.take(pos)
            &&& after.len() >= pos + framed_len(data.len() as int)
            &&& after.len() >= file.len()
            &&& after.len() == if pos + framed_len(data.len() as int) < file.len() {
                file.len() as int
            } else {
                pos + framed_len(data.len() as int)
            }
        }),
{
    let frame = record_frame(logical_offset, data);
    let sum = crc64_sum(frame);
    let rec = record_bytes(logical_offset, data);
    let after = written_at(file, pos, rec);
    let off_bytes = le_bytes(logical_offset as nat, 8);
    let len_bytes = le_bytes(data.len(), 3);
    lemma_le_bytes_len(logical_offset as nat, 8);
    lemma_le_bytes_len(data.len(), 3);
    lemma_le_bytes_len(sum as nat, 8);
    lemma_radix_values();
    lemma_le_roundtrip(logical_offset as nat, 8);
    lemma_le_roundtrip(data.len(), 3);
    lemma_le_roundtrip(sum as nat, 8);
    let end = pos + RECORD_HDR_SIZE + data.len();
    assert(rec.len() == framed_len(data.len() as int));
    assert(after.subrange(pos, pos + 8) =~= off_bytes);
    assert(after.subrange(pos + 8, pos + 11) =~= len_bytes);
    assert(after.subrange(pos, end) =~= frame);
    assert(after.subrange(end, end + 8) =~= le_bytes(sum as nat, 8));
    assert(after.subrange(pos + RECORD_HDR_SIZE, pos + RECORD_HDR_SIZE + data.len()) =~= data);
    assert(after.take(pos) =~= file.take(pos));
}

/// Whether a record stands at `pos`, and which, depends on the bytes of
/// that record alone: a file that holds the same bytes there holds the same
/// record.
pub proof fn lemma_record_at_local(f1: Seq<u8>, f2: Seq<u8>, pos: int)
    requires
        record_at(f1, pos) is Some,
        pos + framed_len(record_at(f1, pos)->0.hdr.length as int) <= f2.len(),
        f2.subrange(pos, pos + framed_len(record_at(f1, pos)->0.hdr.length as int))
            == f1.subrange(pos, pos + framed_len(record_at(f1, pos)->0.hdr.length as int)),
    ensures
        record_at(f2, pos) == record_at(f1, pos),
{
    let length = le_value(f1.subrange(pos + 8, pos + 11));
    lemma_le_value_bound(f1.subrange(pos + 8, pos + 11));
    lemma_radix_values();
    let n = framed_len(length as int);
    let w1 = f1.subrange(pos, pos + n);
    let w2 = f2.subrange(pos, pos + n);
    let end = pos + RECORD_HDR_SIZE + length;
    assert(f1.subrange(pos + 8, pos + 11) =~= w1.subrange(8, 11));
    assert(f2.subrange(pos + 8, pos + 11) =~= w2.subrange(8, 11));
    assert(f1.subrange(pos, pos + 8) =~= w1.subrange(0, 8));
    assert(f2.subrange(pos, pos + 8) =~= w2.subrange(0, 8));
    assert(f1.subrange(pos, end) =~= w1.subrange(0, end - pos));
    assert(f2.subrange(pos, end) =~= w2.subrange(0, end - pos));
    assert(f1.subrange(end, end + 8) =~= w1.subrange(end - pos, end - pos + 8));
    assert(f2.subrange(end, end + 8) =~= w2.subrange(end - pos, end - pos + 8));
}

} // verus!
