//! The store: the span map of one log, and the logical reads and writes
//! that go through it.
use crate::header::{
    current_version, header_at, header_bytes, lemma_header_roundtrip, read_compatible, read_header,
    write_compatible, write_header, HEADER_SIZE,
};
use crate::log::{
    all_validated, lemma_all_validated_straddler, lemma_apply_record, log_end, log_records, replay,
    spans_in_file,
};
use crate::model::{
    access_passes, accessed_state, appended_file, appended_state, compatible, first_index,
    frontier, lemma_appended_state, lemma_clamped_range, lemma_mark_validated,
    lemma_marked_validated_in, lemma_read_start, lemma_read_step, lemma_written, log_of, log_write,
    logical_view, mark_validated, needs_check, opened_file, opened_state, overlaid, overwritten,
    prev_key, range_checks, read_upto, state_wf, validated_entry, validated_state,
    validation_passes, written_file, written_state, StoreState, MAX_CHUNK,
};
use crate::record::{
    read_next_record, record_at, record_checks, validate, write_record, Record, RECORD_HDR_SIZE,
};
use crate::span::{
    add_record, lemma_add_validated_in, lemma_rank, lemma_validated_in_straddler, locate,
    logical_byte, logical_size, lower_bound, span_end, spans_wf, validated_in, Span,
};
use crate::{Error, ReadOnly, Store, Writable};
use std::marker::PhantomData;
use vstd::prelude::*;
use vstd::slice::slice_subrange;

verus! {

/// What a store holds of its log: the span map and the end of the valid log.
pub struct StoreBase {
    pub spans: Vec<(u64, Span)>,
    pub file_size: u64,
}

/// The flavor of a store, as its type says it.
pub trait Mode {
    /// Whether a store of this flavor may append.
    spec fn writable() -> bool;
}

impl Mode for ReadOnly {
    open spec fn writable() -> bool {
        false
    }
}

impl Mode for Writable {
    open spec fn writable() -> bool {
        true
    }
}

/// Sets every byte of `buf` to zero.
fn zero_fill(buf: &mut [u8])
    ensures
        final(buf)@ == Seq::new(old(buf)@.len(), |j: int| 0u8),
{
    let n = buf.len();
    let mut i: usize = 0;
    while i < n
        invariant
            i <= n,
            n == buf.len(),
            buf@.len() == old(buf)@.len(),
            forall|j: int| 0 <= j < i ==> buf@[j] == 0,
        decreases n - i,
    {
        buf[i] = 0;
        i = i + 1;
    }
    assert(buf@ =~= Seq::new(old(buf)@.len(), |j: int| 0u8));
}

/// Copies into `buf`, which stands for the logical bytes from `offset` on,
/// the payload bytes of the span `(key, span)` that fall into it.
fn copy_overlap(file: &[u8], buf: &mut [u8], offset: u64, key: u64, span: Span)
    requires
        span.file_data_offset + span.len <= file.len(),
        key + span.len <= u64::MAX,
    ensures
        final(buf)@ == overlaid(old(buf)@, file@, offset as int, (key, span)),
{
    let n = buf.len();
    let from: u64 = if key > offset {
        key
    } else {
        offset
    };
    let span_end: u64 = key + span.len;
    if from >= span_end || from - offset >= n as u64 {
        assert(buf@ =~= overlaid(old(buf)@, file@, offset as int, (key, span)));
        return ;
    }
    let first: usize = (from - offset) as usize;
    let src: usize = (span.file_data_offset + (from - key)) as usize;
    let avail: u64 = span_end - from;
    let count: usize = if avail < (n - first) as u64 {
        avail as usize
    } else {
        n - first
    };
    let mut c: usize = 0;
    while c < count
        invariant
            c <= count,
            n == buf.len(),
            buf@.len() == old(buf)@.len(),
            first + count <= n,
            src + count <= file.len(),
            forall|j: int|
                0 <= j < n ==> #[trigger] buf@[j] == if first <= j < first + c {
                    file@[src + (j - first)]
                } else {
                    old(buf)@[j]
                },
        decreases count - c,
    {
        buf[first + c] = file[src + c];
        c = c + 1;
    }
    assert(buf@ =~= overlaid(old(buf)@, file@, offset as int, (key, span)));
}

/// A store is seen as its span map, the end of its log and its flavor.
impl<M> View for Store<M> {
    type V = StoreState;

    closed spec fn view(&self) -> StoreState {
        StoreState {
            spans: self.base.spans@,
            file_size: self.base.file_size,
            writable: self.writable,
        }
    }
}

impl<M: Mode> Store<M> {
    /// The store's invariant: its state is well formed, it is writable
    /// exactly if its type says so, and a store that is not writable has
    /// nothing left to validate.
    pub open spec fn wf(&self) -> bool {
        &&& state_wf(self@)
        &&& self@.writable == M::writable()
        &&& !self@.writable ==> all_validated(self@.spans)
    }

    /// Returns the logical size of the store in bytes.
    ///
    /// Reading past this gives zeros.  Writing past this successfully is
    /// the only way to increase its value.
    pub fn size(&self) -> (n: u64)
        requires
            self.wf(),
        ensures
            n == logical_size(self@.spans),
    {
        let n = self.base.spans.len();
        if n == 0 {
            0
        } else {
            let (off, span) = self.base.spans[n - 1];
            off + span.len
        }
    }

    /// The span map, in key order.
    pub fn spans(&self) -> (spans: &Vec<(u64, Span)>)
        ensures
            spans@ == self@.spans,
    {
        &self.base.spans
    }

    /// Whether the store was opened for writing.
    pub fn is_writable(&self) -> (yes: bool)
        ensures
            yes == self@.writable,
    {
        self.writable
    }

    /// Where the valid log ends in the file: what the file must at least
    /// hold, and where the next record goes.
    pub fn file_size(&self) -> (n: u64)
        ensures
            n == self@.file_size,
    {
        self.base.file_size
    }

    /// Get offset of prior record (or 0)
    pub fn prev_offset(&self, offset: u64) -> (prev: u64)
        requires
            self.wf(),
        ensures
            prev == prev_key(self@.spans, offset as int),
    {
        let r = lower_bound(&self.base.spans, offset);
        if r > 0 {
            self.base.spans[r - 1].0
        } else {
            0
        }
    }

    /// Validate any spans in this range not already validated.
    ///
    /// In a writable store, every span whose key lies in `start .. end` and
    /// which was not validated yet has its record checked against `file`.
    /// If all of them check, they are validated; if one does not, the
    /// record is corrupt and nothing changes.  A read-only store is left
    /// alone.
    ///
    /// `file` must hold at least the log that the store knows, that is
    /// `file_size()` bytes.
    pub fn validate_range(&mut self, file: &[u8], start: u64, end: u64) -> (r: Result<(), Error>)
        requires
            old(self).wf(),
            old(self)@.file_size <= file.len(),
        ensures
            final(self).wf(),
            final(self)@ == validated_state(old(self)@, file@, start as int, end as int),
            r == if validation_passes(old(self)@, file@, start as int, end as int) {
                Ok::<(), Error>(())
            } else {
                Err::<(), Error>(Error::CorruptRecord)
            },
    {
        if !self.writable {
            return Ok(());
        }
        let ghost s = self.base.spans@;
        proof {
            lemma_rank(s, start as int);
            lemma_rank(s, end as int);
            lemma_mark_validated(
                s,
                start as int,
                end as int,
                HEADER_SIZE as int,
                self.base.file_size as int,
            );
        }
        let a = lower_bound(&self.base.spans, start);
        let b = lower_bound(&self.base.spans, end);
        // Validate them all.
        let mut i: usize = a;
        while i < b
            invariant
                a <= i,
                b <= s.len(),
                *self == *old(self),
                old(self).wf(),
                old(self).writable,
                self.base.spans@ == s,
                self.base.file_size <= file.len(),
                spans_in_file(s, HEADER_SIZE as int, self.base.file_size as int),
                forall|j: int| a <= j < b ==> start <= (#[trigger] s[j]).0 < end,
                forall|j: int|
                    a <= j < i && needs_check(#[trigger] s[j], start as int, end as int)
                        ==> record_checks(
                        file@,
                        s[j].1.file_data_offset as int,
                        s[j].1.len as int,
                    ),
            decreases b - i,
        {
            let (_, span) = self.base.spans[i];
            if !span.validated {
                if !validate(file, span.file_data_offset, span.len as usize) {
                    assert(needs_check(s[i as int], start as int, end as int));
                    return Err(Error::CorruptRecord);
                }
            }
            i = i + 1;
        }
        assert(range_checks(s, file@, start as int, end as int)) by {
            assert forall|j: int|
                0 <= j < s.len() && needs_check(
                    #[trigger] s[j],
                    start as int,
                    end as int,
                ) implies record_checks(
                file@,
                s[j].1.file_data_offset as int,
                s[j].1.len as int,
            ) by {
                assert(a <= j < b);
            }
        }
        // Set them all valid.
        let mut i: usize = a;
        while i < b
            invariant
                a <= i,
                i <= b || i == a,
                b <= s.len(),
                self.base.file_size == old(self).base.file_size,
                self.writable == old(self).writable,
                self.base.spans@.len() == s.len(),
                forall|j: int|
                    0 <= j < s.len() ==> #[trigger] self.base.spans@[j] == if a <= j < i {
                        validated_entry(s[j])
                    } else {
                        s[j]
                    },
            decreases b - i,
        {
            let (off, span) = self.base.spans[i];
            self.base.spans.set(
                i,
                (
                    off,
                    Span {
                        len: span.len,
                        file_data_offset: span.file_data_offset,
                        validated: true,
                    },
                ),
            );
            i = i + 1;
        }
        assert forall|j: int| 0 <= j < s.len() implies (start <= (#[trigger] s[j]).0 < end) == (a
            <= j < b) by {}
        assert(self.base.spans@ =~= mark_validated(s, start as int, end as int));
        Ok(())
    }

    /// Reads `buf.len()` bytes starting at `offset`.
    ///
    /// The read is performed against the reconstructed logical view of the
    /// store over `file`.  If there's a hole, or past EOF, it will read as
    /// all zeros.
    ///
    /// A writable store first validates the spans whose keys lie between
    /// the last span before `offset` and the end of the read.
    ///
    /// `file` must hold at least the log that the store knows, that is
    /// `file_size()` bytes.
    ///
    /// # Errors
    ///
    /// `CorruptRecord` where that validation fails; `buf` is then all zeros
    /// and the store is unchanged.
    pub fn read(&mut self, file: &[u8], offset: u64, buf: &mut [u8]) -> (r: Result<(), Error>)
        requires
            old(self).wf(),
            old(self)@.file_size <= file.len(),
        ensures
            final(self).wf(),
            final(self)@ == accessed_state(
                log_of(file@, old(self)@),
                offset,
                old(buf)@.len() as int,
            ),
            r is Ok <==> access_passes(log_of(file@, old(self)@), offset, old(buf)@.len() as int),
            r is Err ==> r == Err::<(), Error>(Error::CorruptRecord),
            final(buf)@ == if r is Ok {
                logical_view(old(self)@.spans, file@, offset as int, old(buf)@.len())
            } else {
                Seq::new(old(buf)@.len(), |j: int| 0u8)
            },
            forall|j: int|
                0 <= j < old(buf)@.len() && locate(old(self)@.spans, offset + j) is None
                    ==> #[trigger] final(buf)@[j] == 0,
    {
        // Holes are zeros, so simply zero it out to start.
        zero_fill(buf);
        let n = buf.len();
        let ghost s0 = self.base.spans@;
        let ghost true_end = offset + n;
        let prev = self.prev_offset(offset);
        let end: u64 = if n as u64 > u64::MAX - offset {
            u64::MAX
        } else {
            offset + n as u64
        };
        proof {
            if true_end >= u64::MAX {
                lemma_clamped_range(s0, file@, prev as int, true_end);
            }
            lemma_mark_validated(
                s0,
                prev as int,
                true_end,
                HEADER_SIZE as int,
                self.base.file_size as int,
            );
        }
        match self.validate_range(file, prev, end) {
            Err(e) => {
                return Err(e);
            },
            Ok(()) => {},
        }
        let ghost s = self.base.spans@;
        proof {
            lemma_read_start(s, file@, offset as int, n as nat);
            lemma_rank(s, offset as int);
        }
        let k = lower_bound(&self.base.spans, offset);
        let mut idx: usize = k;
        if k > 0 {
            let (key, span) = self.base.spans[k - 1];
            if span.len > offset - key {
                // End of previous span may overlap.
                idx = k - 1;
            }
        }
        while idx < self.base.spans.len() && self.base.spans[idx].0 < end
            invariant
                spans_wf(s),
                self.base.spans@ == s,
                first_index(s, offset as int) <= idx <= s.len(),
                n == buf.len(),
                buf@ == read_upto(s, file@, offset as int, n as nat, frontier(s, idx as int)),
                forall|i: int|
                    0 <= i < s.len() ==> (#[trigger] s[i]).1.file_data_offset + s[i].1.len
                        <= file.len(),
            decreases s.len() - idx,
        {
            let (key, span) = self.base.spans[idx];
            proof {
                lemma_read_step(s, file@, offset as int, n as nat, idx as int);
            }
            copy_overlap(file, buf, offset, key, span);
            idx = idx + 1;
        }
        proof {
            assert(buf@ =~= logical_view(s, file@, offset as int, n as nat)) by {
                if idx < s.len() {
                    assert(s[idx as int].0 < u64::MAX);
                }
            }
            assert(logical_view(s, file@, offset as int, n as nat) =~= logical_view(
                s0,
                file@,
                offset as int,
                n as nat,
            ));
        }
        Ok(())
    }
}

impl Store<Writable> {
    /// Writes `buf.len()` bytes starting at `offset`.
    ///
    /// You can write anywhere, but if you create holes they will be
    /// zero-filled.  Writes are ordered and become atomically visible
    /// on success.  No durability guarantees: the effects of this
    /// write may be lost on crash or power failure.  However, the
    /// effects of this write will never be observed without also
    /// observing the effects of all previous successful writes.
    ///
    /// The records are written into `file` at the end of the valid log,
    /// from `file_size()` on; it is the caller's part to bring them to the
    /// disk.  `file` must hold at least the log that the store knows, and
    /// the write must end at or before the last 64-bit offset.  Each record
    /// takes at most `MAX_CHUNK` bytes of `buf`.
    ///
    /// # Errors
    ///
    /// `CorruptRecord` where a span that the write would cut or shadow does
    /// not validate; nothing is written then.
    pub fn write(&mut self, file: &mut Vec<u8>, offset: u64, buf: &[u8]) -> (r: Result<(), Error>)
        requires
            old(self).wf(),
            old(self)@.file_size <= old(file).len(),
            offset + buf.len() <= u64::MAX,
        ensures
            final(self).wf(),
            final(self)@.file_size <= final(file).len(),
            r is Ok <==> access_passes(log_of(old(file)@, old(self)@), offset, buf@.len() as int),
            r is Err ==> r == Err::<(), Error>(Error::CorruptRecord),
            log_of(final(file)@, final(self)@) == log_write(
                log_of(old(file)@, old(self)@),
                offset,
                buf@,
            ),
            r is Ok ==> forall|o: int|
                #[trigger] logical_byte(final(self)@.spans, final(file)@, o) == overwritten(
                    logical_byte(old(self)@.spans, old(file)@, o),
                    offset as int,
                    buf@,
                    o,
                ),
            r is Ok ==> logical_size(final(self)@.spans) == if buf@.len() == 0 || logical_size(
                old(self)@.spans,
            ) >= offset + buf@.len() {
                logical_size(old(self)@.spans)
            } else {
                offset + buf@.len()
            },
            logical_size(final(self)@.spans) >= logical_size(old(self)@.spans),
    {
        let n = buf.len();
        let end: u64 = offset + n as u64;
        let ghost s0 = self.base.spans@;
        // Validate anything we're going to overwrite.
        let prev = self.prev_offset(offset);
        proof {
            lemma_mark_validated(
                s0,
                prev as int,
                end as int,
                HEADER_SIZE as int,
                self.base.file_size as int,
            );
            lemma_rank(s0, offset as int);
        }
        match self.validate_range(file.as_slice(), prev, end) {
            Err(e) => {
                return Err(e);
            },
            Ok(()) => {},
        }
        let ghost checked = self@;
        proof {
            lemma_marked_validated_in(s0, offset as int, end as int);
        }
        assert(buf@.skip(0) =~= buf@);
        let mut at: usize = 0;
        let mut off: u64 = offset;
        while at < n
            invariant
                at <= n,
                n == buf.len(),
                off == offset + at,
                end == offset + n,
                self.wf(),
                self@.file_size <= file.len(),
                validated_in(self@.spans, off as int, end as int),
                written_state(self@, off as int, buf@.skip(at as int)) == written_state(
                    checked,
                    offset as int,
                    buf@,
                ),
                written_file(file@, self@, off as int, buf@.skip(at as int)) == written_file(
                    old(file)@,
                    checked,
                    offset as int,
                    buf@,
                ),
            decreases n - at,
        {
            let left = n - at;
            let c: usize = if left < MAX_CHUNK {
                left
            } else {
                MAX_CHUNK
            };
            let chunk = slice_subrange(buf, at, at + c);
            let ghost before = self@;
            let ghost file_before = file@;
            proof {
                let rest = buf@.skip(at as int);
                assert(rest.take(c as int) =~= chunk@);
                assert(rest.skip(c as int) =~= buf@.skip(at + c));
                lemma_validated_in_straddler(before.spans, off as int, end as int, off as int);
                lemma_validated_in_straddler(before.spans, off as int, end as int, off + c);
                lemma_add_validated_in(
                    before.spans,
                    off,
                    c as u64,
                    (before.file_size + RECORD_HDR_SIZE) as u64,
                    false,
                    end as int,
                );
            }
            let data_off = write_record(file, off, chunk, &mut self.base.file_size);
            add_record(&mut self.base.spans, off, c as u64, data_off, false);
            proof {
                reveal(appended_state);
                reveal(appended_file);
                lemma_appended_state(file_before, before, off, chunk@);
            }
            at = at + c;
            off = off + c as u64;
        }
        proof {
            assert forall|o: int|
                #[trigger] logical_byte(self@.spans, file@, o) == overwritten(
                    logical_byte(old(self)@.spans, old(file)@, o),
                    offset as int,
                    buf@,
                    o,
                ) by {
                lemma_written(old(file)@, checked, offset as int, buf@, o);
            }
            lemma_written(old(file)@, checked, offset as int, buf@, 0);
        }
        Ok(())
    }

    /// Convert this writable store into a readonly one.
    ///
    /// Before we make it readonly, all spans are validated against `file`,
    /// which must hold at least the log that the store knows.
    ///
    /// # Errors
    ///
    /// `CorruptRecord` where a span that was not validated yet does not
    /// validate.
    pub fn into_readonly(self, file: &[u8]) -> (r: Result<Store<ReadOnly>, Error>)
        requires
            self.wf(),
            self@.file_size <= file.len(),
        ensures
            match r {
                Ok(ro) => {
                    &&& ro.wf()
                    &&& range_checks(self@.spans, file@, 0, logical_size(self@.spans))
                    &&& ro@.spans == mark_validated(self@.spans, 0, logical_size(self@.spans))
                    &&& all_validated(ro@.spans)
                    &&& ro@.file_size == self@.file_size
                    &&& !ro@.writable
                    &&& forall|o: int|
                        #[trigger] logical_byte(ro@.spans, file@, o) == logical_byte(
                            self@.spans,
                            file@,
                            o,
                        )
                },
                Err(e) => {
                    &&& e == Error::CorruptRecord
                    &&& !range_checks(self@.spans, file@, 0, logical_size(self@.spans))
                },
            },
    {
        let mut store = self;
        let size = store.size();
        proof {
            lemma_mark_validated(
                self@.spans,
                0,
                size as int,
                HEADER_SIZE as int,
                self@.file_size as int,
            );
        }
        match store.validate_range(file, 0, size) {
            Err(e) => {
                return Err(e);
            },
            Ok(()) => {},
        }
        proof {
            let s = self@.spans;
            assert forall|i: int| 0 <= i < s.len() implies (#[trigger] s[i]).0 < size by {
                if i < s.len() - 1 {
                    assert(span_end(s[i]) <= s[s.len() - 1].0);
                }
            }
        }
        Ok(Store { base: store.base, writable: false, _mode: PhantomData })
    }
}

/// Whether an operation that failed with `err` is to be tried once more on
/// a fresh reading of the file, after a data sync.
///
/// A record that was just written can read back wrong until the file is
/// synced.  So the first `CorruptRecord` calls for a sync and a second try;
/// one that comes back after the sync stands, and so does any other error.
pub fn retry_after_sync(err: &Error, synced: bool) -> (again: bool)
    ensures
        again == (*err is CorruptRecord && !synced),
{
    match err {
        Error::CorruptRecord => !synced,
        _ => false,
    }
}

/// Parse header of new file, load up records.
///
/// The header is read at `base.file_size`, and the records behind it are
/// replayed into `base.spans` up to the first position where no record
/// stands: there `base.file_size` comes to rest.  A record that frames no
/// byte, or whose logical range would reach beyond the 64-bit offsets,
/// leaves the map as it is.
///
/// # Errors
///
/// `NotSyncless` where the file holds no header there, and
/// `UnsupportedVersion` where it holds one of a version that cannot be
/// opened, for writing if `writable` and for reading if not.  Nothing is
/// replayed then.
pub fn read_newfile(base: &mut StoreBase, file: &[u8], writable: bool) -> (r: Result<(), Error>)
    requires
        spans_wf(old(base).spans@),
        all_validated(old(base).spans@),
        spans_in_file(old(base).spans@, HEADER_SIZE as int, old(base).file_size as int),
    ensures
        match header_at(file@, old(base).file_size as int) {
            None => {
                &&& r == Err::<(), Error>(Error::NotSyncless)
                &&& final(base).spans == old(base).spans
                &&& final(base).file_size == if old(base).file_size + HEADER_SIZE <= file.len() {
                    (old(base).file_size + HEADER_SIZE) as u64
                } else {
                    old(base).file_size
                }
            },
            Some(v) => if !compatible(v, writable) {
                &&& r == Err::<(), Error>(Error::UnsupportedVersion)
                &&& final(base).spans == old(base).spans
                &&& final(base).file_size == old(base).file_size + HEADER_SIZE
            } else {
                &&& r == Ok::<(), Error>(())
                &&& final(base).spans@ == replay(
                    old(base).spans@,
                    log_records(file@, old(base).file_size + HEADER_SIZE),
                )
                &&& final(base).file_size == log_end(file@, old(base).file_size + HEADER_SIZE)
                &&& old(base).file_size + HEADER_SIZE <= final(base).file_size <= file.len()
                &&& spans_wf(final(base).spans@)
                &&& all_validated(final(base).spans@)
                &&& spans_in_file(
                    final(base).spans@,
                    HEADER_SIZE as int,
                    final(base).file_size as int,
                )
            },
        },
{
    let hver = match read_header(file, &mut base.file_size) {
        Err(e) => {
            return Err(e);
        },
        Ok(hver) => hver,
    };
    let ok = if writable {
        hver.is_write_compatible()
    } else {
        hver.is_read_compatible()
    };
    if !ok {
        return Err(Error::UnsupportedVersion);
    }
    let ghost start: int = base.file_size as int;
    let ghost init = base.spans@;
    let ghost done: Seq<Record> = Seq::empty();
    let mut more = true;
    assert(Seq::<Record>::empty() + log_records(file@, start) =~= log_records(file@, start));
    while more
        invariant
            HEADER_SIZE <= start <= base.file_size <= file.len(),
            spans_wf(base.spans@),
            all_validated(base.spans@),
            spans_in_file(base.spans@, HEADER_SIZE as int, base.file_size as int),
            log_records(file@, start) == done + log_records(file@, base.file_size as int),
            log_end(file@, start) == log_end(file@, base.file_size as int),
            base.spans@ == replay(init, done),
            !more ==> record_at(file@, base.file_size as int) is None,
        decreases file.len() - base.file_size + if more { 1int } else { 0int },
    {
        let ghost pos = base.file_size as int;
        let ghost spans_before = base.spans@;
        match read_next_record(file, &mut base.file_size) {
            None => {
                more = false;
            },
            Some(record) => {
                proof {
                    let rest = log_records(file@, base.file_size as int);
                    assert(log_records(file@, pos) == seq![record] + rest);
                    assert(done.push(record) + rest =~= done + (seq![record] + rest));
                    assert(done.push(record).drop_last() =~= done);
                    lemma_all_validated_straddler(spans_before, record.hdr.logical_offset as int);
                    lemma_all_validated_straddler(
                        spans_before,
                        record.hdr.logical_offset + record.hdr.length,
                    );
                    lemma_apply_record(
                        spans_before,
                        record,
                        HEADER_SIZE as int,
                        base.file_size as int,
                    );
                    done = done.push(record);
                }
                if record.hdr.length > 0 && record.hdr.length <= u64::MAX
                    - record.hdr.logical_offset {
                    add_record(
                        &mut base.spans,
                        record.hdr.logical_offset,
                        record.hdr.length,
                        record.file_data_offset,
                        true,
                    );
                }
            },
        }
    }
    proof {
        assert(log_records(file@, base.file_size as int) =~= Seq::<Record>::empty());
        assert(done + Seq::<Record>::empty() =~= done);
    }
    Ok(())
}

/// Opens an existing syncless store readonly.
///
/// On success, the returned [`Store`] represents a logically consistent
/// view reconstructed from the log in `file`: every record up to the first
/// position where none stands.
///
/// # Errors
///
/// `NotSyncless` where `file` does not begin with a header, and
/// `UnsupportedVersion` where the header's major version is newer than
/// ours.
pub fn open_readonly(file: &[u8]) -> (r: Result<Store<ReadOnly>, Error>)
    ensures
        match header_at(file@, 0) {
            None => r matches Err(e) && e == Error::NotSyncless,
            Some(v) => if !read_compatible(v) {
                r matches Err(e) && e == Error::UnsupportedVersion
            } else {
                &&& r matches Ok(store)
                &&& store.wf()
                &&& store@ == opened_state(file@, false)
                &&& store@.file_size <= file.len()
                &&& all_validated(store@.spans)
            },
        },
{
    let mut base = StoreBase { spans: Vec::new(), file_size: 0 };
    match read_newfile(&mut base, file, false) {
        Err(e) => {
            return Err(e);
        },
        Ok(()) => {},
    }
    Ok(Store { base: base, writable: false, _mode: PhantomData })
}

/// Opens the log in `file` for reading and writing, and gives back what
/// the store holds of it.
///
/// Special case: empty file, we write header.  Any other file is replayed,
/// and left as it is.
///
/// # Errors
///
/// `NotSyncless` where a file that is not empty does not begin with a
/// header, and `UnsupportedVersion` where the header's major or format
/// version is newer than ours.
pub fn open_writable_base(file: &mut Vec<u8>) -> (r: Result<StoreBase, Error>)
    ensures
        match header_at(opened_file(old(file)@), 0) {
            None => {
                &&& r matches Err(e) && e == Error::NotSyncless
                &&& final(file)@ == old(file)@
            },
            Some(v) => if !write_compatible(v) {
                &&& r matches Err(e) && e == Error::UnsupportedVersion
                &&& final(file)@ == old(file)@
            } else {
                &&& r matches Ok(base)
                &&& final(file)@ == opened_file(old(file)@)
                &&& base.spans@ == opened_state(final(file)@, true).spans
                &&& base.file_size == opened_state(final(file)@, true).file_size
                &&& HEADER_SIZE <= base.file_size <= final(file).len()
                &&& spans_wf(base.spans@)
                &&& all_validated(base.spans@)
                &&& spans_in_file(base.spans@, HEADER_SIZE as int, base.file_size as int)
            },
        },
{
    let mut base = StoreBase { spans: Vec::new(), file_size: 0 };
    if file.len() == 0 {
        proof {
            lemma_header_roundtrip(current_version());
        }
        base.file_size = write_header(file);
        proof {
            assert(file@ =~= header_bytes(current_version()));
            assert(record_at(file@, HEADER_SIZE as int) is None);
        }
    } else {
        match read_newfile(&mut base, file.as_slice(), true) {
            Err(e) => {
                return Err(e);
            },
            Ok(()) => {},
        }
    }
    Ok(base)
}

/// Opens an existing syncless store for reading and writing.
///
/// On success, the returned [`Store`] represents a logically consistent
/// view reconstructed from the log in `file`.  An empty file becomes a new
/// store: it is given a header.
///
/// # Errors
///
/// `NotSyncless` where a file that is not empty does not begin with a
/// header, and `UnsupportedVersion` where the header's major or format
/// version is newer than ours.
pub fn open(file: &mut Vec<u8>) -> (r: Result<Store<Writable>, Error>)
    ensures
        match header_at(opened_file(old(file)@), 0) {
            None => {
                &&& r matches Err(e) && e == Error::NotSyncless
                &&& final(file)@ == old(file)@
            },
            Some(v) => if !write_compatible(v) {
                &&& r matches Err(e) && e == Error::UnsupportedVersion
                &&& final(file)@ == old(file)@
            } else {
                &&& r matches Ok(store)
                &&& final(file)@ == opened_file(old(file)@)
                &&& store.wf()
                &&& store@ == opened_state(final(file)@, true)
                &&& store@.file_size <= final(file).len()
                &&& all_validated(store@.spans)
            },
        },
{
    match open_writable_base(file) {
        Err(e) => Err(e),
        Ok(base) => Ok(Store { base: base, writable: true, _mode: PhantomData }),
    }
}

} // verus!
