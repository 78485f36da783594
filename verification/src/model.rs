//! The store as contracts see it: its state, and what validation, reads,
//! writes and opening make of a state and a file.
use crate::header::{
    current_version, header_bytes, read_compatible, write_compatible, HeaderVer, HEADER_SIZE,
};
use crate::log::{
    all_validated, lemma_add_in_file, lemma_replay, lemma_upto_bounds, lemma_upto_ends, log_end,
    log_records, replay, spans_in_file,
};
use crate::record::{
    framed_len, lemma_record_bytes, record_bytes, record_checks, written_at, MAX_RECORD_SIZE,
    RECORD_HDR_SIZE,
};
use crate::span::{
    covers, lemma_add, lemma_add_locate, lemma_locate, lemma_locate_hit, lemma_locate_miss,
    lemma_rank, lemma_rank_is, locate, logical_byte, logical_size, rank, span_end, spans_wf,
    validated_in, with_span, Span,
};
use vstd::prelude::*;

verus! {

/// A store as contracts see it.
pub struct StoreState {
    /// The span map, in key order.
    pub spans: Seq<(u64, Span)>,
    /// Where the valid log ends in the file, and the next record goes.
    pub file_size: u64,
    /// Whether the store was opened for writing.
    pub writable: bool,
}

/// The invariant of a store's state: the span map is well formed, and every
/// span is shorter than a record may be and points at a payload between
/// the file's header and the end of the valid log.
pub open spec fn state_wf(st: StoreState) -> bool {
    &&& HEADER_SIZE <= st.file_size
    &&& spans_wf(st.spans)
    &&& spans_in_file(st.spans, HEADER_SIZE as int, st.file_size as int)
}

/// The key of the last span before `x`, or 0 where there is none.
pub open spec fn prev_key(s: Seq<(u64, Span)>, x: int) -> int {
    let r = rank(s, x);
    if r > 0 {
        s[r - 1].0 as int
    } else {
        0
    }
}

/// The span `e` has a key in `start .. end` and was not validated yet.
pub open spec fn needs_check(e: (u64, Span), start: int, end: int) -> bool {
    start <= e.0 < end && !e.1.validated
}

/// Every span of `s` that `validate_range` has to look at holds a record
/// whose checksum is right in `file`.
pub open spec fn range_checks(s: Seq<(u64, Span)>, file: Seq<u8>, start: int, end: int) -> bool {
    forall|i: int|
        0 <= i < s.len() && needs_check(#[trigger] s[i], start, end) ==> record_checks(
            file,
            s[i].1.file_data_offset as int,
            s[i].1.len as int,
        )
}

/// The entry `e`, validated.
pub open spec fn validated_entry(e: (u64, Span)) -> (u64, Span) {
    (e.0, Span { len: e.1.len, file_data_offset: e.1.file_data_offset, validated: true })
}

/// The map `s` with every span whose key lies in `start .. end` validated.
pub open spec fn mark_validated(s: Seq<(u64, Span)>, start: int, end: int) -> Seq<(u64, Span)> {
    Seq::new(
        s.len(),
        |i: int|
            if start <= s[i].0 < end {
                validated_entry(s[i])
            } else {
                s[i]
            },
    )
}

/// What `validate_range` makes of a store: in a writable store whose
/// records in the range all check, the spans of the range are validated.
/// Anything else is left as it was.
pub open spec fn validated_state(
    st: StoreState,
    file: Seq<u8>,
    start: int,
    end: int,
) -> StoreState {
    if st.writable && range_checks(st.spans, file, start, end) {
        StoreState {
            spans: mark_validated(st.spans, start, end),
            file_size: st.file_size,
            writable: st.writable,
        }
    } else {
        st
    }
}

/// Whether `validate_range` succeeds: always in a read-only store, and in a
/// writable one where the records in the range all check.
pub open spec fn validation_passes(st: StoreState, file: Seq<u8>, start: int, end: int) -> bool {
    !st.writable || range_checks(st.spans, file, start, end)
}

/// Validating spans changes their tags and nothing else: the map stays well
/// formed and in the file, and every rank, location and the logical size
/// stay what they were.
pub proof fn lemma_mark_validated(s: Seq<(u64, Span)>, start: int, end: int, base: int, limit: int)
    requires
        spans_wf(s),
    ensures
        spans_wf(mark_validated(s, start, end)),
        spans_in_file(s, base, limit) ==> spans_in_file(mark_validated(s, start, end), base, limit),
        forall|x: int| rank(#[trigger] mark_validated(s, start, end), x) == rank(s, x),
        forall|o: int| locate(#[trigger] mark_validated(s, start, end), o) == locate(s, o),
        logical_size(mark_validated(s, start, end)) == logical_size(s),
{
    let m = mark_validated(s, start, end);
    assert forall|x: int| rank(m, x) == rank(s, x) by {
        lemma_rank(s, x);
        lemma_rank_is(m, x, rank(s, x));
    }
    assert forall|o: int| locate(m, o) == locate(s, o) by {
        lemma_rank(s, o + 1);
        assert(rank(m, o + 1) == rank(s, o + 1));
    }
}

/// A range that ends beyond the 64-bit offsets holds the same spans as one
/// that ends at the last of them: no span begins there.
pub proof fn lemma_clamped_range(s: Seq<(u64, Span)>, file: Seq<u8>, start: int, end: int)
    requires
        spans_wf(s),
        end >= u64::MAX,
    ensures
        range_checks(s, file, start, end) == range_checks(s, file, start, u64::MAX as int),
        mark_validated(s, start, end) == mark_validated(s, start, u64::MAX as int),
{
    assert forall|i: int| 0 <= i < s.len() implies (#[trigger] s[i]).0 < u64::MAX by {}
    assert(mark_validated(s, start, end) =~= mark_validated(s, start, u64::MAX as int));
    assert forall|i: int| 0 <= i < s.len() implies needs_check(#[trigger] s[i], start, end)
        == needs_check(s[i], start, u64::MAX as int) by {}
}

/// Once the spans between the last one before `off` and `end` are
/// validated, every span that overlaps `off .. end` is.
pub proof fn lemma_marked_validated_in(s: Seq<(u64, Span)>, off: int, end: int)
    requires
        spans_wf(s),
    ensures
        validated_in(mark_validated(s, prev_key(s, off), end), off, end),
{
    let m = mark_validated(s, prev_key(s, off), end);
    lemma_rank(s, off);
    let r = rank(s, off);
    assert forall|i: int|
        0 <= i < m.len() && (#[trigger] m[i]).0 < end && span_end(m[i]) > off
            implies m[i].1.validated by {
        if s[i].0 < prev_key(s, off) {
            assert(span_end(s[i]) <= s[r - 1].0);
        }
    }
}

/// The `n` logical bytes from `offset` on, over the file `file`.
pub open spec fn logical_view(s: Seq<(u64, Span)>, file: Seq<u8>, offset: int, n: nat) -> Seq<u8> {
    Seq::new(n, |j: int| logical_byte(s, file, offset + j))
}

/// The `n` logical bytes from `offset` on, with those from `bound` on still
/// zero: what a read holds once it has copied every span that begins
/// before `bound`.
pub open spec fn read_upto(
    s: Seq<(u64, Span)>,
    file: Seq<u8>,
    offset: int,
    n: nat,
    bound: int,
) -> Seq<u8> {
    Seq::new(
        n,
        |j: int|
            if offset + j < bound {
                logical_byte(s, file, offset + j)
            } else {
                0u8
            },
    )
}

/// The key of the span `idx`, and a bound beyond every offset where `idx`
/// is the length of the map.
pub open spec fn frontier(s: Seq<(u64, Span)>, idx: int) -> int {
    if 0 <= idx < s.len() {
        s[idx].0 as int
    } else {
        u64::MAX + 1
    }
}

/// The index of the first span that can hold a byte at or behind `offset`:
/// the span across `offset`, or else the first one that begins behind it.
pub open spec fn first_index(s: Seq<(u64, Span)>, offset: int) -> int {
    let k = rank(s, offset);
    if k > 0 && span_end(s[k - 1]) > offset {
        k - 1
    } else {
        k
    }
}

/// `buf` with the bytes of the span `e` laid over it: the buffer stands for
/// the logical bytes from `offset` on.
pub open spec fn overlaid(buf: Seq<u8>, file: Seq<u8>, offset: int, e: (u64, Span)) -> Seq<u8> {
    Seq::new(
        buf.len(),
        |j: int|
            if covers(e, offset + j) {
                file[e.1.file_data_offset + (offset + j - e.0)]
            } else {
                buf[j]
            },
    )
}

/// Before the first span that can matter, a zeroed buffer is right as far
/// as that span's key: the bytes before it are holes.
pub proof fn lemma_read_start(s: Seq<(u64, Span)>, file: Seq<u8>, offset: int, n: nat)
    requires
        spans_wf(s),
        0 <= offset,
    ensures
        0 <= first_index(s, offset) <= s.len(),
        read_upto(s, file, offset, n, frontier(s, first_index(s, offset))) == Seq::new(
            n,
            |j: int| 0u8,
        ),
{
    lemma_rank(s, offset);
    let k = rank(s, offset);
    let idx = first_index(s, offset);
    let bound = frontier(s, idx);
    assert forall|o: int| offset <= o < bound implies #[trigger] logical_byte(s, file, o) == 0 by {
        assert(idx == k);
        assert forall|i: int| 0 <= i < s.len() implies !covers(#[trigger] s[i], o) by {
            if i < k {
                if i < k - 1 {
                    assert(span_end(s[i]) <= s[k - 1].0);
                }
            } else if i > k {
                assert(span_end(s[k]) <= s[i].0);
            }
        }
        lemma_locate_miss(s, o);
    }
    assert(read_upto(s, file, offset, n, bound) =~= Seq::new(n, |j: int| 0u8));
}

/// Laying the span `idx` over a buffer that is right up to that span's key
/// makes it right up to the next span's key.
pub proof fn lemma_read_step(
    s: Seq<(u64, Span)>,
    file: Seq<u8>,
    offset: int,
    n: nat,
    idx: int,
)
    requires
        spans_wf(s),
        0 <= offset,
        first_index(s, offset) <= idx < s.len(),
        forall|i: int|
            0 <= i < s.len() ==> (#[trigger] s[i]).1.file_data_offset + s[i].1.len <= file.len(),
    ensures
        overlaid(read_upto(s, file, offset, n, frontier(s, idx)), file, offset, s[idx])
            == read_upto(s, file, offset, n, frontier(s, idx + 1)),
{
    let e = s[idx];
    let before = read_upto(s, file, offset, n, frontier(s, idx));
    let after = overlaid(before, file, offset, e);
    let goal = read_upto(s, file, offset, n, frontier(s, idx + 1));
    lemma_rank(s, offset);
    assert forall|j: int| 0 <= j < n implies after[j] == goal[j] by {
        let o = offset + j;
        if idx + 1 < s.len() {
            assert(span_end(e) <= s[idx + 1].0);
        }
        if covers(e, o) {
            lemma_locate_hit(s, o, idx);
        } else if o >= span_end(e) && o < frontier(s, idx + 1) {
            assert forall|i: int| 0 <= i < s.len() implies !covers(#[trigger] s[i], o) by {
                if i < idx {
                    assert(span_end(s[i]) <= s[idx].0);
                } else if i > idx + 1 {
                    assert(span_end(s[idx + 1]) <= s[i].0);
                }
            }
            lemma_locate_miss(s, o);
        }
    }
    assert(after =~= goal);
}

/// The longest payload that `write` gives one record.
pub const MAX_CHUNK: usize = 0xFF_FFFF;

/// The store after a record for `chunk` at the logical offset `off` was
/// appended to its log: the record stands at the old end of the log, and
/// the span map sends the chunk's range to its payload, not yet validated.
#[verifier::opaque]
pub open spec fn appended_state(st: StoreState, off: u64, chunk: Seq<u8>) -> StoreState {
    StoreState {
        spans: with_span(
            st.spans,
            off,
            chunk.len() as u64,
            (st.file_size + RECORD_HDR_SIZE) as u64,
            false,
        ),
        file_size: (st.file_size + framed_len(chunk.len() as int)) as u64,
        writable: st.writable,
    }
}

/// The file after that record was written at the end of the log.
#[verifier::opaque]
pub open spec fn appended_file(file: Seq<u8>, st: StoreState, off: u64, chunk: Seq<u8>) -> Seq<u8> {
    written_at(file, st.file_size as int, record_bytes(off, chunk))
}

/// How much of `n` bytes still to write goes into the next record.
pub open spec fn chunk_len(n: int) -> int {
    if n < MAX_CHUNK {
        n
    } else {
        MAX_CHUNK as int
    }
}

/// The store after `data` was written at `off`, one record for each chunk
/// of at most `MAX_CHUNK` bytes.
pub open spec fn written_state(st: StoreState, off: int, data: Seq<u8>) -> StoreState
    decreases data.len(),
{
    if data.len() == 0 {
        st
    } else {
        let c = chunk_len(data.len() as int);
        written_state(appended_state(st, off as u64, data.take(c)), off + c, data.skip(c))
    }
}

/// The file after `data` was written at `off`.
pub open spec fn written_file(file: Seq<u8>, st: StoreState, off: int, data: Seq<u8>) -> Seq<u8>
    decreases data.len(),
{
    if data.len() == 0 {
        file
    } else {
        let c = chunk_len(data.len() as int);
        written_file(
            appended_file(file, st, off as u64, data.take(c)),
            appended_state(st, off as u64, data.take(c)),
            off + c,
            data.skip(c),
        )
    }
}

/// A store together with the file that it was handed.
pub struct Log {
    pub file: Seq<u8>,
    pub state: StoreState,
}

/// The store `state` over the file `file`.
pub open spec fn log_of(file: Seq<u8>, state: StoreState) -> Log {
    Log { file: file, state: state }
}

/// The logical byte at `o` in `log`.
pub open spec fn log_byte(log: Log, o: int) -> u8 {
    logical_byte(log.state.spans, log.file, o)
}

/// Whether a read or a write of `n` bytes at `off` goes through: the spans
/// between the last one before `off` and the end of the range validate.
pub open spec fn access_passes(log: Log, off: u64, n: int) -> bool {
    validation_passes(log.state, log.file, prev_key(log.state.spans, off as int), off + n)
}

/// The store after the validation that goes before a read or a write of
/// `n` bytes at `off`.
pub open spec fn accessed_state(log: Log, off: u64, n: int) -> StoreState {
    validated_state(log.state, log.file, prev_key(log.state.spans, off as int), off + n)
}

/// What `write` makes of a store and its file.  Where the validation goes
/// through, the spans it looked at are validated and `data` is appended,
/// record by record; where not, nothing changes.
pub open spec fn log_write(log: Log, off: u64, data: Seq<u8>) -> Log {
    if access_passes(log, off, data.len() as int) {
        Log {
            file: written_file(
                log.file,
                accessed_state(log, off, data.len() as int),
                off as int,
                data,
            ),
            state: written_state(accessed_state(log, off, data.len() as int), off as int, data),
        }
    } else {
        log
    }
}

/// The logical byte at `o` once `data` was laid over the logical space from
/// `off` on: a byte of `data` inside its range, and `view`, the byte that
/// was there, outside.
pub open spec fn overwritten(view: u8, off: int, data: Seq<u8>, o: int) -> u8 {
    if off <= o < off + data.len() {
        data[o - off]
    } else {
        view
    }
}

/// Appending one record keeps the store well formed and inside the file,
/// and the logical size becomes the larger of the old size and the end of
/// the chunk.
pub proof fn lemma_appended_state(file: Seq<u8>, st: StoreState, off: u64, chunk: Seq<u8>)
    requires
        state_wf(st),
        st.file_size <= file.len(),
        0 < chunk.len() < MAX_RECORD_SIZE,
        off + chunk.len() <= u64::MAX,
        st.file_size + framed_len(chunk.len() as int) <= u64::MAX,
    ensures
        state_wf(appended_state(st, off, chunk)),
        appended_state(st, off, chunk).file_size == st.file_size + framed_len(chunk.len() as int),
        appended_state(st, off, chunk).file_size <= appended_file(file, st, off, chunk).len(),
        appended_state(st, off, chunk).writable == st.writable,
        file.len() <= appended_file(file, st, off, chunk).len(),
        logical_size(appended_state(st, off, chunk).spans) == if logical_size(st.spans) >= off
            + chunk.len() {
            logical_size(st.spans)
        } else {
            off + chunk.len()
        },
{
    lemma_append_fits(file, st, off, chunk);
    reveal(appended_state);
    let len = chunk.len() as u64;
    let fdo = (st.file_size + RECORD_HDR_SIZE) as u64;
    let end = st.file_size + framed_len(chunk.len() as int);
    lemma_add(st.spans, off, len, fdo, false);
    assert(spans_in_file(st.spans, HEADER_SIZE as int, end));
    lemma_add_in_file(st.spans, off, len, fdo, false, HEADER_SIZE as int, end);
}

/// Appending one record shows the chunk at its logical range, and leaves
/// every other logical byte as it was.
pub proof fn lemma_appended(file: Seq<u8>, st: StoreState, off: u64, chunk: Seq<u8>, o: int)
    requires
        state_wf(st),
        st.file_size <= file.len(),
        0 < chunk.len() < MAX_RECORD_SIZE,
        off + chunk.len() <= u64::MAX,
        st.file_size + framed_len(chunk.len() as int) <= u64::MAX,
    ensures
        logical_byte(
            appended_state(st, off, chunk).spans,
            appended_file(file, st, off, chunk),
            o,
        ) == overwritten(logical_byte(st.spans, file, o), off as int, chunk, o),
{
    reveal(appended_state);
    reveal(appended_file);
    let fs = st.file_size as int;
    let len = chunk.len() as u64;
    let fdo = (fs + RECORD_HDR_SIZE) as u64;
    let rec = record_bytes(off, chunk);
    let spans2 = with_span(st.spans, off, len, fdo, false);
    let f2 = written_at(file, fs, rec);
    lemma_add_locate(st.spans, off, len, fdo, false, o);
    lemma_record_bytes(off, chunk);
    if off <= o < off + chunk.len() {
        let p = fdo + (o - off);
        assert(locate(spans2, o) == Some(p));
        assert(f2[p] == rec[RECORD_HDR_SIZE + (o - off)]);
    } else {
        lemma_locate(st.spans, o);
        match locate(st.spans, o) {
            Some(p) => {
                assert(0 <= p < fs);
                assert(f2[p] == file[p]);
            },
            None => {},
        }
    }
}

/// Writing `data` at `off` keeps the store well formed and inside the file,
/// shows `data` at its logical range, leaves every other logical byte as
/// it was, and does not shrink the logical size.
pub proof fn lemma_written(file: Seq<u8>, st: StoreState, off: int, data: Seq<u8>, o: int)
    requires
        state_wf(st),
        st.file_size <= file.len(),
        0 <= off,
        off + data.len() <= u64::MAX,
        written_file(file, st, off, data).len() <= u64::MAX,
    ensures
        state_wf(written_state(st, off, data)),
        written_state(st, off, data).file_size <= written_file(file, st, off, data).len(),
        written_state(st, off, data).writable == st.writable,
        logical_byte(written_state(st, off, data).spans, written_file(file, st, off, data), o)
            == overwritten(logical_byte(st.spans, file, o), off, data, o),
        logical_size(written_state(st, off, data).spans) == if data.len() == 0 || logical_size(
            st.spans,
        ) >= off + data.len() {
            logical_size(st.spans)
        } else {
            off + data.len()
        },
    decreases data.len(),
{
    if data.len() > 0 {
        let c = chunk_len(data.len() as int);
        let chunk = data.take(c);
        let rest = data.skip(c);
        let st1 = appended_state(st, off as u64, chunk);
        let f1 = appended_file(file, st, off as u64, chunk);
        lemma_append_fits(file, st, off as u64, chunk);
        lemma_written_file_grows(f1, st1, off + c, rest);
        lemma_appended_state(file, st, off as u64, chunk);
        lemma_appended(file, st, off as u64, chunk, o);
        lemma_written(f1, st1, off + c, rest, o);
        lemma_overwritten_twice(logical_byte(st.spans, file, o), off, data, c, o);
    }
}

/// Laying the first `c` bytes of `data` and then the rest is laying `data`.
pub proof fn lemma_overwritten_twice(view: u8, off: int, data: Seq<u8>, c: int, o: int)
    requires
        0 <= c <= data.len(),
    ensures
        overwritten(overwritten(view, off, data.take(c), o), off + c, data.skip(c), o)
            == overwritten(view, off, data, o),
{
}

/// The file holds the whole record once it was appended.
pub proof fn lemma_append_fits(file: Seq<u8>, st: StoreState, off: u64, chunk: Seq<u8>)
    ensures
        st.file_size + framed_len(chunk.len() as int) <= appended_file(file, st, off, chunk).len(),
        file.len() <= appended_file(file, st, off, chunk).len(),
{
    reveal(appended_file);
    lemma_record_bytes(off, chunk);
}

/// Writing never shortens the file.
pub proof fn lemma_written_file_grows(file: Seq<u8>, st: StoreState, off: int, data: Seq<u8>)
    ensures
        file.len() <= written_file(file, st, off, data).len(),
    decreases data.len(),
{
    if data.len() > 0 {
        let c = chunk_len(data.len() as int);
        let f1 = appended_file(file, st, off as u64, data.take(c));
        lemma_append_fits(file, st, off as u64, data.take(c));
        lemma_written_file_grows(
            f1,
            appended_state(st, off as u64, data.take(c)),
            off + c,
            data.skip(c),
        );
    }
}

/// Whether a store of version `v` may be opened, for writing or only for
/// reading.
pub open spec fn compatible(v: HeaderVer, writable: bool) -> bool {
    if writable {
        write_compatible(v)
    } else {
        read_compatible(v)
    }
}

/// The state of a store that was opened on `file`: the span map that the
/// records behind the header build, and the end of the last of them.
pub open spec fn opened_state(file: Seq<u8>, writable: bool) -> StoreState {
    StoreState {
        spans: replay(Seq::empty(), log_records(file, HEADER_SIZE as int)),
        file_size: log_end(file, HEADER_SIZE as int) as u64,
        writable: writable,
    }
}

/// What `open` makes of a file: an empty one gets a header of the current
/// version, any other is left as it is.
pub open spec fn opened_file(file: Seq<u8>) -> Seq<u8> {
    if file.len() == 0 {
        header_bytes(current_version())
    } else {
        file
    }
}

/// The spans that replaying `file` builds are well formed, validated, and
/// lie in the file before the end of its log.
pub proof fn lemma_opened_state(file: Seq<u8>, writable: bool)
    requires
        HEADER_SIZE <= file.len() <= u64::MAX,
    ensures
        state_wf(opened_state(file, writable)),
        all_validated(opened_state(file, writable).spans),
        opened_state(file, writable).file_size == log_end(file, HEADER_SIZE as int),
        HEADER_SIZE <= opened_state(file, writable).file_size <= file.len(),
{
    lemma_upto_bounds(file, HEADER_SIZE as int, file.len() as int);
    let records = log_records(file, HEADER_SIZE as int);
    let end = log_end(file, HEADER_SIZE as int);
    lemma_upto_ends(file, HEADER_SIZE as int, file.len() as int);
    lemma_replay(Seq::empty(), records, HEADER_SIZE as int, end);
}

} // verus!
