//! What holds of a store over any run of writes, and of any file that is
//! opened again: the logical view after writes, after a reopen, after a
//! truncation and after damage.
use crate::bytes::{lemma_le_value_bound, lemma_radix_values};
use crate::header::{current_version, header_at, header_bytes, lemma_header_roundtrip, HEADER_SIZE};
use crate::log::{
    all_validated, end_upto, insertable, lemma_log_append, lemma_log_cut, lemma_records_stand,
    lemma_replayed_place, lemma_upto_agree, lemma_upto_bounds, lemma_upto_in_two,
    lemma_upto_is_longest, lemma_upto_is_prefix, lemma_upto_own_end, lemma_upto_then_rest, log_end,
    log_records, record_holds, records_upto, replay,
};
use crate::model::{
    access_passes, appended_file, appended_state, chunk_len, lemma_append_fits,
    lemma_appended_state, lemma_mark_validated, lemma_marked_validated_in, lemma_opened_state,
    lemma_written, lemma_written_file_grows, log_byte, log_of, log_write, opened_file,
    opened_state, overwritten, prev_key, range_checks, state_wf, validated_state,
    validation_passes, written_file, written_state, Log, StoreState, MAX_CHUNK,
};
use crate::record::{
    framed_len, lemma_record_at_local, lemma_record_bytes, lemma_record_written, record_at,
    record_checks, record_of, Record, MAX_RECORD_SIZE, RECORD_HDR_SIZE,
};
use crate::span::{
    lemma_add_locate, lemma_add_member_whole, lemma_add_validated_in, lemma_locate,
    lemma_same_places_same_size, locate, logical_byte, logical_size, new_entry, validated_in,
    with_span,
};
use vstd::prelude::*;

verus! {

/// One write: where it goes and what it holds.
pub struct WriteOp {
    pub offset: u64,
    pub data: Seq<u8>,
}

/// A store and a file that it can be used with: the store's state is well
/// formed, and the file holds at least the log that the store knows.
pub open spec fn log_wf(log: Log) -> bool {
    &&& state_wf(log.state)
    &&& log.state.file_size <= log.file.len()
}

/// Every write of `ws` stays below the end of the 64-bit offsets.
pub open spec fn writes_fit(ws: Seq<WriteOp>) -> bool {
    forall|i: int| 0 <= i < ws.len() ==> (#[trigger] ws[i]).offset + ws[i].data.len() <= u64::MAX
}

/// Every write of `ws` fits into one record.
pub open spec fn single_records(ws: Seq<WriteOp>) -> bool {
    forall|i: int| 0 <= i < ws.len() ==> (#[trigger] ws[i]).data.len() <= MAX_CHUNK
}

/// The store and its file after the writes `ws`, in order.
pub open spec fn log_writes(log: Log, ws: Seq<WriteOp>) -> Log
    decreases ws.len(),
{
    if ws.len() == 0 {
        log
    } else {
        log_write(log_writes(log, ws.drop_last()), ws.last().offset, ws.last().data)
    }
}

/// Every write of `ws` goes through.
pub open spec fn writes_pass(log: Log, ws: Seq<WriteOp>) -> bool
    decreases ws.len(),
{
    ws.len() == 0 || {
        &&& writes_pass(log, ws.drop_last())
        &&& access_passes(
            log_writes(log, ws.drop_last()),
            ws.last().offset,
            ws.last().data.len() as int,
        )
    }
}

/// The byte that the latest write of `ws` over the offset `o` put there,
/// and `base` where none of them reaches `o`.
pub open spec fn last_writer(base: u8, ws: Seq<WriteOp>, o: int) -> u8
    decreases ws.len(),
{
    if ws.len() == 0 {
        base
    } else {
        overwritten(
            last_writer(base, ws.drop_last(), o),
            ws.last().offset as int,
            ws.last().data,
            o,
        )
    }
}

/// The store that `open` makes of an empty file, and that file with its
/// new header.
pub open spec fn fresh_log() -> Log {
    log_of(opened_file(Seq::empty()), opened_state(opened_file(Seq::empty()), true))
}

/// A new store is empty: it holds no span, its log ends behind the header,
/// and every logical byte is zero.
pub proof fn lemma_fresh_log(o: int)
    ensures
        log_wf(fresh_log()),
        fresh_log().file == header_bytes(current_version()),
        fresh_log().state.spans.len() == 0,
        fresh_log().state.file_size == HEADER_SIZE,
        log_byte(fresh_log(), o) == 0,
{
    lemma_header_roundtrip(current_version());
    let file = header_bytes(current_version());
    assert(record_at(file, HEADER_SIZE as int) is None);
    assert(log_records(file, HEADER_SIZE as int) =~= Seq::<Record>::empty());
}

/// A write never shortens the file.
proof fn lemma_log_write_grows(log: Log, off: u64, data: Seq<u8>)
    ensures
        log.file.len() <= log_write(log, off, data).file.len(),
{
    if access_passes(log, off, data.len() as int) {
        let start = prev_key(log.state.spans, off as int);
        let checked = validated_state(log.state, log.file, start, off + data.len());
        lemma_written_file_grows(log.file, checked, off as int, data);
    }
}

/// Writes never shorten the file.
proof fn lemma_writes_grow(log: Log, ws: Seq<WriteOp>)
    ensures
        log.file.len() <= log_writes(log, ws).file.len(),
    decreases ws.len(),
{
    if ws.len() > 0 {
        lemma_writes_grow(log, ws.drop_last());
        lemma_log_write_grows(log_writes(log, ws.drop_last()), ws.last().offset, ws.last().data);
    }
}

/// The first `k` writes of `ws` fit where all of `ws` do, and each into
/// one record where each of `ws` does.
proof fn lemma_writes_fit_take(ws: Seq<WriteOp>, k: int)
    requires
        0 <= k <= ws.len(),
        writes_fit(ws),
    ensures
        writes_fit(ws.take(k)),
        single_records(ws) ==> single_records(ws.take(k)),
{
    let head = ws.take(k);
    assert forall|i: int| 0 <= i < head.len() implies (#[trigger] head[i]).offset
        + head[i].data.len() <= u64::MAX by {
        assert(head[i] == ws[i]);
    }
    if single_records(ws) {
        assert forall|i: int| 0 <= i < head.len() implies (#[trigger] head[i]).data.len()
            <= MAX_CHUNK by {
            assert(head[i] == ws[i]);
        }
    }
}

/// One write, as `Store::write` does it.  A write that goes through shows
/// its bytes at their logical range and leaves every other logical byte as
/// it was; one that does not changes nothing.  Either way the store stays
/// well formed, the file does not shrink, and the logical size does not
/// fall.
pub proof fn lemma_log_write(log: Log, off: u64, data: Seq<u8>, o: int)
    requires
        log_wf(log),
        off + data.len() <= u64::MAX,
        log_write(log, off, data).file.len() <= u64::MAX,
    ensures
        log_wf(log_write(log, off, data)),
        log_write(log, off, data).state.writable == log.state.writable,
        log.file.len() <= log_write(log, off, data).file.len(),
        log_byte(log_write(log, off, data), o) == if access_passes(log, off, data.len() as int) {
            overwritten(log_byte(log, o), off as int, data, o)
        } else {
            log_byte(log, o)
        },
        logical_size(log_write(log, off, data).state.spans) >= logical_size(log.state.spans),
{
    if access_passes(log, off, data.len() as int) {
        let start = prev_key(log.state.spans, off as int);
        let checked = validated_state(log.state, log.file, start, off + data.len());
        lemma_mark_validated(
            log.state.spans,
            start,
            off + data.len(),
            HEADER_SIZE as int,
            log.state.file_size as int,
        );
        lemma_written_file_grows(log.file, checked, off as int, data);
        lemma_written(log.file, checked, off as int, data, o);
    }
}

/// Last writer wins, byte by byte: after the writes `ws` have gone through,
/// the logical byte at `o` is the payload byte of the latest write whose
/// range holds `o`, and what it was before where none does (zero in a new
/// store).
pub proof fn lemma_last_writer_wins(log: Log, ws: Seq<WriteOp>, o: int)
    requires
        log_wf(log),
        writes_fit(ws),
        writes_pass(log, ws),
        log_writes(log, ws).file.len() <= u64::MAX,
    ensures
        log_wf(log_writes(log, ws)),
        log.file.len() <= log_writes(log, ws).file.len(),
        log_byte(log_writes(log, ws), o) == last_writer(log_byte(log, o), ws, o),
        logical_size(log_writes(log, ws).state.spans) >= logical_size(log.state.spans),
    decreases ws.len(),
{
    if ws.len() > 0 {
        let front = ws.drop_last();
        let w = ws.last();
        let mid = log_writes(log, front);
        assert(w == ws[ws.len() - 1]);
        assert(writes_fit(front)) by {
            assert forall|i: int| 0 <= i < front.len() implies (#[trigger] front[i]).offset
                + front[i].data.len() <= u64::MAX by {
                assert(front[i] == ws[i]);
            }
        }
        lemma_writes_grow(log, front);
        lemma_log_write_grows(mid, w.offset, w.data);
        lemma_last_writer_wins(log, front, o);
        lemma_log_write(mid, w.offset, w.data, o);
    }
}

/// What the store has not validated yet reads back as it was written:
/// every span that is not validated has the checksum of its record behind
/// its payload in the file.
pub open spec fn reads_back(log: Log) -> bool {
    forall|i: int|
        0 <= i < log.state.spans.len() && !(#[trigger] log.state.spans[i]).1.validated
            ==> record_checks(
            log.file,
            log.state.spans[i].1.file_data_offset as int,
            log.state.spans[i].1.len as int,
        )
}

/// Where the file reads back what was written, every validation goes
/// through.
pub proof fn lemma_reads_back_passes(log: Log, start: int, end: int)
    requires
        reads_back(log),
    ensures
        range_checks(log.state.spans, log.file, start, end),
        validation_passes(log.state, log.file, start, end),
{
}

/// A store whose spans are all validated has nothing left to read back.
pub proof fn lemma_validated_reads_back(log: Log)
    requires
        all_validated(log.state.spans),
    ensures
        reads_back(log),
{
}

/// A record that was appended reads back, and so does whatever read back
/// before: its bytes were not touched.
proof fn lemma_reads_back_appended(
    file: Seq<u8>,
    st: StoreState,
    off: u64,
    chunk: Seq<u8>,
    hi: int,
)
    requires
        log_wf(log_of(file, st)),
        reads_back(log_of(file, st)),
        validated_in(st.spans, off as int, hi),
        0 < chunk.len() < MAX_RECORD_SIZE,
        off + chunk.len() <= hi,
        st.file_size + framed_len(chunk.len() as int) <= u64::MAX,
    ensures
        reads_back(log_of(appended_file(file, st, off, chunk), appended_state(st, off, chunk))),
        validated_in(appended_state(st, off, chunk).spans, off + chunk.len(), hi),
{
    reveal(appended_file);
    reveal(appended_state);
    let fs = st.file_size as int;
    let len = chunk.len() as u64;
    let fdo = (fs + RECORD_HDR_SIZE) as u64;
    let f2 = appended_file(file, st, off, chunk);
    let st2 = appended_state(st, off, chunk);
    lemma_record_written(file, fs, off, chunk);
    lemma_add_validated_in(st.spans, off, len, fdo, false, hi);
    lemma_le_value_bound(f2.subrange(fs + 8, fs + 11));
    lemma_radix_values();
    assert(record_checks(f2, fdo as int, len as int));
    assert forall|i: int|
        0 <= i < st2.spans.len() && !(#[trigger] st2.spans[i]).1.validated implies record_checks(
        f2,
        st2.spans[i].1.file_data_offset as int,
        st2.spans[i].1.len as int,
    ) by {
        let e = st2.spans[i];
        lemma_add_member_whole(st.spans, off, len, fdo, false, i);
        if e != new_entry(off, len, fdo, false) {
            let j = choose|j: int| 0 <= j < st.spans.len() && e == #[trigger] st.spans[j];
            let a = e.1.file_data_offset as int;
            let n = e.1.len as int;
            assert(record_checks(file, a, n));
            assert(f2.subrange(a - RECORD_HDR_SIZE, a + n) =~= f2.take(fs).subrange(
                a - RECORD_HDR_SIZE,
                a + n,
            ));
            assert(file.subrange(a - RECORD_HDR_SIZE, a + n) =~= file.take(fs).subrange(
                a - RECORD_HDR_SIZE,
                a + n,
            ));
            assert(f2.subrange(a + n, a + n + 8) =~= f2.take(fs).subrange(a + n, a + n + 8));
            assert(file.subrange(a + n, a + n + 8) =~= file.take(fs).subrange(a + n, a + n + 8));
        }
    }
}

/// Data that was written reads back, and so does whatever read back
/// before.
proof fn lemma_reads_back_written(file: Seq<u8>, st: StoreState, off: int, data: Seq<u8>)
    requires
        log_wf(log_of(file, st)),
        reads_back(log_of(file, st)),
        validated_in(st.spans, off, off + data.len()),
        0 <= off,
        off + data.len() <= u64::MAX,
        written_file(file, st, off, data).len() <= u64::MAX,
    ensures
        reads_back(log_of(written_file(file, st, off, data), written_state(st, off, data))),
    decreases data.len(),
{
    if data.len() > 0 {
        let c = chunk_len(data.len() as int);
        let chunk = data.take(c);
        let f1 = appended_file(file, st, off as u64, chunk);
        let st1 = appended_state(st, off as u64, chunk);
        lemma_append_fits(file, st, off as u64, chunk);
        lemma_written_file_grows(f1, st1, off + c, data.skip(c));
        lemma_appended_state(file, st, off as u64, chunk);
        lemma_reads_back_appended(file, st, off as u64, chunk, off + data.len());
        lemma_reads_back_written(f1, st1, off + c, data.skip(c));
    }
}

/// Where the file reads back what was written, a write goes through, and
/// the file it leaves reads back what was written.
pub proof fn lemma_reads_back_write(log: Log, off: u64, data: Seq<u8>)
    requires
        log_wf(log),
        log.state.writable,
        reads_back(log),
        off + data.len() <= u64::MAX,
        log_write(log, off, data).file.len() <= u64::MAX,
    ensures
        access_passes(log, off, data.len() as int),
        reads_back(log_write(log, off, data)),
{
    let start = prev_key(log.state.spans, off as int);
    let end = off + data.len();
    lemma_reads_back_passes(log, start, end);
    let checked = validated_state(log.state, log.file, start, end);
    lemma_mark_validated(
        log.state.spans,
        start,
        end,
        HEADER_SIZE as int,
        log.state.file_size as int,
    );
    lemma_marked_validated_in(log.state.spans, off as int, end);
    assert(reads_back(log_of(log.file, checked))) by {
        assert forall|i: int|
            0 <= i < checked.spans.len() && !(#[trigger] checked.spans[i]).1.validated
                implies record_checks(
            log.file,
            checked.spans[i].1.file_data_offset as int,
            checked.spans[i].1.len as int,
        ) by {
            assert(!log.state.spans[i].1.validated);
        }
    }
    lemma_reads_back_written(log.file, checked, off as int, data);
}

/// Success is owed where the file is what the store made of it: from a
/// store whose file reads back what was written, every write goes through,
/// and after all of them the file still reads back what was written, so
/// that every read and a downgrade go through too.
pub proof fn lemma_writes_pass(log: Log, ws: Seq<WriteOp>)
    requires
        log_wf(log),
        log.state.writable,
        reads_back(log),
        writes_fit(ws),
        log_writes(log, ws).file.len() <= u64::MAX,
    ensures
        writes_pass(log, ws),
        log_wf(log_writes(log, ws)),
        log_writes(log, ws).state.writable,
        reads_back(log_writes(log, ws)),
    decreases ws.len(),
{
    if ws.len() > 0 {
        let front = ws.drop_last();
        let w = ws.last();
        let mid = log_writes(log, front);
        assert(w == ws[ws.len() - 1]);
        assert(writes_fit(front)) by {
            assert forall|i: int| 0 <= i < front.len() implies (#[trigger] front[i]).offset
                + front[i].data.len() <= u64::MAX by {
                assert(front[i] == ws[i]);
            }
        }
        lemma_log_write_grows(mid, w.offset, w.data);
        lemma_writes_pass(log, front);
        lemma_reads_back_write(mid, w.offset, w.data);
        lemma_log_write(mid, w.offset, w.data, 0);
    }
}

/// Last writer wins in a new store: after writes to a store that was made
/// of an empty file, the logical byte at `o` is the payload byte of the
/// latest write whose range holds `o`, and zero where none does.  All the
/// writes go through, and the logical size never falls on the way.
pub proof fn lemma_new_store_last_writer_wins(ws: Seq<WriteOp>, o: int)
    requires
        writes_fit(ws),
        log_writes(fresh_log(), ws).file.len() <= u64::MAX,
    ensures
        writes_pass(fresh_log(), ws),
        log_byte(log_writes(fresh_log(), ws), o) == last_writer(0, ws, o),
        logical_size(log_writes(fresh_log(), ws).state.spans) >= 0,
{
    lemma_fresh_log(o);
    lemma_validated_reads_back(fresh_log());
    lemma_writes_pass(fresh_log(), ws);
    lemma_last_writer_wins(fresh_log(), ws, o);
}

/// The store shows what its file would show if it were opened now: the
/// file holds a header, records from there to its end and nothing else,
/// the store's log ends where the file ends, and every logical offset lies
/// where replaying the file puts it.
pub open spec fn clean(log: Log) -> bool {
    &&& log_wf(log)
    &&& header_at(log.file, 0) is Some
    &&& log.file.len() == log.state.file_size
    &&& log_end(log.file, HEADER_SIZE as int) == log.file.len()
    &&& forall|o: int| #[trigger]
        locate(log.state.spans, o) == locate(opened_state(log.file, true).spans, o)
}

/// A new store is clean.
pub proof fn lemma_fresh_log_clean()
    ensures
        clean(fresh_log()),
{
    lemma_fresh_log(0);
    lemma_header_roundtrip(current_version());
    let file = header_bytes(current_version());
    assert(record_at(file, HEADER_SIZE as int) is None);
}

/// A store that was opened on a file without a torn tail is clean.
pub proof fn lemma_opened_log_clean(file: Seq<u8>, writable: bool)
    requires
        header_at(file, 0) is Some,
        file.len() <= u64::MAX,
        log_end(file, HEADER_SIZE as int) == file.len(),
    ensures
        clean(log_of(file, opened_state(file, writable))),
{
    lemma_opened_state(file, writable);
}

/// Appending one record to a clean log leaves it clean.
proof fn lemma_clean_appended(file: Seq<u8>, st: StoreState, off: u64, chunk: Seq<u8>)
    requires
        clean(log_of(file, st)),
        0 < chunk.len() < MAX_RECORD_SIZE,
        off + chunk.len() <= u64::MAX,
        st.file_size + framed_len(chunk.len() as int) <= u64::MAX,
    ensures
        clean(log_of(appended_file(file, st, off, chunk), appended_state(st, off, chunk))),
{
    reveal(appended_file);
    reveal(appended_state);
    let l = file.len() as int;
    let f2 = appended_file(file, st, off, chunk);
    let st2 = appended_state(st, off, chunk);
    let r = record_of(off, chunk, l);
    lemma_appended_state(file, st, off, chunk);
    lemma_log_append(file, off, chunk);
    lemma_opened_state(file, true);
    let before = opened_state(file, true).spans;
    let records = log_records(file, HEADER_SIZE as int);
    assert(records.push(r).drop_last() =~= records);
    assert(insertable(r));
    assert(opened_state(f2, true).spans == with_span(
        before,
        off,
        chunk.len() as u64,
        r.file_data_offset,
        true,
    ));
    assert(header_at(f2, 0) == header_at(file, 0)) by {
        assert(f2.subrange(0, HEADER_SIZE as int) =~= f2.take(l).subrange(0, HEADER_SIZE as int));
    }
    assert forall|o: int| #[trigger]
        locate(st2.spans, o) == locate(opened_state(f2, true).spans, o) by {
        lemma_add_locate(st.spans, off, chunk.len() as u64, r.file_data_offset, false, o);
        lemma_add_locate(before, off, chunk.len() as u64, r.file_data_offset, true, o);
        assert(locate(st.spans, o) == locate(before, o));
    }
}

/// Writing `data` to a clean log, record by record, leaves it clean.
proof fn lemma_clean_written(file: Seq<u8>, st: StoreState, off: int, data: Seq<u8>)
    requires
        clean(log_of(file, st)),
        0 <= off,
        off + data.len() <= u64::MAX,
        written_file(file, st, off, data).len() <= u64::MAX,
    ensures
        clean(log_of(written_file(file, st, off, data), written_state(st, off, data))),
    decreases data.len(),
{
    if data.len() > 0 {
        let c = chunk_len(data.len() as int);
        let chunk = data.take(c);
        let f1 = appended_file(file, st, off as u64, chunk);
        let st1 = appended_state(st, off as u64, chunk);
        lemma_append_fits(file, st, off as u64, chunk);
        lemma_written_file_grows(f1, st1, off + c, data.skip(c));
        lemma_clean_appended(file, st, off as u64, chunk);
        lemma_clean_written(f1, st1, off + c, data.skip(c));
    }
}

/// A write leaves a clean log clean.
pub proof fn lemma_clean_write(log: Log, off: u64, data: Seq<u8>)
    requires
        clean(log),
        off + data.len() <= u64::MAX,
        log_write(log, off, data).file.len() <= u64::MAX,
    ensures
        clean(log_write(log, off, data)),
{
    if access_passes(log, off, data.len() as int) {
        let start = prev_key(log.state.spans, off as int);
        let checked = validated_state(log.state, log.file, start, off + data.len());
        lemma_mark_validated(
            log.state.spans,
            start,
            off + data.len(),
            HEADER_SIZE as int,
            log.state.file_size as int,
        );
        assert(clean(log_of(log.file, checked))) by {
            assert forall|o: int| #[trigger]
                locate(checked.spans, o) == locate(opened_state(log.file, true).spans, o) by {
                assert(locate(log.state.spans, o) == locate(
                    opened_state(log.file, true).spans,
                    o,
                ));
            }
        }
        lemma_clean_written(log.file, checked, off as int, data);
    }
}

/// Writes leave a clean store clean, and the file of a clean store opens
/// as a store with the same logical view: it holds every logical offset
/// where this one holds it.
pub proof fn lemma_clean_writes(log: Log, ws: Seq<WriteOp>, writable: bool, o: int)
    requires
        clean(log),
        writes_fit(ws),
        log_writes(log, ws).file.len() <= u64::MAX,
    ensures
        clean(log_writes(log, ws)),
        header_at(log_writes(log, ws).file, 0) is Some,
        logical_byte(
            opened_state(log_writes(log, ws).file, writable).spans,
            log_writes(log, ws).file,
            o,
        ) == log_byte(log_writes(log, ws), o),
        logical_size(opened_state(log_writes(log, ws).file, writable).spans) == logical_size(
            log_writes(log, ws).state.spans,
        ),
    decreases ws.len(),
{
    if ws.len() > 0 {
        let front = ws.drop_last();
        let w = ws.last();
        let mid = log_writes(log, front);
        assert(w == ws[ws.len() - 1]);
        assert(writes_fit(front)) by {
            assert forall|i: int| 0 <= i < front.len() implies (#[trigger] front[i]).offset
                + front[i].data.len() <= u64::MAX by {
                assert(front[i] == ws[i]);
            }
        }
        lemma_log_write_grows(mid, w.offset, w.data);
        lemma_clean_writes(log, front, writable, o);
        lemma_clean_write(mid, w.offset, w.data);
    }
    let after = log_writes(log, ws);
    assert(locate(after.state.spans, o) == locate(opened_state(after.file, true).spans, o));
    lemma_opened_state(after.file, true);
    lemma_same_places_same_size(after.state.spans, opened_state(after.file, true).spans);
}

/// The store with the part of the file that holds its log: what lies in
/// the file behind the end of the log is left out.
pub open spec fn log_cut(log: Log) -> Log {
    log_of(log.file.take(log.state.file_size as int), log.state)
}

/// The store follows its file: the file holds the store's log, and the
/// store shows what the file would show if it ended where the log ends.
pub open spec fn tracks(log: Log) -> bool {
    &&& log_wf(log)
    &&& clean(log_cut(log))
}

/// A store follows the file that it was opened on, whatever lies behind the
/// last record.
pub proof fn lemma_opened_tracks(file: Seq<u8>, writable: bool)
    requires
        header_at(file, 0) is Some,
        file.len() <= u64::MAX,
    ensures
        tracks(log_of(file, opened_state(file, writable))),
{
    let start = HEADER_SIZE as int;
    let st = opened_state(file, writable);
    lemma_opened_state(file, writable);
    let end = log_end(file, start);
    let cut = file.take(end);
    lemma_log_cut(file, end, start);
    lemma_upto_own_end(file, start, file.len() as int);
    assert(cut.subrange(0, start) =~= file.subrange(0, start));
    assert(opened_state(cut, true).spans == st.spans);
}

/// Whether a span's record checks does not depend on what lies behind the
/// end of the log.
proof fn lemma_cut_checks(log: Log, start: int, end: int)
    requires
        log_wf(log),
    ensures
        range_checks(log.state.spans, log.file, start, end) == range_checks(
            log.state.spans,
            log_cut(log).file,
            start,
            end,
        ),
{
    let s = log.state.spans;
    let fs = log.state.file_size as int;
    let cut = log.file.take(fs);
    assert forall|i: int| 0 <= i < s.len() implies record_checks(
        log.file,
        (#[trigger] s[i]).1.file_data_offset as int,
        s[i].1.len as int,
    ) == record_checks(cut, s[i].1.file_data_offset as int, s[i].1.len as int) by {
        let a = s[i].1.file_data_offset as int;
        let n = s[i].1.len as int;
        assert(log.file.subrange(a - RECORD_HDR_SIZE, a + n) =~= cut.subrange(
            a - RECORD_HDR_SIZE,
            a + n,
        ));
        assert(log.file.subrange(a + n, a + n + 8) =~= cut.subrange(a + n, a + n + 8));
    }
}

/// What is written does not depend on what lies behind the end of the log:
/// the file up to the new end of the log is what writing to the file up to
/// the old end gives.
proof fn lemma_written_cut(file: Seq<u8>, st: StoreState, off: int, data: Seq<u8>)
    requires
        state_wf(st),
        st.file_size <= file.len(),
        0 <= off,
        off + data.len() <= u64::MAX,
        written_file(file, st, off, data).len() <= u64::MAX,
    ensures
        written_file(file, st, off, data).take(written_state(st, off, data).file_size as int)
            == written_file(file.take(st.file_size as int), st, off, data),
    decreases data.len(),
{
    if data.len() > 0 {
        let c = chunk_len(data.len() as int);
        let chunk = data.take(c);
        let f1 = appended_file(file, st, off as u64, chunk);
        let st1 = appended_state(st, off as u64, chunk);
        let g1 = appended_file(file.take(st.file_size as int), st, off as u64, chunk);
        lemma_append_fits(file, st, off as u64, chunk);
        lemma_written_file_grows(f1, st1, off + c, data.skip(c));
        lemma_appended_state(file, st, off as u64, chunk);
        lemma_written_cut(f1, st1, off + c, data.skip(c));
        assert(f1.take(st1.file_size as int) =~= g1) by {
            reveal(appended_file);
            lemma_record_bytes(off as u64, chunk);
        }
    }
}

/// Writing and leaving out what lies behind the log come to the same in
/// either order.
proof fn lemma_write_cut(log: Log, off: u64, data: Seq<u8>)
    requires
        log_wf(log),
        off + data.len() <= u64::MAX,
        log_write(log, off, data).file.len() <= u64::MAX,
    ensures
        log_cut(log_write(log, off, data)) == log_write(log_cut(log), off, data),
{
    let start = prev_key(log.state.spans, off as int);
    let end = off + data.len();
    lemma_cut_checks(log, start, end);
    if access_passes(log, off, data.len() as int) {
        let checked = validated_state(log.state, log.file, start, end);
        lemma_mark_validated(
            log.state.spans,
            start,
            end,
            HEADER_SIZE as int,
            log.state.file_size as int,
        );
        lemma_written_cut(log.file, checked, off as int, data);
    }
}

/// A write leaves a store following its file.
pub proof fn lemma_tracks_write(log: Log, off: u64, data: Seq<u8>)
    requires
        tracks(log),
        off + data.len() <= u64::MAX,
        log_write(log, off, data).file.len() <= u64::MAX,
    ensures
        tracks(log_write(log, off, data)),
{
    lemma_log_write(log, off, data, 0);
    lemma_write_cut(log, off, data);
    lemma_clean_write(log_cut(log), off, data);
}

/// Writes leave a store following its file.
pub proof fn lemma_tracks_writes(log: Log, ws: Seq<WriteOp>)
    requires
        tracks(log),
        writes_fit(ws),
        log_writes(log, ws).file.len() <= u64::MAX,
    ensures
        tracks(log_writes(log, ws)),
    decreases ws.len(),
{
    if ws.len() > 0 {
        let front = ws.drop_last();
        let w = ws.last();
        assert(w == ws[ws.len() - 1]);
        assert(front =~= ws.take(ws.len() - 1));
        lemma_writes_fit_take(ws, ws.len() - 1);
        lemma_log_write_grows(log_writes(log, front), w.offset, w.data);
        lemma_tracks_writes(log, front);
        lemma_tracks_write(log_writes(log, front), w.offset, w.data);
    }
}

/// Replay equivalence.  Take a store that follows its file, as every store
/// does that was opened on it, and any writes.  If afterwards no record
/// stands in the file behind the end of the log (none can where the file
/// ends there), then opening the file again gives a store with the same
/// logical view: every logical byte, and the logical size, are what they
/// were before.
pub proof fn lemma_replay_equivalence(log: Log, ws: Seq<WriteOp>, writable: bool, o: int)
    requires
        tracks(log),
        writes_fit(ws),
        log_writes(log, ws).file.len() <= u64::MAX,
        record_at(log_writes(log, ws).file, log_writes(log, ws).state.file_size as int) is None,
    ensures
        header_at(log_writes(log, ws).file, 0) is Some,
        logical_byte(
            opened_state(log_writes(log, ws).file, writable).spans,
            log_writes(log, ws).file,
            o,
        ) == log_byte(log_writes(log, ws), o),
        logical_size(opened_state(log_writes(log, ws).file, writable).spans) == logical_size(
            log_writes(log, ws).state.spans,
        ),
{
    let start = HEADER_SIZE as int;
    let after = log_writes(log, ws);
    let file = after.file;
    let end = after.state.file_size as int;
    let cut = file.take(end);
    lemma_tracks_writes(log, ws);
    // The file holds the records of its log, and no more.
    assert(log_records(file, start) == log_records(cut, start)) by {
        assert(cut.take(end) =~= cut);
        lemma_upto_agree(file, cut, start, end);
        lemma_upto_then_rest(file, start, end);
        assert(log_records(file, end) =~= Seq::<Record>::empty());
        assert(log_records(cut, start) + Seq::<Record>::empty() =~= log_records(cut, start));
    }
    assert(file.subrange(0, start) =~= cut.subrange(0, start));
    let spans = opened_state(file, writable).spans;
    assert(spans == opened_state(cut, true).spans);
    assert(locate(after.state.spans, o) == locate(spans, o));
    lemma_opened_state(cut, true);
    lemma_locate(spans, o);
    lemma_same_places_same_size(after.state.spans, spans);
}

/// Every byte that a clean store shows is a payload byte of a record of
/// its log: where the store holds the logical offset `o`, a record that
/// stands in the file with its checksum holds `o` at that place.
pub proof fn lemma_shown_bytes_are_payload(log: Log, o: int)
    requires
        clean(log),
    ensures
        locate(log.state.spans, o) matches Some(p) ==> exists|j: int|
            {
                &&& 0 <= j < log_records(log.file, HEADER_SIZE as int).len()
                &&& record_holds(#[trigger] log_records(log.file, HEADER_SIZE as int)[j], o, p)
                &&& record_at(
                    log.file,
                    log_records(log.file, HEADER_SIZE as int)[j].file_data_offset
                        - RECORD_HDR_SIZE,
                ) == Some(log_records(log.file, HEADER_SIZE as int)[j])
            },
{
    let start = HEADER_SIZE as int;
    let records = log_records(log.file, start);
    lemma_upto_bounds(log.file, start, log.file.len() as int);
    lemma_replayed_place(records, start, log.file.len() as int, o);
    assert(locate(log.state.spans, o) == locate(opened_state(log.file, true).spans, o));
    match locate(log.state.spans, o) {
        Some(p) => {
            let j = choose|j: int|
                0 <= j < records.len() && record_holds(#[trigger] records[j], o, p);
            lemma_records_stand(log.file, start, log.file.len() as int, j);
        },
        None => {},
    }
}

/// Atomic tail: a file that was cut to `l` bytes opens as the store of the
/// records that end at or before `l`.  These are the first records of the
/// uncut log, as many of them as fit; the store's log ends behind the last
/// of them, and its logical bytes are those that the same spans show over
/// the uncut file.
pub proof fn lemma_atomic_tail(file: Seq<u8>, l: int, writable: bool, o: int)
    requires
        HEADER_SIZE <= l <= file.len(),
        file.len() <= u64::MAX,
    ensures
        header_at(file.take(l), 0) == header_at(file, 0),
        opened_state(file.take(l), writable).spans == replay(
            Seq::empty(),
            records_upto(file, HEADER_SIZE as int, l),
        ),
        opened_state(file.take(l), writable).file_size == end_upto(file, HEADER_SIZE as int, l),
        records_upto(file, HEADER_SIZE as int, l) == log_records(file, HEADER_SIZE as int).take(
            records_upto(file, HEADER_SIZE as int, l).len() as int,
        ),
        record_at(file, end_upto(file, HEADER_SIZE as int, l)) matches Some(r) ==> end_upto(
            file,
            HEADER_SIZE as int,
            l,
        ) + framed_len(r.hdr.length as int) > l,
        logical_byte(opened_state(file.take(l), writable).spans, file.take(l), o) == logical_byte(
            opened_state(file.take(l), writable).spans,
            file,
            o,
        ),
{
    let cut = file.take(l);
    lemma_log_cut(file, l, HEADER_SIZE as int);
    lemma_upto_bounds(file, HEADER_SIZE as int, l);
    lemma_upto_is_prefix(file, HEADER_SIZE as int, l);
    lemma_upto_is_longest(file, HEADER_SIZE as int, l);
    assert(cut.subrange(0, HEADER_SIZE as int) =~= file.subrange(0, HEADER_SIZE as int));
    lemma_opened_state(cut, writable);
    let spans = opened_state(cut, writable).spans;
    lemma_locate(spans, o);
}

/// Writing to a clean log only appends: the file before the write is the
/// beginning of the file after it.
proof fn lemma_clean_written_appends(file: Seq<u8>, st: StoreState, off: int, data: Seq<u8>)
    requires
        clean(log_of(file, st)),
        0 <= off,
        off + data.len() <= u64::MAX,
        written_file(file, st, off, data).len() <= u64::MAX,
    ensures
        written_file(file, st, off, data).take(file.len() as int) == file,
    decreases data.len(),
{
    if data.len() > 0 {
        let c = chunk_len(data.len() as int);
        let chunk = data.take(c);
        let f1 = appended_file(file, st, off as u64, chunk);
        let st1 = appended_state(st, off as u64, chunk);
        let after = written_file(f1, st1, off + c, data.skip(c));
        lemma_append_fits(file, st, off as u64, chunk);
        lemma_written_file_grows(f1, st1, off + c, data.skip(c));
        lemma_clean_appended(file, st, off as u64, chunk);
        lemma_clean_written_appends(f1, st1, off + c, data.skip(c));
        assert(f1.take(file.len() as int) == file) by {
            reveal(appended_file);
            lemma_record_written(file, file.len() as int, off as u64, chunk);
            assert(file.take(file.len() as int) =~= file);
        }
        assert(after.take(file.len() as int) =~= after.take(f1.len() as int).take(
            file.len() as int,
        ));
    } else {
        assert(file.take(file.len() as int) =~= file);
    }
}

/// A write to a clean log only appends.
pub proof fn lemma_clean_write_appends(log: Log, off: u64, data: Seq<u8>)
    requires
        clean(log),
        off + data.len() <= u64::MAX,
        log_write(log, off, data).file.len() <= u64::MAX,
    ensures
        log_write(log, off, data).file.take(log.file.len() as int) == log.file,
        log.file.len() <= log_write(log, off, data).file.len(),
{
    lemma_log_write_grows(log, off, data);
    if access_passes(log, off, data.len() as int) {
        let start = prev_key(log.state.spans, off as int);
        let checked = validated_state(log.state, log.file, start, off + data.len());
        lemma_mark_validated(
            log.state.spans,
            start,
            off + data.len(),
            HEADER_SIZE as int,
            log.state.file_size as int,
        );
        assert(clean(log_of(log.file, checked))) by {
            assert forall|o: int| #[trigger]
                locate(checked.spans, o) == locate(opened_state(log.file, true).spans, o) by {
                assert(locate(log.state.spans, o) == locate(
                    opened_state(log.file, true).spans,
                    o,
                ));
            }
        }
        lemma_clean_written_appends(log.file, checked, off as int, data);
    } else {
        assert(log.file.take(log.file.len() as int) =~= log.file);
    }
}

/// Writes to a clean log only append: the file after the first `k` writes
/// is the beginning of the file after all of them.
pub proof fn lemma_writes_append(log: Log, ws: Seq<WriteOp>, k: int)
    requires
        clean(log),
        writes_fit(ws),
        log_writes(log, ws).file.len() <= u64::MAX,
        0 <= k <= ws.len(),
    ensures
        log_writes(log, ws.take(k)).file.len() <= log_writes(log, ws).file.len(),
        log_writes(log, ws).file.take(log_writes(log, ws.take(k)).file.len() as int) == log_writes(
            log,
            ws.take(k),
        ).file,
    decreases ws.len(),
{
    let all = log_writes(log, ws);
    if k == ws.len() {
        assert(ws.take(k) =~= ws);
        assert(all.file.take(all.file.len() as int) =~= all.file);
    } else {
        let front = ws.drop_last();
        let w = ws.last();
        let mid = log_writes(log, front);
        assert(w == ws[ws.len() - 1]);
        assert(front.take(k) =~= ws.take(k));
        assert(front =~= ws.take(ws.len() - 1));
        lemma_writes_fit_take(ws, ws.len() - 1);
        lemma_log_write_grows(mid, w.offset, w.data);
        lemma_writes_append(log, front, k);
        lemma_clean_writes(log, front, true, 0);
        lemma_clean_write_appends(mid, w.offset, w.data);
        let first = log_writes(log, ws.take(k));
        assert(all.file.take(first.file.len() as int) =~= all.file.take(
            mid.file.len() as int,
        ).take(first.file.len() as int));
    }
}

/// A write that is not empty, fits into one record and goes through puts
/// one record at the end of a clean log, and makes the file longer.
proof fn lemma_next_record(log: Log, off: u64, data: Seq<u8>)
    requires
        clean(log),
        reads_back(log),
        log.state.writable,
        data.len() <= MAX_CHUNK,
        off + data.len() <= u64::MAX,
    ensures
        data.len() == 0 ==> log_write(log, off, data).file == log.file,
        data.len() > 0 ==> {
            &&& log_write(log, off, data).file.len() == log.file.len() + framed_len(
                data.len() as int,
            )
            &&& record_at(log_write(log, off, data).file, log.file.len() as int) == Some(
                record_of(off, data, log.file.len() as int),
            )
        },
{
    let start = prev_key(log.state.spans, off as int);
    lemma_reads_back_passes(log, start, off + data.len());
    let checked = validated_state(log.state, log.file, start, off + data.len());
    if data.len() > 0 {
        reveal(appended_file);
        let c = chunk_len(data.len() as int);
        assert(data.take(c) =~= data);
        assert(data.skip(c).len() == 0);
        let f1 = appended_file(log.file, checked, off, data);
        let st1 = appended_state(checked, off, data);
        assert(written_file(f1, st1, off + c, data.skip(c)) == f1);
        assert(written_file(log.file, checked, off as int, data) == f1);
        lemma_record_written(log.file, log.file.len() as int, off, data);
    }
}

/// Atomic tail, write by write.  Take a clean store whose file reads back
/// what was written, and writes that each fit into one record.  Cut the
/// file after all the writes to `l` bytes, where `l` reaches the end of the
/// first `k` writes but not the end of the next one.  Then the cut file
/// opens as a store with the logical view that the store had after the
/// first `k` writes: a write is there in full or not at all.
pub proof fn lemma_writes_are_atomic(
    log: Log,
    ws: Seq<WriteOp>,
    k: int,
    l: int,
    writable: bool,
    o: int,
)
    requires
        clean(log),
        log.state.writable,
        reads_back(log),
        writes_fit(ws),
        single_records(ws),
        log_writes(log, ws).file.len() <= u64::MAX,
        0 <= k <= ws.len(),
        log_writes(log, ws.take(k)).file.len() <= l <= log_writes(log, ws).file.len(),
        k < ws.len() ==> l < log_writes(log, ws.take(k + 1)).file.len(),
    ensures
        header_at(log_writes(log, ws).file.take(l), 0) == header_at(log.file, 0),
        logical_byte(
            opened_state(log_writes(log, ws).file.take(l), writable).spans,
            log_writes(log, ws).file.take(l),
            o,
        ) == log_byte(log_writes(log, ws.take(k)), o),
        logical_size(opened_state(log_writes(log, ws).file.take(l), writable).spans)
            == logical_size(log_writes(log, ws.take(k)).state.spans),
{
    let all = log_writes(log, ws);
    let kept = log_writes(log, ws.take(k));
    let file = all.file;
    let a = kept.file.len() as int;
    let start = HEADER_SIZE as int;
    lemma_writes_fit_take(ws, k);
    lemma_writes_append(log, ws, k);
    lemma_writes_append(log, ws, 0);
    assert(ws.take(0) =~= Seq::<WriteOp>::empty());
    lemma_clean_writes(log, ws.take(k), true, o);
    // The records of the cut file are those of the file after `k` writes.
    assert(records_upto(file, start, l) == log_records(kept.file, start)) by {
        assert(kept.file.take(a) =~= kept.file);
        lemma_upto_agree(file, kept.file, start, a);
        lemma_upto_in_two(file, start, a, l);
        if k < ws.len() {
            let next = log_writes(log, ws.take(k + 1));
            let w = ws[k];
            assert(ws.take(k + 1).drop_last() =~= ws.take(k));
            assert(ws.take(k + 1).last() == w);
            assert(next == log_write(kept, w.offset, w.data));
            lemma_writes_fit_take(ws, k + 1);
            lemma_writes_append(log, ws, k + 1);
            lemma_writes_pass(log, ws.take(k));
            lemma_next_record(kept, w.offset, w.data);
            let b = next.file.len() as int;
            assert(file.subrange(a, b) =~= file.take(b).subrange(a, b));
            lemma_record_at_local(next.file, file, a);
            assert(records_upto(file, a, l) =~= Seq::<Record>::empty());
        } else {
            assert(ws.take(k) =~= ws);
            assert(record_at(file, a) is None);
            assert(records_upto(file, a, l) =~= Seq::<Record>::empty());
        }
        assert(log_records(kept.file, start) + Seq::<Record>::empty() =~= log_records(
            kept.file,
            start,
        ));
    }
    lemma_log_cut(file, l, start);
    let cut = file.take(l);
    assert(opened_state(cut, writable).spans == opened_state(kept.file, true).spans);
    lemma_opened_state(kept.file, true);
    let spans = opened_state(kept.file, true).spans;
    assert(locate(kept.state.spans, o) == locate(spans, o));
    lemma_locate(spans, o);
    match locate(spans, o) {
        Some(p) => {
            assert(0 <= p < a);
            assert(cut[p] == file.take(a)[p]);
        },
        None => {},
    }
    lemma_same_places_same_size(kept.state.spans, spans);
    assert(cut.subrange(0, start) =~= file.take(log.file.len() as int).subrange(0, start));
}

/// Damage at or behind the byte `p` loses no record that ends at or before
/// `p`: a file that agrees with `good` on its first `p` bytes holds, first
/// of all, the records of `good` that end there.  Where no record stands
/// behind them in the damaged file, because the one that held the damage
/// no longer has its checksum, these are all its records: it opens as the
/// store of that beginning of the log.
pub proof fn lemma_damage_keeps_earlier_records(good: Seq<u8>, bad: Seq<u8>, p: int)
    requires
        HEADER_SIZE <= p <= good.len(),
        p <= bad.len(),
        good.take(p) == bad.take(p),
    ensures
        header_at(bad, 0) == header_at(good, 0),
        records_upto(bad, HEADER_SIZE as int, p) == records_upto(good, HEADER_SIZE as int, p),
        records_upto(good, HEADER_SIZE as int, p) == log_records(bad, HEADER_SIZE as int).take(
            records_upto(good, HEADER_SIZE as int, p).len() as int,
        ),
        record_at(bad, end_upto(good, HEADER_SIZE as int, p)) is None ==> log_records(
            bad,
            HEADER_SIZE as int,
        ) == records_upto(good, HEADER_SIZE as int, p),
{
    lemma_upto_agree(good, bad, HEADER_SIZE as int, p);
    lemma_upto_is_prefix(bad, HEADER_SIZE as int, p);
    lemma_upto_then_rest(bad, HEADER_SIZE as int, p);
    assert(bad.subrange(0, HEADER_SIZE as int) =~= bad.take(p).subrange(0, HEADER_SIZE as int));
    assert(good.subrange(0, HEADER_SIZE as int) =~= good.take(p).subrange(0, HEADER_SIZE as int));
    let head = records_upto(bad, HEADER_SIZE as int, p);
    let e = end_upto(bad, HEADER_SIZE as int, p);
    if record_at(bad, e) is None {
        assert(log_records(bad, e) =~= Seq::<Record>::empty());
        assert(head + Seq::<Record>::empty() =~= head);
    }
}

} // verus!
