//! The log as a whole: the records that a file holds behind its header, and
//! the span map that replaying them builds.
use crate::bytes::{lemma_le_value_bound, lemma_radix_values};
use crate::header::HEADER_SIZE;
use crate::record::{
    framed_len, lemma_record_at_local, lemma_record_written, record_at, record_bytes, record_of,
    written_at, Record, MAX_RECORD_SIZE, RECORD_HDR_SIZE, RECORD_TLR_SIZE,
};
use crate::span::{
    lemma_add, lemma_add_locate, lemma_install_member, lemma_rank, lemma_split, locate, part_of,
    spans_wf, split, split_origin, straddler_validated, with_span, Span,
};
use vstd::prelude::*;

verus! {

/// The records that stand in `file` one behind the other from `pos` on and
/// end at or before `limit`: the run stops at the first position where no
/// record stands, or where one stands that reaches beyond `limit`.
pub open spec fn records_upto(file: Seq<u8>, pos: int, limit: int) -> Seq<Record>
    decreases file.len() - pos,
{
    match record_at(file, pos) {
        Some(r) => if pos + framed_len(r.hdr.length as int) <= limit {
            seq![r] + records_upto(file, pos + framed_len(r.hdr.length as int), limit)
        } else {
            Seq::empty()
        },
        None => Seq::empty(),
    }
}

/// Where the run of `records_upto(file, pos, limit)` ends.
pub open spec fn end_upto(file: Seq<u8>, pos: int, limit: int) -> int
    decreases file.len() - pos,
{
    match record_at(file, pos) {
        Some(r) => if pos + framed_len(r.hdr.length as int) <= limit {
            end_upto(file, pos + framed_len(r.hdr.length as int), limit)
        } else {
            pos
        },
        None => pos,
    }
}

/// The records of the log in `file` from `pos` on, in file order, up to the
/// first position where no record stands.
pub open spec fn log_records(file: Seq<u8>, pos: int) -> Seq<Record> {
    records_upto(file, pos, file.len() as int)
}

/// Where the log in `file` ends: the first position from `pos` on where no
/// record stands.
pub open spec fn log_end(file: Seq<u8>, pos: int) -> int {
    end_upto(file, pos, file.len() as int)
}

/// The run from `pos` up to `limit` ends between `pos` and `limit`, and
/// each of its records lies between them.
pub proof fn lemma_upto_bounds(file: Seq<u8>, pos: int, limit: int)
    requires
        0 <= pos <= limit <= file.len(),
        file.len() <= u64::MAX,
    ensures
        pos <= end_upto(file, pos, limit) <= limit,
        records_in_file(records_upto(file, pos, limit), pos, limit),
    decreases file.len() - pos,
{
    match record_at(file, pos) {
        Some(r) => {
            let next = pos + framed_len(r.hdr.length as int);
            if next <= limit {
                lemma_upto_bounds(file, next, limit);
                lemma_le_value_bound(file.subrange(pos + 8, pos + 11));
                lemma_radix_values();
                let rest = records_upto(file, next, limit);
                let all = records_upto(file, pos, limit);
                assert forall|i: int| 0 <= i < all.len() implies record_in_file(
                    #[trigger] all[i],
                    pos,
                    limit,
                ) by {
                    if i > 0 {
                        assert(all[i] == rest[i - 1]);
                        assert(record_in_file(rest[i - 1], next, limit));
                    }
                }
            }
        },
        None => {},
    }
}

/// Each record of the run up to `limit` ends at or before the end of the
/// run.
pub proof fn lemma_upto_ends(file: Seq<u8>, pos: int, limit: int)
    requires
        0 <= pos <= limit <= file.len(),
        file.len() <= u64::MAX,
    ensures
        records_in_file(records_upto(file, pos, limit), pos, end_upto(file, pos, limit)),
    decreases file.len() - pos,
{
    lemma_upto_bounds(file, pos, limit);
    match record_at(file, pos) {
        Some(r) => {
            let next = pos + framed_len(r.hdr.length as int);
            if next <= limit {
                lemma_upto_ends(file, next, limit);
                lemma_upto_bounds(file, next, limit);
                let rest = records_upto(file, next, limit);
                let all = records_upto(file, pos, limit);
                assert forall|i: int| 0 <= i < all.len() implies record_in_file(
                    #[trigger] all[i],
                    pos,
                    end_upto(file, pos, limit),
                ) by {
                    assert(record_in_file(all[i], pos, limit));
                    if i > 0 {
                        assert(all[i] == rest[i - 1]);
                        assert(record_in_file(rest[i - 1], next, end_upto(file, next, limit)));
                    }
                }
            }
        },
        None => {},
    }
}

/// Two files that agree before `limit` hold the same records up to `limit`.
pub proof fn lemma_upto_agree(f1: Seq<u8>, f2: Seq<u8>, pos: int, limit: int)
    requires
        0 <= pos,
        0 <= limit <= f1.len(),
        limit <= f2.len(),
        f1.take(limit) == f2.take(limit),
    ensures
        records_upto(f1, pos, limit) == records_upto(f2, pos, limit),
        end_upto(f1, pos, limit) == end_upto(f2, pos, limit),
    decreases limit - pos,
{
    let r1 = record_at(f1, pos);
    let r2 = record_at(f2, pos);
    if r1 is Some && pos + framed_len(r1->0.hdr.length as int) <= limit {
        let next = pos + framed_len(r1->0.hdr.length as int);
        assert(f1.subrange(pos, next) =~= f1.take(limit).subrange(pos, next));
        assert(f2.subrange(pos, next) =~= f2.take(limit).subrange(pos, next));
        lemma_record_at_local(f1, f2, pos);
        lemma_upto_agree(f1, f2, next, limit);
    } else if r2 is Some && pos + framed_len(r2->0.hdr.length as int) <= limit {
        let next = pos + framed_len(r2->0.hdr.length as int);
        assert(f1.subrange(pos, next) =~= f1.take(limit).subrange(pos, next));
        assert(f2.subrange(pos, next) =~= f2.take(limit).subrange(pos, next));
        lemma_record_at_local(f2, f1, pos);
    }
}

/// A run up to `limit` is the run up to an earlier bound `first` and then
/// the run from where that one ends.
pub proof fn lemma_upto_in_two(file: Seq<u8>, pos: int, first: int, limit: int)
    requires
        0 <= pos,
        first <= limit,
    ensures
        records_upto(file, pos, limit) == records_upto(file, pos, first) + records_upto(
            file,
            end_upto(file, pos, first),
            limit,
        ),
        end_upto(file, pos, limit) == end_upto(file, end_upto(file, pos, first), limit),
    decreases file.len() - pos,
{
    match record_at(file, pos) {
        Some(r) => {
            let next = pos + framed_len(r.hdr.length as int);
            if next <= first {
                lemma_upto_in_two(file, next, first, limit);
                let head = records_upto(file, next, first);
                let tail = records_upto(file, end_upto(file, next, first), limit);
                assert(seq![r] + (head + tail) =~= (seq![r] + head) + tail);
            } else {
                assert(Seq::<Record>::empty() + records_upto(file, pos, limit) =~= records_upto(
                    file,
                    pos,
                    limit,
                ));
            }
        },
        None => {
            assert(Seq::<Record>::empty() + records_upto(file, pos, limit) =~= records_upto(
                file,
                pos,
                limit,
            ));
        },
    }
}

/// The log from `pos` on is the run up to `limit` and then the log from
/// where that run ends.
pub proof fn lemma_upto_then_rest(file: Seq<u8>, pos: int, limit: int)
    requires
        0 <= pos,
        limit <= file.len(),
    ensures
        log_records(file, pos) == records_upto(file, pos, limit) + log_records(
            file,
            end_upto(file, pos, limit),
        ),
        log_end(file, pos) == log_end(file, end_upto(file, pos, limit)),
{
    lemma_upto_in_two(file, pos, limit, file.len() as int);
}

/// The run up to `limit` is the beginning of the whole log.
pub proof fn lemma_upto_is_prefix(file: Seq<u8>, pos: int, limit: int)
    requires
        0 <= pos,
        limit <= file.len(),
    ensures
        records_upto(file, pos, limit).len() <= log_records(file, pos).len(),
        records_upto(file, pos, limit) == log_records(file, pos).take(
            records_upto(file, pos, limit).len() as int,
        ),
{
    lemma_upto_then_rest(file, pos, limit);
    let head = records_upto(file, pos, limit);
    let rest = log_records(file, end_upto(file, pos, limit));
    assert((head + rest).take(head.len() as int) =~= head);
}

/// The run up to `limit` stops only where it has to: where it ends, no
/// record stands, or one that reaches beyond `limit`.
pub proof fn lemma_upto_is_longest(file: Seq<u8>, pos: int, limit: int)
    ensures
        record_at(file, end_upto(file, pos, limit)) matches Some(r) ==> end_upto(file, pos, limit)
            + framed_len(r.hdr.length as int) > limit,
    decreases file.len() - pos,
{
    match record_at(file, pos) {
        Some(r) => {
            if pos + framed_len(r.hdr.length as int) <= limit {
                lemma_upto_is_longest(file, pos + framed_len(r.hdr.length as int), limit);
            }
        },
        None => {},
    }
}

/// A run up to `limit` is the run up to its own end.
pub proof fn lemma_upto_own_end(file: Seq<u8>, pos: int, limit: int)
    requires
        0 <= pos,
    ensures
        pos <= end_upto(file, pos, limit),
        records_upto(file, pos, end_upto(file, pos, limit)) == records_upto(file, pos, limit),
        end_upto(file, pos, end_upto(file, pos, limit)) == end_upto(file, pos, limit),
    decreases file.len() - pos,
{
    match record_at(file, pos) {
        Some(r) => {
            let next = pos + framed_len(r.hdr.length as int);
            if next <= limit {
                lemma_upto_own_end(file, next, limit);
            }
        },
        None => {},
    }
}

/// Cutting a file short leaves the records that end at or before the cut,
/// and no others: the log of `file.take(l)` is the run of `file` up to `l`.
pub proof fn lemma_log_cut(file: Seq<u8>, l: int, pos: int)
    requires
        0 <= pos,
        0 <= l <= file.len(),
    ensures
        log_records(file.take(l), pos) == records_upto(file, pos, l),
        log_end(file.take(l), pos) == end_upto(file, pos, l),
{
    assert(file.take(l).take(l) =~= file.take(l));
    lemma_upto_agree(file.take(l), file, pos, l);
}

/// The log in `file` with one more record behind it: where the records of
/// `file` reach its end, the longer file holds the same records and then
/// the new one, and they reach its end again.
pub proof fn lemma_log_append(file: Seq<u8>, off: u64, data: Seq<u8>)
    requires
        HEADER_SIZE <= file.len(),
        log_end(file, HEADER_SIZE as int) == file.len(),
        data.len() < MAX_RECORD_SIZE,
    ensures
        ({
            let longer = written_at(file, file.len() as int, record_bytes(off, data));
            &&& longer.len() == file.len() + framed_len(data.len() as int)
            &&& longer.take(file.len() as int) == file
            &&& log_records(longer, HEADER_SIZE as int) == log_records(
                file,
                HEADER_SIZE as int,
            ).push(record_of(off, data, file.len() as int))
            &&& log_end(longer, HEADER_SIZE as int) == longer.len()
        }),
{
    let l = file.len() as int;
    let longer = written_at(file, l, record_bytes(off, data));
    let r = record_of(off, data, l);
    lemma_record_written(file, l, off, data);
    assert(file.take(l) =~= file);
    lemma_upto_agree(longer, file, HEADER_SIZE as int, l);
    lemma_upto_then_rest(longer, HEADER_SIZE as int, l);
    let next = l + framed_len(data.len() as int);
    assert(record_at(longer, l) == Some(r));
    assert(record_at(longer, next) is None);
    assert(records_upto(longer, next, longer.len() as int) =~= Seq::<Record>::empty());
    assert(log_records(longer, l) =~= seq![r]);
    assert(log_records(file, HEADER_SIZE as int) + seq![r] =~= log_records(
        file,
        HEADER_SIZE as int,
    ).push(r));
    assert(end_upto(longer, next, longer.len() as int) == next);
    assert(log_end(longer, l) == longer.len());
}

/// Each record of a run stands in the file, with its checksum, where it
/// says its payload begins.
pub proof fn lemma_records_stand(file: Seq<u8>, pos: int, limit: int, j: int)
    requires
        0 <= pos <= limit <= file.len(),
        file.len() <= u64::MAX,
        0 <= j < records_upto(file, pos, limit).len(),
    ensures
        record_at(file, records_upto(file, pos, limit)[j].file_data_offset - RECORD_HDR_SIZE)
            == Some(records_upto(file, pos, limit)[j]),
    decreases j,
{
    let r = record_at(file, pos)->0;
    let next = pos + framed_len(r.hdr.length as int);
    if j > 0 {
        let rest = records_upto(file, next, limit);
        assert(records_upto(file, pos, limit)[j] == rest[j - 1]);
        lemma_records_stand(file, next, limit, j - 1);
    }
}

/// A record can enter the span map: it frames at least one byte, and
/// neither its logical range nor its payload reaches beyond the 64-bit
/// offsets.
pub open spec fn insertable(r: Record) -> bool {
    &&& r.hdr.length > 0
    &&& r.hdr.logical_offset + r.hdr.length <= u64::MAX
    &&& r.file_data_offset + r.hdr.length <= u64::MAX
}

/// The span map `s` after the record `r` was replayed: the record's range
/// now lies in its payload.  A record that cannot enter the map changes
/// nothing.
pub open spec fn apply_record(s: Seq<(u64, Span)>, r: Record) -> Seq<(u64, Span)> {
    if insertable(r) {
        with_span(s, r.hdr.logical_offset, r.hdr.length, r.file_data_offset, true)
    } else {
        s
    }
}

/// The span map `s` after `records` were replayed in order.
pub open spec fn replay(s: Seq<(u64, Span)>, records: Seq<Record>) -> Seq<(u64, Span)>
    decreases records.len(),
{
    if records.len() == 0 {
        s
    } else {
        apply_record(replay(s, records.drop_last()), records.last())
    }
}

/// Every span of `s` is validated.
pub open spec fn all_validated(s: Seq<(u64, Span)>) -> bool {
    forall|i: int| 0 <= i < s.len() ==> (#[trigger] s[i]).1.validated
}

/// Every span of `s` can be a stretch of a record's payload: it is shorter
/// than a record may be, and it points at a payload that lies in the file
/// behind `base`, with room for a record header before it and for a
/// checksum behind it before `end`.
pub open spec fn spans_in_file(s: Seq<(u64, Span)>, base: int, end: int) -> bool {
    forall|i: int|
        0 <= i < s.len() ==> {
            &&& (#[trigger] s[i]).1.len < MAX_RECORD_SIZE
            &&& base + RECORD_HDR_SIZE <= s[i].1.file_data_offset
            &&& s[i].1.file_data_offset + s[i].1.len + RECORD_TLR_SIZE <= end
        }
}

/// The record `r` lies in the file between `base` and `end`, header,
/// payload and checksum, and is no longer than a record may be.
pub open spec fn record_in_file(r: Record, base: int, end: int) -> bool {
    &&& r.hdr.length < MAX_RECORD_SIZE
    &&& base + RECORD_HDR_SIZE <= r.file_data_offset
    &&& r.file_data_offset + r.hdr.length + RECORD_TLR_SIZE <= end
}

/// Every record of `records` lies in the file between `base` and `end`.
pub open spec fn records_in_file(records: Seq<Record>, base: int, end: int) -> bool {
    forall|i: int| 0 <= i < records.len() ==> record_in_file(#[trigger] records[i], base, end)
}

/// Cutting a span keeps it in the file.
pub proof fn lemma_split_in_file(s: Seq<(u64, Span)>, x: int, base: int, end: int)
    requires
        spans_wf(s),
        spans_in_file(s, base, end),
    ensures
        spans_in_file(split(s, x), base, end),
{
    lemma_split(s, x);
    let t = split(s, x);
    assert forall|i: int| 0 <= i < t.len() implies {
        &&& (#[trigger] t[i]).1.len < MAX_RECORD_SIZE
        &&& base + RECORD_HDR_SIZE <= t[i].1.file_data_offset
        &&& t[i].1.file_data_offset + t[i].1.len + RECORD_TLR_SIZE <= end
    } by {
        let j = split_origin(s, x, i);
        assert(part_of(t[i], s[j]));
        assert(base + RECORD_HDR_SIZE <= s[j].1.file_data_offset);
    }
}

/// Cutting a span keeps both parts validated.
pub proof fn lemma_split_all_validated(s: Seq<(u64, Span)>, x: int)
    requires
        spans_wf(s),
        all_validated(s),
    ensures
        all_validated(split(s, x)),
{
    lemma_split(s, x);
    let t = split(s, x);
    assert forall|i: int| 0 <= i < t.len() implies (#[trigger] t[i]).1.validated by {
        let j = split_origin(s, x, i);
        assert(part_of(t[i], s[j]));
        assert(s[j].1.validated);
    }
}

/// A map whose spans lie in the file still does once a span that lies in
/// the file was added.
pub proof fn lemma_add_in_file(
    s: Seq<(u64, Span)>,
    lo: u64,
    len: u64,
    fdo: u64,
    validated: bool,
    base: int,
    end: int,
)
    requires
        spans_wf(s),
        spans_in_file(s, base, end),
        len < MAX_RECORD_SIZE,
        base + RECORD_HDR_SIZE <= fdo,
        fdo + len + RECORD_TLR_SIZE <= end,
    ensures
        spans_in_file(with_span(s, lo, len, fdo, validated), base, end),
{
    reveal(with_span);
    let t1 = split(s, lo as int);
    lemma_split(s, lo as int);
    lemma_split_in_file(s, lo as int, base, end);
    let t = split(t1, lo + len);
    lemma_split_in_file(t1, lo + len, base, end);
    let u = with_span(s, lo, len, fdo, validated);
    assert forall|i: int| 0 <= i < u.len() implies {
        &&& (#[trigger] u[i]).1.len < MAX_RECORD_SIZE
        &&& base + RECORD_HDR_SIZE <= u[i].1.file_data_offset
        &&& u[i].1.file_data_offset + u[i].1.len + RECORD_TLR_SIZE <= end
    } by {
        lemma_install_member(t, lo, len, fdo, validated, i);
    }
}

/// A map whose spans are all validated still is once a validated span was
/// added.
pub proof fn lemma_add_all_validated(s: Seq<(u64, Span)>, lo: u64, len: u64, fdo: u64)
    requires
        spans_wf(s),
        all_validated(s),
    ensures
        all_validated(with_span(s, lo, len, fdo, true)),
{
    reveal(with_span);
    let t1 = split(s, lo as int);
    lemma_split(s, lo as int);
    lemma_split_all_validated(s, lo as int);
    let t = split(t1, lo + len);
    lemma_split_all_validated(t1, lo + len);
    let u = with_span(s, lo, len, fdo, true);
    assert forall|i: int| 0 <= i < u.len() implies (#[trigger] u[i]).1.validated by {
        lemma_install_member(t, lo, len, fdo, true, i);
    }
}

/// Where every span is validated, the span across any offset is.
pub proof fn lemma_all_validated_straddler(s: Seq<(u64, Span)>, x: int)
    requires
        spans_wf(s),
        all_validated(s),
    ensures
        straddler_validated(s, x),
{
    lemma_rank(s, x);
}

/// Replaying one record that lies in the file keeps the map well formed,
/// validated, and in the file.
pub proof fn lemma_apply_record(s: Seq<(u64, Span)>, r: Record, base: int, end: int)
    requires
        spans_wf(s),
        all_validated(s),
        spans_in_file(s, base, end),
        record_in_file(r, base, end),
    ensures
        spans_wf(apply_record(s, r)),
        all_validated(apply_record(s, r)),
        spans_in_file(apply_record(s, r), base, end),
{
    if insertable(r) {
        lemma_add(s, r.hdr.logical_offset, r.hdr.length, r.file_data_offset, true);
        lemma_add_all_validated(s, r.hdr.logical_offset, r.hdr.length, r.file_data_offset);
        lemma_add_in_file(
            s,
            r.hdr.logical_offset,
            r.hdr.length,
            r.file_data_offset,
            true,
            base,
            end,
        );
    }
}

/// Replaying records that lie in the file keeps the map well formed,
/// validated, and in the file.
pub proof fn lemma_replay(s: Seq<(u64, Span)>, records: Seq<Record>, base: int, end: int)
    requires
        spans_wf(s),
        all_validated(s),
        spans_in_file(s, base, end),
        records_in_file(records, base, end),
    ensures
        spans_wf(replay(s, records)),
        all_validated(replay(s, records)),
        spans_in_file(replay(s, records), base, end),
    decreases records.len(),
{
    if records.len() > 0 {
        let front = records.drop_last();
        assert forall|i: int| 0 <= i < front.len() implies record_in_file(
            #[trigger] front[i],
            base,
            end,
        ) by {
            assert(front[i] == records[i]);
        }
        lemma_replay(s, front, base, end);
        let r = records.last();
        assert(r == records[records.len() - 1]);
        lemma_apply_record(replay(s, front), r, base, end);
    }
}

/// The record `r` holds the logical offset `o` in its payload, at the file
/// position `p`.
pub open spec fn record_holds(r: Record, o: int, p: int) -> bool {
    &&& r.hdr.logical_offset <= o < r.hdr.logical_offset + r.hdr.length
    &&& p == r.file_data_offset + (o - r.hdr.logical_offset)
}

/// Where replay puts a logical offset, one of the replayed records holds
/// it.
pub proof fn lemma_replayed_place(records: Seq<Record>, base: int, end: int, o: int)
    requires
        records_in_file(records, base, end),
    ensures
        locate(replay(Seq::empty(), records), o) matches Some(p) ==> exists|j: int|
            0 <= j < records.len() && record_holds(#[trigger] records[j], o, p),
    decreases records.len(),
{
    if records.len() > 0 {
        let front = records.drop_last();
        let r = records.last();
        assert(r == records[records.len() - 1]);
        assert forall|i: int| 0 <= i < front.len() implies record_in_file(
            #[trigger] front[i],
            base,
            end,
        ) by {
            assert(front[i] == records[i]);
        }
        lemma_replay(Seq::empty(), front, base, end);
        lemma_replayed_place(front, base, end, o);
        let before = replay(Seq::empty(), front);
        if insertable(r) {
            lemma_add_locate(
                before,
                r.hdr.logical_offset,
                r.hdr.length,
                r.file_data_offset,
                true,
                o,
            );
        }
        match locate(replay(Seq::empty(), records), o) {
            Some(p) => {
                if insertable(r) && r.hdr.logical_offset <= o < r.hdr.logical_offset
                    + r.hdr.length {
                    assert(record_holds(records[records.len() - 1], o, p));
                } else {
                    let j = choose|j: int|
                        0 <= j < front.len() && record_holds(#[trigger] front[j], o, p);
                    assert(front[j] == records[j]);
                    assert(record_holds(records[j], o, p));
                }
            },
            None => {},
        }
    }
}

} // verus!
