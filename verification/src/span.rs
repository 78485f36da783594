//! The span map: an ordered interval map from logical offsets to the places
//! in the file where their bytes lie.
//!
//! The map is a vector of `(key, span)` pairs in increasing key order.  Each
//! pair covers the logical bytes `key .. key + span.len`, and no two pairs
//! overlap.
use vstd::prelude::*;

verus! {

/// One contiguous run of logical bytes, and where its payload lies.
#[derive(Clone, Copy, Debug, PartialEq, Eq, Structural)]
pub struct Span {
    /// How long is the data in this span (in a store, less than MAX_RECORD_SIZE).
    pub len: u64,
    /// Where in the physical file the span data is (i.e. after header).
    pub file_data_offset: u64,
    /// Has the record behind this span been read back and found intact since
    /// it was written?  A span that replay found is validated from the start.
    pub validated: bool,
}

/// The first logical offset behind the entry `e`.
pub open spec fn span_end(e: (u64, Span)) -> int {
    e.0 + e.1.len
}

/// The entry `e` covers the logical offset `o`.
pub open spec fn covers(e: (u64, Span), o: int) -> bool {
    e.0 <= o < span_end(e)
}

/// The entry `e` begins before `x` and ends behind it.
pub open spec fn straddles(e: (u64, Span), x: int) -> bool {
    e.0 < x < span_end(e)
}

/// The invariant of a span map: no span is empty, none reaches beyond the
/// 64-bit offsets of the logical space or of the file, and the spans come in
/// key order without overlap.
pub open spec fn spans_wf(s: Seq<(u64, Span)>) -> bool {
    &&& forall|i: int|
        0 <= i < s.len() ==> {
            &&& (#[trigger] s[i]).1.len > 0
            &&& span_end(s[i]) <= u64::MAX
            &&& s[i].1.file_data_offset + s[i].1.len <= u64::MAX
        }
    &&& forall|i: int, j: int|
        0 <= i < j < s.len() ==> span_end(#[trigger] s[i]) <= (#[trigger] s[j]).0
}

/// How many entries of `s` have a key below `x`.
pub open spec fn rank(s: Seq<(u64, Span)>, x: int) -> int
    decreases s.len(),
{
    if s.len() == 0 {
        0
    } else if s.last().0 < x {
        s.len() as int
    } else {
        rank(s.drop_last(), x)
    }
}

/// Where in the file the logical byte `o` lies: in the payload of the span
/// that covers `o`, as far in as `o` is behind the span's key.  `None` where
/// no span covers `o`.
pub open spec fn locate(s: Seq<(u64, Span)>, o: int) -> Option<int> {
    let r = rank(s, o + 1);
    if r > 0 && o < span_end(s[r - 1]) {
        Some(s[r - 1].1.file_data_offset + (o - s[r - 1].0))
    } else {
        None
    }
}

/// The logical size: the end of the last span, 0 for an empty map.
pub open spec fn logical_size(s: Seq<(u64, Span)>) -> int {
    if s.len() == 0 {
        0
    } else {
        span_end(s.last())
    }
}

/// The logical byte at `o` over the file `file`: the payload byte that `o`
/// is mapped to, and 0 in a hole.
pub open spec fn logical_byte(s: Seq<(u64, Span)>, file: Seq<u8>, o: int) -> u8 {
    match locate(s, o) {
        Some(p) => if 0 <= p < file.len() {
            file[p]
        } else {
            0
        },
        None => 0,
    }
}

/// `rank` splits a well-formed map where the keys pass `x`.
pub proof fn lemma_rank(s: Seq<(u64, Span)>, x: int)
    requires
        spans_wf(s),
    ensures
        0 <= rank(s, x) <= s.len(),
        forall|i: int| 0 <= i < rank(s, x) ==> (#[trigger] s[i]).0 < x,
        forall|i: int| rank(s, x) <= i < s.len() ==> (#[trigger] s[i]).0 >= x,
    decreases s.len(),
{
    if s.len() > 0 {
        let t = s.drop_last();
        assert(spans_wf(t)) by {
            assert forall|i: int| 0 <= i < t.len() implies {
                &&& (#[trigger] t[i]).1.len > 0
                &&& span_end(t[i]) <= u64::MAX
                &&& t[i].1.file_data_offset + t[i].1.len <= u64::MAX
            } by {
                assert(t[i] == s[i]);
            }
            assert forall|i: int, j: int| 0 <= i < j < t.len() implies span_end(#[trigger] t[i])
                <= (#[trigger] t[j]).0 by {
                assert(t[i] == s[i] && t[j] == s[j]);
            }
        }
        lemma_rank(t, x);
        if s.last().0 < x {
            assert forall|i: int| 0 <= i < s.len() implies (#[trigger] s[i]).0 < x by {
                if i < s.len() - 1 {
                    assert(span_end(s[i]) <= s[s.len() - 1].0);
                }
            }
        } else {
            assert forall|i: int| 0 <= i < rank(s, x) implies (#[trigger] s[i]).0 < x by {
                assert(t[i] == s[i]);
            }
            assert forall|i: int| rank(s, x) <= i < s.len() implies (#[trigger] s[i]).0 >= x by {
                if i < s.len() - 1 {
                    assert(t[i] == s[i]);
                }
            }
        }
    }
}

/// The only place where the keys of a well-formed map pass `x` is `rank`.
pub proof fn lemma_rank_is(s: Seq<(u64, Span)>, x: int, r: int)
    requires
        spans_wf(s),
        0 <= r <= s.len(),
        forall|i: int| 0 <= i < r ==> (#[trigger] s[i]).0 < x,
        forall|i: int| r <= i < s.len() ==> (#[trigger] s[i]).0 >= x,
    ensures
        rank(s, x) == r,
{
    lemma_rank(s, x);
    let q = rank(s, x);
    if q < r {
        assert(s[q].0 >= x);
    } else if q > r {
        assert(s[r].0 >= x);
    }
}

/// A rank is an index into the map, or its length.
pub proof fn lemma_rank_range(s: Seq<(u64, Span)>, x: int)
    ensures
        0 <= rank(s, x) <= s.len(),
    decreases s.len(),
{
    if s.len() > 0 && !(s.last().0 < x) {
        lemma_rank_range(s.drop_last(), x);
    }
}

/// A larger bound has no smaller rank.
pub proof fn lemma_rank_monotone(s: Seq<(u64, Span)>, x: int, y: int)
    requires
        spans_wf(s),
        x <= y,
    ensures
        0 <= rank(s, x) <= rank(s, y) <= s.len(),
{
    lemma_rank(s, x);
    lemma_rank(s, y);
    if rank(s, x) > rank(s, y) {
        assert(s[rank(s, y)].0 >= y);
    }
}

/// A covered offset is located in the span that covers it.
pub proof fn lemma_locate_hit(s: Seq<(u64, Span)>, o: int, i: int)
    requires
        spans_wf(s),
        0 <= i < s.len(),
        covers(s[i], o),
    ensures
        locate(s, o) == Some(s[i].1.file_data_offset + (o - s[i].0)),
        rank(s, o + 1) == i + 1,
{
    lemma_rank(s, o + 1);
    let r = rank(s, o + 1);
    if r <= i {
        assert(s[i].0 >= o + 1);
    } else if r > i + 1 {
        assert(s[r - 1].0 < o + 1);
        assert(span_end(s[i]) <= s[r - 1].0);
    }
}

/// An offset that no span covers is located nowhere.
pub proof fn lemma_locate_miss(s: Seq<(u64, Span)>, o: int)
    requires
        spans_wf(s),
        forall|i: int| 0 <= i < s.len() ==> !covers(#[trigger] s[i], o),
    ensures
        locate(s, o) is None,
{
    lemma_rank(s, o + 1);
    let r = rank(s, o + 1);
    if r > 0 {
        assert(s[r - 1].0 < o + 1);
        assert(!covers(s[r - 1], o));
    }
}

/// What `locate` found: the one span that covers the offset, or that none
/// does.
pub proof fn lemma_locate(s: Seq<(u64, Span)>, o: int)
    requires
        spans_wf(s),
    ensures
        match locate(s, o) {
            Some(p) => {
                let i = rank(s, o + 1) - 1;
                0 <= i < s.len() && covers(s[i], o) && p == s[i].1.file_data_offset + (o - s[i].0)
            },
            None => forall|i: int| 0 <= i < s.len() ==> !covers(#[trigger] s[i], o),
        },
{
    lemma_rank(s, o + 1);
    let r = rank(s, o + 1);
    if locate(s, o) is Some {
        assert(s[r - 1].0 < o + 1);
    } else {
        assert forall|i: int| 0 <= i < s.len() implies !covers(#[trigger] s[i], o) by {
            if covers(s[i], o) {
                lemma_locate_hit(s, o, i);
            }
        }
    }
}

/// The logical size is one more than the last offset that has a place:
/// nothing at or behind it has one, and in a map that is not empty the
/// offset just before it has.
pub proof fn lemma_size_is_last_place(s: Seq<(u64, Span)>)
    requires
        spans_wf(s),
    ensures
        forall|o: int| o >= logical_size(s) ==> #[trigger] locate(s, o) is None,
        logical_size(s) > 0 ==> locate(s, logical_size(s) - 1) is Some,
        logical_size(s) >= 0,
{
    assert forall|o: int| o >= logical_size(s) implies #[trigger] locate(s, o) is None by {
        lemma_locate(s, o);
        if locate(s, o) is Some {
            let i = crate::span::rank(s, o + 1) - 1;
            if i < s.len() - 1 {
                assert(crate::span::span_end(s[i]) <= s[s.len() - 1].0);
            }
        }
    }
    if s.len() > 0 {
        crate::span::lemma_locate_hit(s, logical_size(s) - 1, s.len() - 1);
    }
}

/// Two well-formed maps that hold every logical offset at the same place
/// have the same logical size.
pub proof fn lemma_same_places_same_size(a: Seq<(u64, Span)>, b: Seq<(u64, Span)>)
    requires
        spans_wf(a),
        spans_wf(b),
        forall|o: int| #[trigger] locate(a, o) == locate(b, o),
    ensures
        logical_size(a) == logical_size(b),
{
    lemma_size_is_last_place(a);
    lemma_size_is_last_place(b);
    let sa = logical_size(a);
    let sb = logical_size(b);
    if sa < sb {
        assert(locate(b, sb - 1) is Some);
        assert(locate(a, sb - 1) == locate(b, sb - 1));
    } else if sb < sa {
        assert(locate(a, sa - 1) is Some);
        assert(locate(a, sa - 1) == locate(b, sa - 1));
    }
}

/// The number of entries of `spans` with a key below `x`, by binary search.
pub fn lower_bound(spans: &Vec<(u64, Span)>, x: u64) -> (r: usize)
    requires
        spans_wf(spans@),
    ensures
        r == rank(spans@, x as int),
        r <= spans@.len(),
{
    let mut lo: usize = 0;
    let mut hi: usize = spans.len();
    while lo < hi
        invariant
            spans_wf(spans@),
            lo <= hi <= spans@.len(),
            forall|i: int| 0 <= i < lo ==> (#[trigger] spans@[i]).0 < x,
            forall|i: int| hi <= i < spans@.len() ==> (#[trigger] spans@[i]).0 >= x,
        decreases hi - lo,
    {
        let mid: usize = lo + (hi - lo) / 2;
        if spans[mid].0 < x {
            assert forall|i: int| 0 <= i < mid + 1 implies (#[trigger] spans@[i]).0 < x by {
                if i < mid {
                    assert(span_end(spans@[i]) <= spans@[mid as int].0);
                }
            }
            lo = mid + 1;
        } else {
            assert forall|i: int| mid <= i < spans@.len() implies (#[trigger] spans@[i]).0 >= x by {
                if i > mid {
                    assert(span_end(spans@[mid as int]) <= spans@[i].0);
                }
            }
            hi = mid;
        }
    }
    proof {
        lemma_rank_is(spans@, x as int, lo as int);
    }
    lo
}

/// Whether `spans` is a well-formed span map: no zero-length spans, no
/// overlapping, nothing beyond the 64-bit offsets.
pub fn debug_check_spans(spans: &Vec<(u64, Span)>) -> (ok: bool)
    ensures
        ok == spans_wf(spans@),
{
    let mut prev_end: u64 = 0;
    let mut i: usize = 0;
    while i < spans.len()
        invariant
            i <= spans@.len(),
            spans_wf(spans@.take(i as int)),
            i == 0 ==> prev_end == 0,
            i > 0 ==> prev_end == span_end(spans@[i - 1]),
        decreases spans@.len() - i,
    {
        let (off, span) = spans[i];
        if span.len == 0 || span.len > u64::MAX - off || span.len > u64::MAX
            - span.file_data_offset {
            return false;
        }
        if off < prev_end {
            assert(span_end(spans@[i - 1]) > spans@[i as int].0);
            return false;
        }
        proof {
            let t = spans@.take(i as int);
            let u = spans@.take(i + 1);
            assert forall|j: int| 0 <= j < u.len() implies {
                &&& (#[trigger] u[j]).1.len > 0
                &&& span_end(u[j]) <= u64::MAX
                &&& u[j].1.file_data_offset + u[j].1.len <= u64::MAX
            } by {
                if j < i {
                    assert(u[j] == t[j]);
                }
            }
            assert forall|j: int, k: int| 0 <= j < k < u.len() implies span_end(#[trigger] u[j])
                <= (#[trigger] u[k]).0 by {
                assert(u[j] == t[j]);
                if k < i {
                    assert(u[k] == t[k]);
                } else if j < i - 1 {
                    assert(span_end(t[j]) <= t[i - 1].0);
                }
            }
        }
        prev_end = off + span.len;
        i = i + 1;
    }
    assert(spans@.take(i as int) =~= spans@);
    true
}

/// The part of `e` before `x`.
pub open spec fn split_left(e: (u64, Span), x: int) -> (u64, Span) {
    (
        e.0,
        Span {
            len: (x - e.0) as u64,
            file_data_offset: e.1.file_data_offset,
            validated: e.1.validated,
        },
    )
}

/// The part of `e` from `x` on: it begins as far into the payload as `x` is
/// behind the key of `e`.
pub open spec fn split_right(e: (u64, Span), x: int) -> (u64, Span) {
    (
        x as u64,
        Span {
            len: (span_end(e) - x) as u64,
            file_data_offset: (e.1.file_data_offset + (x - e.0)) as u64,
            validated: e.1.validated,
        },
    )
}

/// The map `s` with the span that straddles `x` cut in two at `x`; `s`
/// itself where no span straddles `x`.
pub open spec fn split(s: Seq<(u64, Span)>, x: int) -> Seq<(u64, Span)> {
    let r = rank(s, x);
    if r > 0 && straddles(s[r - 1], x) {
        s.subrange(0, r - 1) + seq![split_left(s[r - 1], x), split_right(s[r - 1], x)]
            + s.subrange(r, s.len() as int)
    } else {
        s
    }
}

/// The span that straddles `x`, if there is one, is validated.
pub open spec fn straddler_validated(s: Seq<(u64, Span)>, x: int) -> bool {
    let r = rank(s, x);
    r > 0 && straddles(s[r - 1], x) ==> s[r - 1].1.validated
}

/// The entry `part` lies inside the entry `whole` and maps its offsets to
/// the same places in the file, with the same tag.
pub open spec fn part_of(part: (u64, Span), whole: (u64, Span)) -> bool {
    &&& whole.0 <= part.0
    &&& span_end(part) <= span_end(whole)
    &&& part.1.file_data_offset - part.0 == whole.1.file_data_offset - whole.0
    &&& part.1.validated == whole.1.validated
}

/// The index in `s` of the entry that the entry `i` of `split(s, x)` came from.
pub open spec fn split_origin(s: Seq<(u64, Span)>, x: int, i: int) -> int {
    let r = rank(s, x);
    if r > 0 && straddles(s[r - 1], x) && i >= r {
        i - 1
    } else {
        i
    }
}

/// Cutting keeps the map well formed, leaves no span across the cut, and
/// makes every entry a part of the entry it came from.
pub proof fn lemma_split(s: Seq<(u64, Span)>, x: int)
    requires
        spans_wf(s),
    ensures
        spans_wf(split(s, x)),
        forall|i: int| 0 <= i < split(s, x).len() ==> !straddles(#[trigger] split(s, x)[i], x),
        forall|i: int|
            0 <= i < split(s, x).len() ==> {
                &&& 0 <= split_origin(s, x, i) < s.len()
                &&& part_of(#[trigger] split(s, x)[i], s[split_origin(s, x, i)])
                &&& split(s, x)[i] == s[split_origin(s, x, i)] || straddles(
                    s[split_origin(s, x, i)],
                    x,
                )
            },
        logical_size(split(s, x)) == logical_size(s),
{
    lemma_rank(s, x);
    let r = rank(s, x);
    let t = split(s, x);
    if r > 0 && straddles(s[r - 1], x) {
        let e = s[r - 1];
        assert(t.len() == s.len() + 1);
        assert forall|i: int| 0 <= i < t.len() implies {
            &&& #[trigger] t[i] == if i < r - 1 {
                s[i]
            } else if i == r - 1 {
                split_left(e, x)
            } else if i == r {
                split_right(e, x)
            } else {
                s[i - 1]
            }
        } by {}
        assert forall|i: int| 0 <= i < t.len() implies {
            &&& (#[trigger] t[i]).1.len > 0
            &&& span_end(t[i]) <= u64::MAX
            &&& t[i].1.file_data_offset + t[i].1.len <= u64::MAX
            &&& !straddles(t[i], x)
            &&& part_of(t[i], s[split_origin(s, x, i)])
            &&& t[i] == s[split_origin(s, x, i)] || straddles(s[split_origin(s, x, i)], x)
        } by {
            if i < r - 1 {
                assert(span_end(s[i]) <= s[r - 1].0);
            } else if i > r {
                assert(s[i - 1].0 >= x);
            }
        }
        assert forall|i: int, j: int| 0 <= i < j < t.len() implies span_end(#[trigger] t[i]) <= (
        #[trigger] t[j]).0 by {
            let oi = split_origin(s, x, i);
            let oj = split_origin(s, x, j);
            if oi < oj {
                assert(span_end(s[oi]) <= s[oj].0);
            }
        }
        if r == s.len() {
            assert(t.last() == split_right(e, x));
        } else {
            assert(t.last() == s.last());
        }
    } else {
        assert forall|i: int| 0 <= i < t.len() implies !straddles(#[trigger] t[i], x) by {
            if i < r - 1 {
                assert(span_end(s[i]) <= s[r - 1].0);
            }
        }
    }
}

/// Cutting changes no location: every logical offset lies where it lay.
pub proof fn lemma_split_locate(s: Seq<(u64, Span)>, x: int, o: int)
    requires
        spans_wf(s),
    ensures
        locate(split(s, x), o) == locate(s, o),
{
    lemma_rank(s, x);
    lemma_split(s, x);
    lemma_locate(s, o);
    let r = rank(s, x);
    let t = split(s, x);
    if r > 0 && straddles(s[r - 1], x) {
        let e = s[r - 1];
        match locate(s, o) {
            Some(p) => {
                let i = rank(s, o + 1) - 1;
                if i < r - 1 {
                    assert(t[i] == s[i]);
                    lemma_locate_hit(t, o, i);
                } else if i > r - 1 {
                    assert(t[i + 1] == s[i]);
                    lemma_locate_hit(t, o, i + 1);
                } else if o < x {
                    assert(t[r - 1] == split_left(e, x));
                    lemma_locate_hit(t, o, r - 1);
                } else {
                    assert(t[r] == split_right(e, x));
                    lemma_locate_hit(t, o, r);
                }
            },
            None => {
                assert forall|i: int| 0 <= i < t.len() implies !covers(#[trigger] t[i], o) by {
                    let j = split_origin(s, x, i);
                    assert(part_of(t[i], s[j]));
                    assert(!covers(s[j], o));
                }
                lemma_locate_miss(t, o);
            },
        }
    }
}

/// If a span overlaps logical_offset, split it in two.
///
/// The span must have been validated: once split, neither half corresponds
/// to a record on disk, so neither could be validated afterwards.
pub fn split_span(spans: &mut Vec<(u64, Span)>, logical_offset: u64)
    requires
        spans_wf(old(spans)@),
        straddler_validated(old(spans)@, logical_offset as int),
    ensures
        final(spans)@ == split(old(spans)@, logical_offset as int),
        spans_wf(final(spans)@),
        forall|o: int| #[trigger] locate(final(spans)@, o) == locate(old(spans)@, o),
        logical_size(final(spans)@) == logical_size(old(spans)@),
{
    proof {
        lemma_split(spans@, logical_offset as int);
        lemma_rank(spans@, logical_offset as int);
        assert forall|o: int| #[trigger]
            locate(split(spans@, logical_offset as int), o) == locate(spans@, o) by {
            lemma_split_locate(spans@, logical_offset as int, o);
        }
    }
    let p = lower_bound(spans, logical_offset);
    if p > 0 {
        let (offset, span) = spans[p - 1];
        if span.len > logical_offset - offset {
            let before_len = logical_offset - offset;
            let newspan = Span {
                len: span.len - before_len,
                file_data_offset: span.file_data_offset + before_len,
                validated: span.validated,
            };
            let shortened = Span {
                len: before_len,
                file_data_offset: span.file_data_offset,
                validated: span.validated,
            };
            spans.insert(p, (logical_offset, newspan));
            spans.set(p - 1, (offset, shortened));
            assert(spans@ =~= split(old(spans)@, logical_offset as int));
        }
    }
}

/// No span of `s` straddles `x`.
pub open spec fn clear_at(s: Seq<(u64, Span)>, x: int) -> bool {
    forall|i: int| 0 <= i < s.len() ==> !straddles(#[trigger] s[i], x)
}

/// The span that covers `lo .. lo + len` and points at `fdo`.
pub open spec fn new_entry(lo: u64, len: u64, fdo: u64, validated: bool) -> (u64, Span) {
    (lo, Span { len: len, file_data_offset: fdo, validated: validated })
}

/// The map `t`, which no span straddles at either end of `lo .. lo + len`,
/// with the spans inside that range replaced by one span for all of it.
pub open spec fn install(
    t: Seq<(u64, Span)>,
    lo: u64,
    len: u64,
    fdo: u64,
    validated: bool,
) -> Seq<(u64, Span)> {
    t.subrange(0, rank(t, lo as int)) + seq![new_entry(lo, len, fdo, validated)] + t.subrange(
        rank(t, lo + len),
        t.len() as int,
    )
}

/// The map `s` after the logical bytes `lo .. lo + len` have been given a
/// new place: the spans across either end are cut there, the spans whose
/// keys lie in the range leave, and one span for the whole range enters.
#[verifier::opaque]
pub open spec fn with_span(
    s: Seq<(u64, Span)>,
    lo: u64,
    len: u64,
    fdo: u64,
    validated: bool,
) -> Seq<(u64, Span)> {
    install(split(split(s, lo as int), lo + len), lo, len, fdo, validated)
}

/// A span that does not straddle `y` has no part that does.
pub proof fn lemma_split_keeps_clear(s: Seq<(u64, Span)>, x: int, y: int)
    requires
        spans_wf(s),
        clear_at(s, y),
    ensures
        clear_at(split(s, x), y),
{
    lemma_split(s, x);
    let t = split(s, x);
    assert forall|i: int| 0 <= i < t.len() implies !straddles(#[trigger] t[i], y) by {
        let j = split_origin(s, x, i);
        assert(part_of(t[i], s[j]));
        assert(!straddles(s[j], y));
    }
}

/// The span that straddles `y` after a cut at `x` is a part of the span that
/// straddled `y` before, and is validated if that one was.
pub proof fn lemma_split_keeps_validated(s: Seq<(u64, Span)>, x: int, y: int)
    requires
        spans_wf(s),
        straddler_validated(s, y),
    ensures
        straddler_validated(split(s, x), y),
{
    lemma_split(s, x);
    let t = split(s, x);
    lemma_rank(t, y);
    lemma_rank(s, y);
    let r = rank(t, y);
    if r > 0 && straddles(t[r - 1], y) {
        let j = split_origin(s, x, r - 1);
        assert(part_of(t[r - 1], s[j]));
        assert(straddles(s[j], y));
        let q = rank(s, y);
        if j >= q {
            assert(s[j].0 >= y);
        } else if j < q - 1 {
            assert(span_end(s[j]) <= s[q - 1].0);
        }
    }
}

/// The map is clear at both ends of a range once it has been cut there.
pub proof fn lemma_cut_twice(s: Seq<(u64, Span)>, lo: int, hi: int)
    requires
        spans_wf(s),
    ensures
        spans_wf(split(split(s, lo), hi)),
        clear_at(split(split(s, lo), hi), lo),
        clear_at(split(split(s, lo), hi), hi),
        logical_size(split(split(s, lo), hi)) == logical_size(s),
{
    lemma_split(s, lo);
    lemma_split(split(s, lo), hi);
    lemma_split_keeps_clear(split(s, lo), hi, lo);
}

/// The entries of `install(t, ..)`: those of `t` before the range, the new
/// one, and those of `t` behind the range.
pub proof fn lemma_install_entries(
    t: Seq<(u64, Span)>,
    lo: u64,
    len: u64,
    fdo: u64,
    validated: bool,
)
    requires
        spans_wf(t),
        clear_at(t, lo as int),
        clear_at(t, lo + len),
        len > 0,
    ensures
        ({
            let a = rank(t, lo as int);
            let b = rank(t, lo + len);
            let u = install(t, lo, len, fdo, validated);
            &&& 0 <= a <= b <= t.len()
            &&& u.len() == a + 1 + (t.len() - b)
            &&& forall|i: int| 0 <= i < a ==> #[trigger] u[i] == t[i]
            &&& u[a] == new_entry(lo, len, fdo, validated)
            &&& forall|i: int| a < i < u.len() ==> #[trigger] u[i] == t[i - a - 1 + b]
            &&& forall|i: int| 0 <= i < a ==> span_end(#[trigger] t[i]) <= lo
            &&& forall|i: int| 0 <= i < b ==> span_end(#[trigger] t[i]) <= lo + len
            &&& forall|i: int| b <= i < t.len() ==> (#[trigger] t[i]).0 >= lo + len
        }),
{
    let hi = lo + len;
    lemma_rank(t, lo as int);
    lemma_rank(t, hi);
    let a = rank(t, lo as int);
    let b = rank(t, hi);
    if a > b {
        assert(t[b].0 >= hi);
    }
    assert forall|i: int| 0 <= i < a implies span_end(#[trigger] t[i]) <= lo by {
        assert(!straddles(t[i], lo as int));
    }
    assert forall|i: int| 0 <= i < b implies span_end(#[trigger] t[i]) <= hi by {
        assert(!straddles(t[i], hi));
    }
}

/// Each entry of `install(t, ..)` is the new entry or an entry of `t`.
pub proof fn lemma_install_member(
    t: Seq<(u64, Span)>,
    lo: u64,
    len: u64,
    fdo: u64,
    validated: bool,
    i: int,
)
    requires
        0 <= i < install(t, lo, len, fdo, validated).len(),
    ensures
        install(t, lo, len, fdo, validated)[i] == new_entry(lo, len, fdo, validated) || exists|
            j: int,
        | 0 <= j < t.len() && install(t, lo, len, fdo, validated)[i] == #[trigger] t[j],
{
    let a = rank(t, lo as int);
    let b = rank(t, lo + len);
    let u = install(t, lo, len, fdo, validated);
    let head = t.subrange(0, a);
    if 0 <= a <= t.len() && 0 <= b <= t.len() {
        if i < a {
            assert(u[i] == t[i]);
        } else if i > a {
            assert(u[i] == t[i - a - 1 + b]);
        }
    } else {
        lemma_rank_range(t, lo as int);
        lemma_rank_range(t, lo + len);
    }
}

/// Installing a span in a map that is clear at both ends of its range keeps
/// the map well formed; the logical size becomes the larger of the old size
/// and the end of the new span.
pub proof fn lemma_install(t: Seq<(u64, Span)>, lo: u64, len: u64, fdo: u64, validated: bool)
    requires
        spans_wf(t),
        clear_at(t, lo as int),
        clear_at(t, lo + len),
        len > 0,
        lo + len <= u64::MAX,
        fdo + len <= u64::MAX,
    ensures
        spans_wf(install(t, lo, len, fdo, validated)),
        logical_size(install(t, lo, len, fdo, validated)) == if logical_size(t) >= lo + len {
            logical_size(t)
        } else {
            lo + len
        },
{
    let hi = lo + len;
    lemma_install_entries(t, lo, len, fdo, validated);
    let a = rank(t, lo as int);
    let b = rank(t, hi);
    let u = install(t, lo, len, fdo, validated);
    assert forall|i: int| 0 <= i < u.len() implies {
        &&& (#[trigger] u[i]).1.len > 0
        &&& span_end(u[i]) <= u64::MAX
        &&& u[i].1.file_data_offset + u[i].1.len <= u64::MAX
    } by {
        if i < a {
            assert(u[i] == t[i]);
        } else if i > a {
            assert(u[i] == t[i - a - 1 + b]);
        }
    }
    assert forall|i: int, j: int| 0 <= i < j < u.len() implies span_end(#[trigger] u[i]) <= (
    #[trigger] u[j]).0 by {
        if i < a {
            assert(u[i] == t[i]);
            assert(span_end(t[i]) <= lo);
            if j > a {
                assert(u[j] == t[j - a - 1 + b]);
                assert(t[j - a - 1 + b].0 >= hi);
            } else if j < a {
                assert(u[j] == t[j]);
            }
        } else if i == a {
            assert(u[j] == t[j - a - 1 + b]);
            assert(t[j - a - 1 + b].0 >= hi);
        } else {
            assert(u[i] == t[i - a - 1 + b]);
            assert(u[j] == t[j - a - 1 + b]);
            assert(span_end(t[i - a - 1 + b]) <= t[j - a - 1 + b].0);
        }
    }
    if b < t.len() {
        assert(u[u.len() - 1] == t[t.len() - 1]);
        assert(t[t.len() - 1].0 >= hi);
    } else {
        if t.len() > 0 {
            assert(span_end(t[t.len() - 1]) <= hi);
        }
    }
}

/// Installing a span gives its range the new place and leaves every other
/// logical offset where it lay.
pub proof fn lemma_install_locate(
    t: Seq<(u64, Span)>,
    lo: u64,
    len: u64,
    fdo: u64,
    validated: bool,
    o: int,
)
    requires
        spans_wf(t),
        clear_at(t, lo as int),
        clear_at(t, lo + len),
        len > 0,
        lo + len <= u64::MAX,
        fdo + len <= u64::MAX,
    ensures
        locate(install(t, lo, len, fdo, validated), o) == if lo <= o < lo + len {
            Some(fdo + (o - lo))
        } else {
            locate(t, o)
        },
{
    let hi = lo + len;
    lemma_install_entries(t, lo, len, fdo, validated);
    lemma_install(t, lo, len, fdo, validated);
    let a = rank(t, lo as int);
    let b = rank(t, hi);
    let u = install(t, lo, len, fdo, validated);
    if lo <= o < hi {
        lemma_locate_hit(u, o, a);
    } else {
        lemma_locate(t, o);
        match locate(t, o) {
            Some(p) => {
                let i = rank(t, o + 1) - 1;
                assert(covers(t[i], o));
                if o < lo {
                    if i >= b {
                        assert(t[i].0 >= hi);
                    } else if i >= a {
                        lemma_rank(t, lo as int);
                        assert(t[i].0 >= lo);
                    }
                    assert(u[i] == t[i]);
                    lemma_locate_hit(u, o, i);
                } else {
                    if i < b {
                        assert(span_end(t[i]) <= hi);
                    }
                    assert(u[i - b + a + 1] == t[i]);
                    lemma_locate_hit(u, o, i - b + a + 1);
                }
            },
            None => {
                assert forall|i: int| 0 <= i < u.len() implies !covers(#[trigger] u[i], o) by {
                    if i < a {
                        assert(u[i] == t[i]);
                        assert(!covers(t[i], o));
                    } else if i > a {
                        assert(u[i] == t[i - a - 1 + b]);
                        assert(!covers(t[i - a - 1 + b], o));
                    }
                }
                lemma_locate_miss(u, o);
            },
        }
    }
}

/// Adding a span keeps the map well formed, and the logical size becomes
/// the larger of the old size and the end of the new span.
pub proof fn lemma_add(s: Seq<(u64, Span)>, lo: u64, len: u64, fdo: u64, validated: bool)
    requires
        spans_wf(s),
        len > 0,
        lo + len <= u64::MAX,
        fdo + len <= u64::MAX,
    ensures
        spans_wf(with_span(s, lo, len, fdo, validated)),
        logical_size(with_span(s, lo, len, fdo, validated)) == if logical_size(s) >= lo + len {
            logical_size(s)
        } else {
            lo + len
        },
{
    reveal(with_span);
    lemma_cut_twice(s, lo as int, lo + len);
    lemma_install(split(split(s, lo as int), lo + len), lo, len, fdo, validated);
}

/// Adding a span gives its range the new place and leaves every other
/// logical offset where it lay.
pub proof fn lemma_add_locate(
    s: Seq<(u64, Span)>,
    lo: u64,
    len: u64,
    fdo: u64,
    validated: bool,
    o: int,
)
    requires
        spans_wf(s),
        len > 0,
        lo + len <= u64::MAX,
        fdo + len <= u64::MAX,
    ensures
        locate(with_span(s, lo, len, fdo, validated), o) == if lo <= o < lo + len {
            Some(fdo + (o - lo))
        } else {
            locate(s, o)
        },
{
    reveal(with_span);
    lemma_cut_twice(s, lo as int, lo + len);
    lemma_split(s, lo as int);
    lemma_split_locate(s, lo as int, o);
    lemma_split_locate(split(s, lo as int), lo + len, o);
    lemma_install_locate(split(split(s, lo as int), lo + len), lo, len, fdo, validated, o);
}

/// Each entry of `with_span(s, ..)` is the new entry or a part of an entry
/// of `s`.
pub proof fn lemma_add_member(
    s: Seq<(u64, Span)>,
    lo: u64,
    len: u64,
    fdo: u64,
    validated: bool,
    i: int,
)
    requires
        spans_wf(s),
        0 <= i < with_span(s, lo, len, fdo, validated).len(),
    ensures
        with_span(s, lo, len, fdo, validated)[i] == new_entry(lo, len, fdo, validated) || exists|
            j: int,
        |
            0 <= j < s.len() && part_of(with_span(s, lo, len, fdo, validated)[i], #[trigger] s[j]),
{
    reveal(with_span);
    let t1 = split(s, lo as int);
    let t = split(t1, lo + len);
    let u = with_span(s, lo, len, fdo, validated);
    lemma_split(s, lo as int);
    lemma_split(t1, lo + len);
    lemma_install_member(t, lo, len, fdo, validated, i);
    if u[i] != new_entry(lo, len, fdo, validated) {
        let j2 = choose|j: int| 0 <= j < t.len() && u[i] == #[trigger] t[j];
        let j1 = split_origin(t1, lo + len, j2);
        assert(part_of(t[j2], t1[j1]));
        let j0 = split_origin(s, lo as int, j1);
        assert(part_of(t1[j1], s[j0]));
        assert(part_of(u[i], s[j0]));
    }
}

/// Every span that overlaps `lo .. hi` is validated.
pub open spec fn validated_in(s: Seq<(u64, Span)>, lo: int, hi: int) -> bool {
    forall|i: int|
        0 <= i < s.len() && (#[trigger] s[i]).0 < hi && span_end(s[i]) > lo ==> s[i].1.validated
}

/// A map whose spans over `lo .. hi` are validated has validated spans
/// across every offset from `lo` up to `hi`.
pub proof fn lemma_validated_in_straddler(s: Seq<(u64, Span)>, lo: int, hi: int, x: int)
    requires
        spans_wf(s),
        validated_in(s, lo, hi),
        lo <= x <= hi,
        lo < hi,
    ensures
        straddler_validated(s, x),
{
    lemma_rank(s, x);
}

/// Where the spans over the range of a new span were validated, each entry
/// of `with_span(s, ..)` is the new entry, an entry of `s` as it was, or a
/// validated part of one: only validated spans are cut.
pub proof fn lemma_add_member_whole(
    s: Seq<(u64, Span)>,
    lo: u64,
    len: u64,
    fdo: u64,
    validated: bool,
    i: int,
)
    requires
        spans_wf(s),
        validated_in(s, lo as int, lo + len),
        0 <= i < with_span(s, lo, len, fdo, validated).len(),
    ensures
        ({
            let e = with_span(s, lo, len, fdo, validated)[i];
            e == new_entry(lo, len, fdo, validated) || e.1.validated || exists|j: int|
                0 <= j < s.len() && e == #[trigger] s[j]
        }),
{
    reveal(with_span);
    let t1 = split(s, lo as int);
    let t = split(t1, lo + len);
    let u = with_span(s, lo, len, fdo, validated);
    lemma_split(s, lo as int);
    lemma_split(t1, lo + len);
    lemma_install_member(t, lo, len, fdo, validated, i);
    if u[i] != new_entry(lo, len, fdo, validated) {
        let j2 = choose|j: int| 0 <= j < t.len() && u[i] == #[trigger] t[j];
        let j1 = split_origin(t1, lo + len, j2);
        let j0 = split_origin(s, lo as int, j1);
        assert(part_of(t[j2], t1[j1]));
        assert(part_of(t1[j1], s[j0]));
        if t[j2] != t1[j1] {
            assert(straddles(t1[j1], lo + len));
            assert(straddles(s[j0], lo + len));
            assert(s[j0].1.validated);
        } else if t1[j1] != s[j0] {
            assert(straddles(s[j0], lo as int));
            assert(s[j0].1.validated);
        } else {
            assert(u[i] == s[j0]);
        }
    }
}

/// Where the spans over `lo .. hi` were validated, those over what is left
/// of that range behind a new span are validated too.
pub proof fn lemma_add_validated_in(
    s: Seq<(u64, Span)>,
    lo: u64,
    len: u64,
    fdo: u64,
    validated: bool,
    hi: int,
)
    requires
        spans_wf(s),
        validated_in(s, lo as int, hi),
    ensures
        validated_in(with_span(s, lo, len, fdo, validated), lo + len, hi),
{
    let u = with_span(s, lo, len, fdo, validated);
    assert forall|i: int|
        0 <= i < u.len() && (#[trigger] u[i]).0 < hi && span_end(u[i]) > lo + len
            implies u[i].1.validated by {
        lemma_add_member(s, lo, len, fdo, validated, i);
        if u[i] != new_entry(lo, len, fdo, validated) {
            let j = choose|j: int| 0 <= j < s.len() && part_of(u[i], #[trigger] s[j]);
            assert(s[j].0 < hi && span_end(s[j]) > lo);
        }
    }
}

/// Replaces the spans of `spans` whose keys lie in
/// `logical_offset .. logical_offset + len` by one span for that range.
fn install_span(
    spans: &mut Vec<(u64, Span)>,
    logical_offset: u64,
    len: u64,
    file_data_offset: u64,
    validated: bool,
)
    requires
        spans_wf(old(spans)@),
        logical_offset + len <= u64::MAX,
    ensures
        final(spans)@ == install(old(spans)@, logical_offset, len, file_data_offset, validated),
{
    let ghost t = spans@;
    let end: u64 = logical_offset + len;
    proof {
        lemma_rank_monotone(t, logical_offset as int, end as int);
    }
    let a = lower_bound(spans, logical_offset);
    let b = lower_bound(spans, end);
    // Delete every span that begins inside the range.
    let mut k: usize = a;
    while k < b
        invariant
            a <= k <= b <= t.len(),
            spans@ == t.subrange(0, a as int) + t.subrange(k as int, t.len() as int),
        decreases b - k,
    {
        spans.remove(a);
        assert(spans@ =~= t.subrange(0, a as int) + t.subrange(k + 1, t.len() as int));
        k = k + 1;
    }
    // Insert new span.
    spans.insert(
        a,
        (
            logical_offset,
            Span { len: len, file_data_offset: file_data_offset, validated: validated },
        ),
    );
    assert(spans@ =~= install(t, logical_offset, len, file_data_offset, validated));
}

/// Insert a record into our in-memory span map.
///
/// The record's bytes replace whatever the map held for their range.  A span
/// that the range cuts into must have been validated (see `split_span`).
pub fn add_record(
    spans: &mut Vec<(u64, Span)>,
    logical_offset: u64,
    len: u64,
    file_data_offset: u64,
    validated: bool,
)
    requires
        spans_wf(old(spans)@),
        len > 0,
        logical_offset + len <= u64::MAX,
        file_data_offset + len <= u64::MAX,
        straddler_validated(old(spans)@, logical_offset as int),
        straddler_validated(old(spans)@, logical_offset + len),
    ensures
        final(spans)@ == with_span(old(spans)@, logical_offset, len, file_data_offset, validated),
        spans_wf(final(spans)@),
        forall|o: int| #[trigger]
            locate(final(spans)@, o) == if logical_offset <= o < logical_offset + len {
                Some(file_data_offset + (o - logical_offset))
            } else {
                locate(old(spans)@, o)
            },
        logical_size(final(spans)@) == if logical_size(old(spans)@) >= logical_offset + len {
            logical_size(old(spans)@)
        } else {
            logical_offset + len
        },
{
    let end: u64 = logical_offset + len;
    proof {
        reveal(with_span);
        lemma_split_keeps_validated(spans@, logical_offset as int, end as int);
        lemma_add(spans@, logical_offset, len, file_data_offset, validated);
        assert forall|o: int| #[trigger]
            locate(
                with_span(spans@, logical_offset, len, file_data_offset, validated),
                o,
            ) == if logical_offset <= o < logical_offset + len {
                Some(file_data_offset + (o - logical_offset))
            } else {
                locate(spans@, o)
            } by {
            lemma_add_locate(spans@, logical_offset, len, file_data_offset, validated, o);
        }
    }
    // Do we partially overlap some spans?  Split if so.
    split_span(spans, logical_offset);
    split_span(spans, end);
    install_span(spans, logical_offset, len, file_data_offset, validated);
}

} // verus!
