//! Ordering, validation and assembly of one channel's timeline.
//!
//! Compiling a channel takes two verified steps around the evaluation of the
//! instructions: [`layout`] orders the records by start tick, rejects overlaps
//! and records past the channel's end, and decides the tick range that each
//! record owns; [`assemble`] writes the samples evaluated over those ranges
//! into one dense array and fills the gaps between them.
use vstd::prelude::*;
use vstd::relations::{sorted_by, total_ordering};

use crate::error::CompileError;
use crate::record::{InstrBook, RecordView};

verus! {

/// The tick range that one record owns in a compiled channel.
#[derive(Clone, Copy, Debug, PartialEq, Eq, Structural)]
pub struct Span {
    /// Index of the record in the collection handed to [`layout`].
    pub record: usize,
    /// First tick written by the record.
    pub start: usize,
    /// Tick after the last one written by the record.
    pub end: usize,
    /// Whether the gap after the span holds the span's last sample.
    pub retain: bool,
}

/// The views of a collection of records.
pub open spec fn record_views<I>(records: Seq<InstrBook<I>>) -> Seq<RecordView> {
    records.map_values(|b: InstrBook<I>| b@)
}

/// Sort keys are ordered by start tick, then by position in the collection.
pub open spec fn key_leq(a: (usize, usize), b: (usize, usize)) -> bool {
    a.0 < b.0 || (a.0 == b.0 && a.1 <= b.1)
}

/// [`key_leq`] as a relation, the order that the sweep sorts by.
pub open spec fn key_order() -> spec_fn((usize, usize), (usize, usize)) -> bool {
    |a: (usize, usize), b: (usize, usize)| key_leq(a, b)
}

/// The sort key of each record: its start tick and its index.
pub open spec fn keys(rs: Seq<RecordView>) -> Seq<(usize, usize)> {
    Seq::new(rs.len(), |i: int| (rs[i].start_pos, i as usize))
}

/// The order in which the records are swept: by start tick, and records with
/// equal starts in the order of the collection.
pub open spec fn sweep_order(rs: Seq<RecordView>) -> Seq<(usize, usize)> {
    keys(rs).sort_by(key_order())
}

/// Record `i` comes before record `j` in the sweep.
pub open spec fn precedes(rs: Seq<RecordView>, i: int, j: int) -> bool {
    rs[i].start_pos < rs[j].start_pos || (rs[i].start_pos == rs[j].start_pos && i < j)
}

/// No record starts before the effective end of a record that precedes it.
/// Two records with the same start always overlap.
pub open spec fn disjoint(rs: Seq<RecordView>) -> bool {
    forall|i: int, j: int|
        0 <= i < rs.len() && 0 <= j < rs.len() && #[trigger] precedes(rs, i, j) ==> rs[i].eff_end()
            <= rs[j].start_pos
}

/// Every record ends within a channel of `total_length` ticks.
pub open spec fn fits(rs: Seq<RecordView>, total_length: usize) -> bool {
    forall|i: int| 0 <= i < rs.len() ==> (#[trigger] rs[i]).eff_end() <= total_length
}

/// The span of the record at position `k` of the sweep. A closed record owns
/// `[start_pos, end_pos)`; an open one runs to the start of the next record in
/// the sweep, or to `total_length` when it is the last.
pub open spec fn span_at(rs: Seq<RecordView>, total_length: usize, k: int) -> Span {
    let order = sweep_order(rs);
    let r = rs[order[k].1 as int];
    Span {
        record: order[k].1,
        start: r.start_pos,
        end: match r.end_spec {
            Some((end_pos, _)) => end_pos,
            None => if k + 1 < rs.len() {
                rs[order[k + 1].1 as int].start_pos
            } else {
                total_length
            },
        },
        retain: r.keeps_value(),
    }
}

/// The spans of a channel's records, one per record, in sweep order.
pub open spec fn layout_of(rs: Seq<RecordView>, total_length: usize) -> Seq<Span> {
    Seq::new(rs.len(), |k: int| span_at(rs, total_length, k))
}

/// Spans that are non-empty, in increasing order, disjoint, and inside a
/// channel of `total_length` ticks.
pub open spec fn spans_wf(spans: Seq<Span>, total_length: usize) -> bool {
    &&& forall|k: int| 0 <= k < spans.len() ==> (#[trigger] spans[k]).start < spans[k].end
    &&& forall|k: int| 0 <= k < spans.len() - 1 ==> (#[trigger] spans[k]).end <= spans[k + 1].start
    &&& spans.len() > 0 ==> spans[spans.len() - 1].end <= total_length
}

proof fn lemma_key_order_total()
    ensures
        total_ordering(key_order()),
{
}

/// Each record index occurs once in the sweep order, at a position whose key
/// is the record's own.
proof fn lemma_sweep_order(rs: Seq<RecordView>)
    requires
        rs.len() <= usize::MAX,
    ensures
        sweep_order(rs).len() == rs.len(),
        sorted_by(sweep_order(rs), key_order()),
        sweep_order(rs).no_duplicates(),
        forall|k: int|
            0 <= k < rs.len() ==> {
                let e = #[trigger] sweep_order(rs)[k];
                &&& 0 <= e.1 < rs.len()
                &&& e.0 == rs[e.1 as int].start_pos
            },
        forall|i: int|
            #![trigger rs[i]]
            0 <= i < rs.len() ==> exists|k: int|
                0 <= k < rs.len() && #[trigger] sweep_order(rs)[k] == (
                    rs[i].start_pos,
                    i as usize,
                ),
{
    broadcast use vstd::seq_lib::group_to_multiset_ensures;
    let ks = keys(rs);
    let order = sweep_order(rs);
    lemma_key_order_total();
    ks.lemma_sort_by_ensures(key_order());
    assert forall|i: int, j: int| 0 <= i < ks.len() && 0 <= j < ks.len() && i != j implies ks[i]
        != ks[j] by {
        assert(ks[i].1 == i as usize && ks[j].1 == j as usize);
    }
    assert(ks.no_duplicates());
    ks.lemma_multiset_has_no_duplicates();
    assert(order.to_multiset().len() == ks.to_multiset().len());
    order.lemma_multiset_has_no_duplicates_conv();
    assert forall|k: int| 0 <= k < order.len() implies {
        let e = #[trigger] order[k];
        &&& 0 <= e.1 < rs.len()
        &&& e.0 == rs[e.1 as int].start_pos
    } by {
        assert(order.contains(order[k]));
        assert(ks.contains(order[k]));
        let j = choose|j: int| 0 <= j < ks.len() && ks[j] == order[k];
        assert(ks[j] == (rs[j].start_pos, j as usize));
    }
    assert forall|i: int| #![trigger rs[i]] 0 <= i < rs.len() implies exists|k: int|
        0 <= k < rs.len() && #[trigger] order[k] == (rs[i].start_pos, i as usize) by {
        assert(ks[i] == (rs[i].start_pos, i as usize));
        assert(ks.contains(ks[i]));
        assert(ks.to_multiset().count(ks[i]) > 0);
        assert(order.to_multiset().count(ks[i]) > 0);
        assert(order.contains(ks[i]));
    }
}

/// Positions in the sweep order follow `precedes`.
proof fn lemma_order_precedes(rs: Seq<RecordView>, p: int, q: int)
    requires
        rs.len() <= usize::MAX,
        0 <= p < q < rs.len(),
    ensures
        precedes(rs, sweep_order(rs)[p].1 as int, sweep_order(rs)[q].1 as int),
{
    lemma_sweep_order(rs);
    let order = sweep_order(rs);
    assert(key_order()(order[p], order[q]));
    assert(order[p] != order[q]);
}

/// A later span of well-formed spans starts after an earlier one ends.
pub proof fn lemma_spans_ordered(spans: Seq<Span>, total_length: usize, a: int, b: int)
    requires
        spans_wf(spans, total_length),
        0 <= a < b < spans.len(),
    ensures
        spans[a].end <= spans[b].start,
    decreases b - a,
{
    if a + 1 < b {
        lemma_spans_ordered(spans, total_length, a + 1, b);
        assert(spans[a].end <= spans[a + 1].start);
        assert(spans[a + 1].start < spans[a + 1].end);
    }
}

/// Every record of the collection holds its own start tick.
pub open spec fn all_valid(rs: Seq<RecordView>) -> bool {
    forall|i: int| 0 <= i < rs.len() ==> (#[trigger] rs[i]).valid()
}

/// The layout of valid, disjoint records that fit in the channel is made of
/// non-empty, ordered, disjoint spans inside the channel.
pub proof fn lemma_layout_wf(rs: Seq<RecordView>, total_length: usize)
    requires
        rs.len() <= usize::MAX,
        all_valid(rs),
        disjoint(rs),
        fits(rs, total_length),
    ensures
        spans_wf(layout_of(rs, total_length), total_length),
{
    let spans = layout_of(rs, total_length);
    let order = sweep_order(rs);
    lemma_sweep_order(rs);
    assert forall|k: int| 0 <= k < spans.len() implies (#[trigger] spans[k]).start < spans[k].end by {
        let i = order[k].1 as int;
        assert(rs[i].valid());
        if k + 1 < spans.len() {
            lemma_order_precedes(rs, k, k + 1);
        }
    }
    assert forall|k: int| 0 <= k < spans.len() - 1 implies (#[trigger] spans[k]).end <= spans[k + 1].start by {
        lemma_order_precedes(rs, k, k + 1);
    }
    if spans.len() > 0 {
        let i = order[spans.len() - 1].1 as int;
        assert(rs[i].eff_end() <= total_length);
    }
}

/// Position `k` of the sweep is the first at which a record starts before the
/// effective end of the record swept just before it.
pub open spec fn first_overlap(rs: Seq<RecordView>, k: int) -> bool {
    let order = sweep_order(rs);
    &&& rs[order[k].1 as int].start_pos < rs[order[k - 1].1 as int].eff_end()
    &&& forall|p: int|
        0 < p < k ==> rs[(#[trigger] order[p]).1 as int].start_pos >= rs[order[p - 1].1 as int].eff_end()
}

/// A sweep that found no overlap before position `k` and finds one there has
/// found the first.
proof fn lemma_first_overlap(rs: Seq<RecordView>, k: int)
    requires
        0 < k < rs.len(),
        rs[sweep_order(rs)[k].1 as int].start_pos < rs[sweep_order(rs)[k - 1].1 as int].eff_end(),
        forall|p: int, q: int|
            0 <= p < q < k ==> rs[(#[trigger] sweep_order(rs)[p]).1 as int].eff_end() <= rs[(
            #[trigger] sweep_order(rs)[q]).1 as int].start_pos,
    ensures
        first_overlap(rs, k),
{
    let order = sweep_order(rs);
    assert forall|p: int| 0 < p < k implies rs[(#[trigger] order[p]).1 as int].start_pos
        >= rs[order[p - 1].1 as int].eff_end() by {
        assert(order[p - 1] == order[p - 1]);
    }
}

/// Relies on `slice::sort_unstable`: afterwards the vector holds the same
/// elements in ascending order, tuples comparing lexicographically.
#[verifier::external_body]
fn sort_keys(v: &mut Vec<(usize, usize)>)
    ensures
        final(v)@.to_multiset() == old(v)@.to_multiset(),
        sorted_by(final(v)@, key_order()),
{
    v.sort_unstable();
}

/// Orders the records by start tick (records with equal starts keep their
/// order in the collection, and then always overlap) and sweeps them once.
///
/// Fails with `Overlap` exactly when some record starts before the effective
/// end of a record that precedes it; the error names the first such record of
/// the sweep and the record swept just before it. Otherwise fails with
/// `ExceedsLength` exactly when a record ends after `total_length`; the error
/// names the last record of the sweep. On success every record owns one span,
/// and the spans are disjoint and inside the channel.
pub fn layout<I>(records: &Vec<InstrBook<I>>, total_length: usize) -> (r: Result<
    Vec<Span>,
    CompileError,
>)
    ensures
        r is Ok <==> disjoint(record_views(records@)) && fits(record_views(records@), total_length),
        r matches Ok(spans) ==> spans@ == layout_of(record_views(records@), total_length)
            && spans_wf(spans@, total_length),
        r matches Err(e) ==> (e is Overlap <==> !disjoint(record_views(records@))),
        r matches Err(e) ==> !(e is DegenerateRamp),
        r matches Err(CompileError::Overlap { start_pos, prev_start_pos, prev_end_pos }) ==> {
            let rs = record_views(records@);
            exists|k: int|
                0 < k < rs.len() && #[trigger] first_overlap(rs, k) && start_pos == rs[sweep_order(
                    rs,
                )[k].1 as int].start_pos && prev_start_pos == rs[sweep_order(rs)[k - 1].1 as int].start_pos
                    && prev_end_pos == rs[sweep_order(rs)[k - 1].1 as int].eff_end()
        },
        r matches Err(CompileError::ExceedsLength { start_pos, end_pos, total_length: t }) ==> {
            let rs = record_views(records@);
            let last = rs[sweep_order(rs)[rs.len() - 1].1 as int];
            &&& t == total_length
            &&& rs.len() > 0
            &&& start_pos == last.start_pos
            &&& end_pos == last.eff_end()
            &&& end_pos > total_length
        },
{
    let ghost rs = record_views(records@);
    let n = records.len();
    let mut order: Vec<(usize, usize)> = Vec::new();
    let mut i: usize = 0;
    while i < n
        invariant
            i <= n,
            n == records@.len(),
            rs == record_views(records@),
            order@ =~= keys(rs).take(i as int),
            forall|j: int| 0 <= j < i ==> (#[trigger] rs[j]).valid(),
        decreases n - i,
    {
        let s = records[i].start_pos();
        order.push((s, i));
        i = i + 1;
    }
    assert(order@ =~= keys(rs));
    sort_keys(&mut order);
    proof {
        lemma_sweep_order(rs);
        lemma_key_order_total();
        keys(rs).lemma_sort_by_ensures(key_order());
        vstd::seq_lib::lemma_sorted_unique(order@, sweep_order(rs), key_order());
    }
    let ghost order_s = sweep_order(rs);
    let mut spans: Vec<Span> = Vec::new();
    let mut cursor: usize = 0;
    let mut k: usize = 0;
    while k < n
        invariant
            k <= n,
            n == records@.len(),
            rs == record_views(records@),
            order_s == sweep_order(rs),
            order@ == order_s,
            order_s.len() == n,
            forall|p: int|
                0 <= p < n ==> (#[trigger] order_s[p]).1 < n && order_s[p].0 == rs[order_s[p].1 as int].start_pos,
            all_valid(rs),
            k == 0 ==> cursor == 0,
            spans@ =~= layout_of(rs, total_length).take(k as int),
            forall|p: int| 0 <= p < k ==> rs[(#[trigger] order_s[p]).1 as int].eff_end() <= cursor,
            k > 0 ==> cursor == rs[order_s[k - 1].1 as int].eff_end(),
            forall|p: int, q: int|
                0 <= p < q < k ==> rs[(#[trigger] order_s[p]).1 as int].eff_end() <= rs[(
                #[trigger] order_s[q]).1 as int].start_pos,
        decreases n - k,
    {
        let rec = order[k].1;
        let s = records[rec].start_pos();
        if s < cursor {
            let prev = order[k - 1].1;
            let prev_start = records[prev].start_pos();
            proof {
                lemma_order_precedes(rs, k - 1, k as int);
                lemma_first_overlap(rs, k as int);
            }
            return Err(
                CompileError::Overlap {
                    start_pos: s,
                    prev_start_pos: prev_start,
                    prev_end_pos: cursor,
                },
            );
        }
        let eff = records[rec].eff_end_pos();
        let (end, retain) = match records[rec].end_spec() {
            Some((end_pos, keep_val)) => (end_pos, keep_val),
            None => {
                if k + 1 < n {
                    (order[k + 1].0, false)
                } else {
                    (total_length, false)
                }
            },
        };
        spans.push(Span { record: rec, start: s, end, retain });
        cursor = eff;
        k = k + 1;
    }
    assert forall|i: int, j: int|
        0 <= i < rs.len() && 0 <= j < rs.len() && #[trigger] precedes(rs, i, j) implies rs[i].eff_end()
        <= rs[j].start_pos by {
        assert(rs[i] == rs[i]);
        assert(rs[j] == rs[j]);
        let p = choose|p: int| 0 <= p < rs.len() && #[trigger] order_s[p] == (rs[i].start_pos, i as usize);
        let q = choose|q: int| 0 <= q < rs.len() && #[trigger] order_s[q] == (rs[j].start_pos, j as usize);
        if q < p {
            lemma_order_precedes(rs, q, p);
        }
        assert(p != q);
    }
    if cursor > total_length {
        let last = order[n - 1].1;
        let last_start = records[last].start_pos();
        return Err(
            CompileError::ExceedsLength { start_pos: last_start, end_pos: cursor, total_length },
        );
    }
    assert forall|i: int| 0 <= i < rs.len() implies (#[trigger] rs[i]).eff_end() <= total_length by {
        let p = choose|p: int| 0 <= p < rs.len() && #[trigger] order_s[p] == (rs[i].start_pos, i as usize);
    }
    assert(spans@ =~= layout_of(rs, total_length));
    proof {
        lemma_layout_wf(rs, total_length);
    }
    Ok(spans)
}

/// The value of the gap after a span: the span's last sample when it retains
/// it, otherwise the channel default.
pub open spec fn carry<V>(span: Span, samples: Seq<V>, default: V) -> V {
    if span.retain {
        samples.last()
    } else {
        default
    }
}

/// The first tick of the gap before span `k`; gap `spans.len()` follows the
/// last span.
pub open spec fn gap_lo(spans: Seq<Span>, k: int) -> int {
    if k == 0 {
        0
    } else {
        spans[k - 1].end as int
    }
}

/// The tick after the last one of the gap before span `k`.
pub open spec fn gap_hi(spans: Seq<Span>, k: int, total_length: usize) -> int {
    if k < spans.len() {
        spans[k].start as int
    } else {
        total_length as int
    }
}

/// The value of the gap before span `k`: the channel default before the first
/// span, the carry of the previous span after it.
pub open spec fn gap_fill<V>(spans: Seq<Span>, samples: Seq<Vec<V>>, default: V, k: int) -> V {
    if k == 0 {
        default
    } else {
        carry(spans[k - 1], samples[k - 1]@, default)
    }
}

/// One run of samples per span, as long as the span.
pub open spec fn samples_fit<V>(spans: Seq<Span>, samples: Seq<Vec<V>>) -> bool {
    &&& samples.len() == spans.len()
    &&& forall|k: int|
        0 <= k < spans.len() ==> (#[trigger] samples[k])@.len() == spans[k].end - spans[k].start
}

/// `out` is the dense channel: each span's ticks hold its samples in order, and
/// each gap holds the value carried into it.
pub open spec fn assembled<V>(
    spans: Seq<Span>,
    samples: Seq<Vec<V>>,
    total_length: usize,
    default: V,
    out: Seq<V>,
) -> bool {
    &&& out.len() == total_length
    &&& forall|k: int, t: int|
        #![trigger spans[k], out[t]]
        0 <= k < spans.len() && spans[k].start <= t < spans[k].end ==> out[t]
            == samples[k]@[t - spans[k].start]
    &&& forall|k: int, t: int|
        #![trigger gap_lo(spans, k), out[t]]
        0 <= k <= spans.len() && gap_lo(spans, k) <= t < gap_hi(spans, k, total_length) ==> out[t]
            == gap_fill(spans, samples, default, k)
}

/// Appends copies of `value` until `out` holds `upto` elements.
fn extend_with<V: Copy>(out: &mut Vec<V>, value: V, upto: usize)
    requires
        old(out)@.len() <= upto,
    ensures
        final(out)@.len() == upto,
        forall|t: int| 0 <= t < old(out)@.len() ==> final(out)@[t] == old(out)@[t],
        forall|t: int| old(out)@.len() <= t < upto ==> final(out)@[t] == value,
{
    let ghost lo = out@.len();
    let ghost before = out@;
    while out.len() < upto
        invariant
            lo <= out@.len() <= upto,
            forall|t: int| 0 <= t < lo ==> out@[t] == before[t],
            forall|t: int| lo <= t < out@.len() ==> out@[t] == value,
        decreases upto - out@.len(),
    {
        out.push(value);
    }
}

/// Appends the elements of `seg` to `out`, in order.
fn extend_from<V: Copy>(out: &mut Vec<V>, seg: &Vec<V>)
    requires
        old(out)@.len() + seg@.len() <= usize::MAX,
    ensures
        final(out)@.len() == old(out)@.len() + seg@.len(),
        forall|t: int| 0 <= t < old(out)@.len() ==> final(out)@[t] == old(out)@[t],
        forall|t: int|
            old(out)@.len() <= t < final(out)@.len() ==> final(out)@[t] == seg@[t - old(out)@.len()],
{
    let ghost lo = out@.len();
    let ghost before = out@;
    let mut j: usize = 0;
    while j < seg.len()
        invariant
            j <= seg@.len(),
            lo + seg@.len() <= usize::MAX,
            out@.len() == lo + j,
            forall|t: int| 0 <= t < lo ==> out@[t] == before[t],
            forall|t: int| lo <= t < out@.len() ==> out@[t] == seg@[t - lo],
        decreases seg@.len() - j,
    {
        out.push(seg[j]);
        j = j + 1;
    }
}

/// The first `k` spans and the gaps before them (as far as `out` reaches)
/// hold what [`assembled`] asks of them.
#[verifier::opaque]
spec fn prefix_done<V>(
    spans: Seq<Span>,
    samples: Seq<Vec<V>>,
    total_length: usize,
    default: V,
    out: Seq<V>,
    k: int,
) -> bool {
    &&& forall|kk: int, t: int|
        #![trigger spans[kk], out[t]]
        0 <= kk < k && spans[kk].start <= t < spans[kk].end ==> out[t]
            == samples[kk]@[t - spans[kk].start]
    &&& forall|kk: int, t: int|
        #![trigger gap_lo(spans, kk), out[t]]
        0 <= kk <= k && gap_lo(spans, kk) <= t < gap_hi(spans, kk, total_length) && t < out.len()
            ==> out[t] == gap_fill(spans, samples, default, kk)
}

/// Writing the gap before span `k` and then its samples extends a done prefix
/// by one span.
proof fn lemma_step<V>(
    spans: Seq<Span>,
    samples: Seq<Vec<V>>,
    total_length: usize,
    default: V,
    out0: Seq<V>,
    out: Seq<V>,
    k: int,
)
    requires
        spans_wf(spans, total_length),
        samples_fit(spans, samples),
        0 <= k < spans.len(),
        out0.len() == gap_lo(spans, k),
        prefix_done(spans, samples, total_length, default, out0, k),
        out.len() == spans[k].end,
        forall|t: int| 0 <= t < out0.len() ==> out[t] == out0[t],
        forall|t: int| out0.len() <= t < spans[k].start ==> out[t] == gap_fill(spans, samples, default, k),
        forall|t: int| spans[k].start <= t < spans[k].end ==> out[t] == samples[k]@[t - spans[k].start],
    ensures
        prefix_done(spans, samples, total_length, default, out, k + 1),
{
    reveal(prefix_done);
    assert forall|kk: int, t: int|
        #![trigger spans[kk], out[t]]
        0 <= kk < k + 1 && spans[kk].start <= t < spans[kk].end implies out[t]
            == samples[kk]@[t - spans[kk].start] by {
        if kk < k {
            if kk + 1 < k {
                lemma_spans_ordered(spans, total_length, kk, k - 1);
            }
            assert(out0[t] == out[t]);
            assert(spans[kk] == spans[kk]);
        }
    }
    assert forall|kk: int, t: int|
        #![trigger gap_lo(spans, kk), out[t]]
        0 <= kk <= k + 1 && gap_lo(spans, kk) <= t < gap_hi(spans, kk, total_length) && t
            < out.len() implies out[t] == gap_fill(spans, samples, default, kk) by {
        if kk <= k && t < out0.len() {
            assert(out0[t] == out[t]);
            assert(gap_lo(spans, kk) == gap_lo(spans, kk));
        } else if kk <= k {
            if kk < k {
                lemma_spans_ordered(spans, total_length, kk, k - 1);
                assert(spans[k - 1].start < spans[k - 1].end);
            }
            assert(kk == k);
        }
    }
}

/// Filling the gap after the last span completes the channel.
proof fn lemma_finish<V>(
    spans: Seq<Span>,
    samples: Seq<Vec<V>>,
    total_length: usize,
    default: V,
    out0: Seq<V>,
    out: Seq<V>,
)
    requires
        spans_wf(spans, total_length),
        samples_fit(spans, samples),
        out0.len() == gap_lo(spans, spans.len() as int),
        prefix_done(spans, samples, total_length, default, out0, spans.len() as int),
        out.len() == total_length,
        forall|t: int| 0 <= t < out0.len() ==> out[t] == out0[t],
        forall|t: int|
            out0.len() <= t < total_length ==> out[t] == gap_fill(
                spans,
                samples,
                default,
                spans.len() as int,
            ),
    ensures
        assembled(spans, samples, total_length, default, out),
{
    reveal(prefix_done);
    let n = spans.len() as int;
    assert forall|kk: int, t: int|
        #![trigger spans[kk], out[t]]
        0 <= kk < n && spans[kk].start <= t < spans[kk].end implies out[t]
            == samples[kk]@[t - spans[kk].start] by {
        if kk < n - 1 {
            lemma_spans_ordered(spans, total_length, kk, n - 1);
        }
        assert(out0[t] == out[t]);
        assert(spans[kk] == spans[kk]);
    }
    assert forall|kk: int, t: int|
        #![trigger gap_lo(spans, kk), out[t]]
        0 <= kk <= n && gap_lo(spans, kk) <= t < gap_hi(spans, kk, total_length) implies out[t]
            == gap_fill(spans, samples, default, kk) by {
        if t < out0.len() {
            assert(out0[t] == out[t]);
            assert(gap_lo(spans, kk) == gap_lo(spans, kk));
        } else if kk < n {
            lemma_spans_ordered(spans, total_length, kk, n - 1);
            assert(spans[n - 1].start < spans[n - 1].end);
        }
    }
}

/// Writes the channel's dense sample array: the samples of each span over its
/// ticks, and in each gap the last sample of the span before it if that span
/// retains, otherwise `default`. Ticks before the first span hold `default`.
pub fn assemble<V: Copy>(
    spans: &Vec<Span>,
    samples: &Vec<Vec<V>>,
    total_length: usize,
    default: V,
) -> (out: Vec<V>)
    requires
        spans_wf(spans@, total_length),
        samples_fit(spans@, samples@),
    ensures
        assembled(spans@, samples@, total_length, default, out@),
{
    let n = spans.len();
    let mut out: Vec<V> = Vec::new();
    let mut fill = default;
    let mut k: usize = 0;
    proof {
        reveal(prefix_done);
    }
    while k < n
        invariant
            k <= n,
            n == spans@.len(),
            spans_wf(spans@, total_length),
            samples_fit(spans@, samples@),
            out@.len() == gap_lo(spans@, k as int),
            fill == gap_fill(spans@, samples@, default, k as int),
            prefix_done(spans@, samples@, total_length, default, out@, k as int),
        decreases n - k,
    {
        let start = spans[k].start;
        let ghost out0 = out@;
        assert(spans@[k as int].start < spans@[k as int].end);
        assert(spans@[k as int].end <= total_length) by {
            if k + 1 < n {
                lemma_spans_ordered(spans@, total_length, k as int, n - 1);
                assert(spans@[n - 1].start < spans@[n - 1].end);
            }
        }
        assert(k > 0 ==> spans@[k - 1].end <= spans@[k as int].start);
        extend_with(&mut out, fill, start);
        let seg = &samples[k];
        assert(seg@.len() == spans@[k as int].end - spans@[k as int].start);
        extend_from(&mut out, seg);
        proof {
            lemma_step(spans@, samples@, total_length, default, out0, out@, k as int);
        }
        fill = if spans[k].retain {
            seg[seg.len() - 1]
        } else {
            default
        };
        k = k + 1;
    }
    assert(n > 0 ==> spans@[n - 1].end <= total_length);
    let ghost out0 = out@;
    extend_with(&mut out, fill, total_length);
    proof {
        lemma_finish(spans@, samples@, total_length, default, out0, out@);
    }
    out
}

/// Every tick of the channel lies in a span or in a gap.
proof fn lemma_cover(spans: Seq<Span>, total_length: usize, t: int, k: int)
    requires
        spans_wf(spans, total_length),
        0 <= t < total_length,
        0 <= k <= spans.len(),
        gap_lo(spans, k) <= t,
    ensures
        (exists|kk: int|
            0 <= kk < spans.len() && spans[kk].start <= t < spans[kk].end && #[trigger] spans[kk]
                == spans[kk]) || (exists|kk: int|
            0 <= kk <= spans.len() && #[trigger] gap_lo(spans, kk) <= t < gap_hi(
                spans,
                kk,
                total_length,
            )),
    decreases spans.len() - k,
{
    if t < gap_hi(spans, k, total_length) {
        assert(gap_lo(spans, k) <= t);
    } else if t < spans[k].end {
        assert(spans[k] == spans[k]);
    } else {
        lemma_cover(spans, total_length, t, k + 1);
    }
}

/// Compiling is a pure function: for the same spans, samples, length and
/// default, two dense arrays that both meet [`assemble`]'s contract are equal
/// element for element. With [`layout`] returning exactly
/// [`layout_of`]`(records, total_length)`, identical inputs always compile to
/// identical arrays.
pub proof fn lemma_compile_deterministic<V>(
    spans: Seq<Span>,
    samples: Seq<Vec<V>>,
    total_length: usize,
    default: V,
    out1: Seq<V>,
    out2: Seq<V>,
)
    requires
        spans_wf(spans, total_length),
        samples_fit(spans, samples),
        assembled(spans, samples, total_length, default, out1),
        assembled(spans, samples, total_length, default, out2),
    ensures
        out1 == out2,
{
    assert forall|t: int| 0 <= t < total_length implies out1[t] == out2[t] by {
        lemma_cover(spans, total_length, t, 0);
        if exists|kk: int|
            0 <= kk < spans.len() && spans[kk].start <= t < spans[kk].end && #[trigger] spans[kk]
                == spans[kk] {
            let kk = choose|kk: int|
                0 <= kk < spans.len() && spans[kk].start <= t < spans[kk].end && #[trigger] spans[kk]
                    == spans[kk];
            assert(out1[t] == samples[kk]@[t - spans[kk].start]);
        } else {
            let kk = choose|kk: int|
                0 <= kk <= spans.len() && #[trigger] gap_lo(spans, kk) <= t < gap_hi(
                    spans,
                    kk,
                    total_length,
                );
            assert(out1[t] == gap_fill(spans, samples, default, kk));
        }
    }
    assert(out1 =~= out2);
}

/// For valid, disjoint records that fit in the channel, the layout meets
/// [`assemble`]'s precondition, so the compiled array holds exactly
/// `total_length` samples.
pub proof fn lemma_compile_length<V>(
    rs: Seq<RecordView>,
    total_length: usize,
    samples: Seq<Vec<V>>,
    default: V,
    out: Seq<V>,
)
    requires
        rs.len() <= usize::MAX,
        all_valid(rs),
        disjoint(rs),
        fits(rs, total_length),
        samples_fit(layout_of(rs, total_length), samples),
        assembled(layout_of(rs, total_length), samples, total_length, default, out),
    ensures
        spans_wf(layout_of(rs, total_length), total_length),
        out.len() == total_length,
{
    lemma_layout_wf(rs, total_length);
}

/// A record that starts at or after the start of another record, but before
/// that record's effective end, makes the collection overlap; [`layout`] then
/// fails with `Overlap`.
pub proof fn lemma_overlap_rejected(rs: Seq<RecordView>, i: int, j: int)
    requires
        all_valid(rs),
        0 <= i < rs.len(),
        0 <= j < rs.len(),
        i != j,
        rs[i].start_pos <= rs[j].start_pos,
        rs[j].start_pos < rs[i].eff_end(),
    ensures
        !disjoint(rs),
{
    if precedes(rs, i, j) {
        assert(rs[i].eff_end() > rs[j].start_pos);
    } else {
        assert(precedes(rs, j, i));
        assert(rs[j].valid());
    }
}

} // verus!