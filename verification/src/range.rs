//! Ranges: half-open intervals with a payload, their algebra, and the way
//! they are laid down in a store.
use vstd::prelude::*;
use crate::endian::{lemma_be_onto, lemma_be_round_trip, u64_be_bytes, u64_from_be, u64_from_be_bytes, u64_to_be};
use crate::key::lemma_key_lt_be;
use crate::kvs::Contents;

verus! {

/// A range as a mathematical value: the interval from `start` up to, and
/// without, `end`, and its payload.
pub struct RangeView {
    pub start: u64,
    pub end: u64,
    pub value: Seq<u8>,
}

/// The interval `[start, end)` with its payload.
#[derive(Debug, PartialEq, Eq)]
pub struct Range {
    start: u64,
    end: u64,
    value: Vec<u8>,
}

impl View for Range {
    type V = RangeView;

    closed spec fn view(&self) -> RangeView {
        RangeView { start: self.start, end: self.end, value: self.value@ }
    }
}

impl Clone for Range {
    fn clone(&self) -> (r: Self)
        ensures
            r@ == self@,
    {
        Range { start: self.start, end: self.end, value: self.value.clone() }
    }
}

impl Range {
    /// The range from `start` to `end` with the payload `value`.
    pub fn new(start: u64, end: u64, value: &[u8]) -> (r: Range)
        ensures
            r@ == (RangeView { start, end, value: value@ }),
    {
        Range { start, end, value: vstd::slice::slice_to_vec(value) }
    }

    /// Where the range starts.
    pub fn get_start(&self) -> (s: u64)
        ensures
            s == self@.start,
    {
        self.start
    }

    /// Where the range ends: the first point beyond it.
    pub fn get_end(&self) -> (e: u64)
        ensures
            e == self@.end,
    {
        self.end
    }

    /// The payload of the range.
    pub fn get_value(&self) -> (v: &[u8])
        ensures
            v@ == self@.value,
    {
        self.value.as_slice()
    }

    /// Tells whether the range describes an interval: its start lies below its end.
    pub fn validate(&self) -> (b: bool)
        ensures
            b == (self@.start < self@.end),
    {
        self.start < self.end
    }
}

/// The ranges of `s` as mathematical values.
pub open spec fn range_views(s: Seq<Range>) -> Seq<RangeView> {
    Seq::new(s.len(), |i: int| s[i]@)
}

/// The range `r` meets the interval `[start, end)`.
pub open spec fn overlaps(r: RangeView, start: u64, end: u64) -> bool {
    r.start < end && r.end > start
}

/// The ranges `a` and `b` have no point in common.
pub open spec fn disjoint(a: RangeView, b: RangeView) -> bool {
    a.end <= b.start || b.end <= a.start
}

/// The point `p` lies in the range `r`.
pub open spec fn covers(r: RangeView, p: u64) -> bool {
    r.start <= p && p < r.end
}

/// The payload that the ranges `rs` hold at the point `p`, if a range
/// of `rs` covers the point.
pub open spec fn payload_at(rs: Set<RangeView>, p: u64) -> Option<Seq<u8>> {
    if exists|r: RangeView| #[trigger] rs.contains(r) && covers(r, p) {
        Some((choose|r: RangeView| #[trigger] rs.contains(r) && covers(r, p)).value)
    } else {
        None
    }
}

/// Every range of `rs` describes an interval.
pub open spec fn all_valid(rs: Set<RangeView>) -> bool {
    forall|r: RangeView| #[trigger] rs.contains(r) ==> r.start < r.end
}

/// No two ranges of `rs` have a point in common.
pub open spec fn non_overlapping(rs: Set<RangeView>) -> bool {
    forall|a: RangeView, b: RangeView| #[trigger] rs.contains(a) && #[trigger] rs.contains(b) && a != b ==> disjoint(a, b)
}

/// `l` lists the ranges of `rs` that meet `[start, end)`, each once, in
/// ascending order.
pub open spec fn is_overlap_listing(rs: Set<RangeView>, start: u64, end: u64, l: Seq<RangeView>) -> bool {
    &&& forall|i: int| 0 <= i < l.len() ==> rs.contains(#[trigger] l[i]) && overlaps(l[i], start, end)
    &&& forall|i: int, j: int| 0 <= i < j < l.len() ==> (#[trigger] l[i]).end <= (#[trigger] l[j]).start
    &&& forall|r: RangeView| #[trigger] rs.contains(r) && overlaps(r, start, end) ==> l.contains(r)
}

/// `r` is what is left, below `at`, of a range of `rs` that reaches across `at`.
pub open spec fn is_left_remainder(rs: Set<RangeView>, at: u64, r: RangeView) -> bool {
    exists|q: RangeView| #[trigger]
        rs.contains(q) && q.start < at && at < q.end && r == (RangeView { start: q.start, end: at, value: q.value })
}

/// `r` is what is left, from `at` on, of a range of `rs` that reaches across `at`.
pub open spec fn is_right_remainder(rs: Set<RangeView>, at: u64, r: RangeView) -> bool {
    exists|q: RangeView| #[trigger]
        rs.contains(q) && q.start < at && at < q.end && r == (RangeView { start: at, end: q.end, value: q.value })
}

/// The ranges after `[start, end)` has been cleared: the ranges apart from
/// the interval, and what is left of those that reach across its bounds.
pub open spec fn del_result(rs: Set<RangeView>, start: u64, end: u64) -> Set<RangeView> {
    Set::new(
        |r: RangeView|
            {
                ||| rs.contains(r) && !overlaps(r, start, end)
                ||| is_left_remainder(rs, start, r)
                ||| is_right_remainder(rs, end, r)
            },
    )
}

/// The ranges after `value` has been written over `[start, end)`: the
/// interval is cleared, then the new range is added.
pub open spec fn put_result(rs: Set<RangeView>, start: u64, end: u64, value: Seq<u8>) -> Set<RangeView> {
    del_result(rs, start, end).insert(RangeView { start, end, value })
}

/// The part of the range `q` that lies within `[start, end)`.
pub open spec fn clip(q: RangeView, start: u64, end: u64) -> RangeView {
    RangeView {
        start: if q.start < start { start } else { q.start },
        end: if end < q.end { end } else { q.end },
        value: q.value,
    }
}

/// The transformation `f`, given a range that is `arg`, may return `out`.
pub open spec fn transform_gives<F: Fn(Range) -> Vec<u8>>(f: F, arg: RangeView, out: Seq<u8>) -> bool {
    exists|r: Range, v: Vec<u8>| r@ == arg && v@ == out && #[trigger] call_ensures(f, (r,), v)
}

/// The transformation `f` accepts any range as its argument.
pub open spec fn transform_total<F: Fn(Range) -> Vec<u8>>(f: F) -> bool {
    forall|r: Range| #[trigger] call_requires(f, (r,))
}

/// `r` is the part within `[start, end)` of a range of `rs`, with the
/// payload that `values` gives for that range.
pub open spec fn is_updated_part(
    rs: Set<RangeView>,
    start: u64,
    end: u64,
    values: Map<RangeView, Seq<u8>>,
    r: RangeView,
) -> bool {
    exists|q: RangeView| #[trigger]
        rs.contains(q) && overlaps(q, start, end) && r == (RangeView {
            start: clip(q, start, end).start,
            end: clip(q, start, end).end,
            value: values[q],
        })
}

/// The ranges after the payloads within `[start, end)` have been
/// replaced, `values` giving the new payload for each range that meets
/// the interval: outside the interval everything is as before, and within
/// it each range keeps its extent and has the new payload.
pub open spec fn update_result(rs: Set<RangeView>, start: u64, end: u64, values: Map<RangeView, Seq<u8>>) -> Set<
    RangeView,
> {
    Set::new(|r: RangeView| del_result(rs, start, end).contains(r) || is_updated_part(rs, start, end, values, r))
}

/// `after` is what `rs` becomes when, within `[start, end)`, the payload
/// of each range is replaced by what `f` returns for the part of the
/// range within the interval.
pub open spec fn is_update_of<F: Fn(Range) -> Vec<u8>>(
    rs: Set<RangeView>,
    start: u64,
    end: u64,
    f: F,
    after: Set<RangeView>,
) -> bool {
    exists|values: Map<RangeView, Seq<u8>>|
        {
            &&& forall|q: RangeView| #[trigger]
                rs.contains(q) && overlaps(q, start, end) ==> values.contains_key(q) && transform_gives(
                    f,
                    clip(q, start, end),
                    values[q],
                )
            &&& after == #[trigger] update_result(rs, start, end, values)
        }
}

/// The ranges `rs` without those of `removed`, and with those of `added`.
pub open spec fn replaced(rs: Set<RangeView>, removed: Seq<RangeView>, added: Seq<RangeView>) -> Set<RangeView> {
    Set::new(|r: RangeView| (rs.contains(r) && !removed.contains(r)) || added.contains(r))
}

/// The value under which a range is stored: its start, then its payload.
pub open spec fn range_value(r: RangeView) -> Seq<u8> {
    u64_be_bytes(r.start) + r.value
}

/// The ranges that the entries `c` stand for.  A range is stored under
/// its end, so that the store's order is the order of the ranges.
pub open spec fn ranges_of(c: Contents) -> Set<RangeView> {
    Set::new(|r: RangeView| c.contains_key(u64_be_bytes(r.end)) && c[u64_be_bytes(r.end)] == range_value(r))
}

/// Every entry of `c` has the shape of a stored range.
pub open spec fn well_encoded(c: Contents) -> bool {
    forall|k: Seq<u8>| #[trigger] c.contains_key(k) ==> k.len() == 8 && c[k].len() >= 8
}

/// The entries `c` are a range store: each stands for a range that
/// describes an interval, and no two of the ranges have a point in common.
pub open spec fn ranges_wf(c: Contents) -> bool {
    &&& well_encoded(c)
    &&& all_valid(ranges_of(c))
    &&& non_overlapping(ranges_of(c))
}

/// The range that an entry of the right shape stands for.
pub open spec fn decode_entry(k: Seq<u8>, v: Seq<u8>) -> RangeView {
    RangeView { start: u64_from_be_bytes(v), end: u64_from_be_bytes(k), value: v.skip(8) }
}

/// An entry of the right shape is stored as its range is laid down.
pub proof fn lemma_decode_entry(k: Seq<u8>, v: Seq<u8>)
    requires
        k.len() == 8,
        v.len() >= 8,
    ensures
        u64_be_bytes(decode_entry(k, v).end) == k,
        range_value(decode_entry(k, v)) == v,
{
    lemma_be_onto(k);
    let head = v.take(8);
    lemma_be_onto(head);
    assert(u64_from_be_bytes(head) == u64_from_be_bytes(v)) by {
        assert(head[0] == v[0] && head[1] == v[1] && head[2] == v[2] && head[3] == v[3] && head[4] == v[4]
            && head[5] == v[5] && head[6] == v[6] && head[7] == v[7]);
    }
    assert(head + v.skip(8) =~= v);
}

/// The stored value determines the range's start and payload.
pub proof fn lemma_range_value_injective(a: RangeView, b: RangeView)
    requires
        range_value(a) == range_value(b),
    ensures
        a.start == b.start,
        a.value == b.value,
{
    lemma_be_round_trip(a.start);
    lemma_be_round_trip(b.start);
    assert(range_value(a).take(8) =~= u64_be_bytes(a.start));
    assert(range_value(b).take(8) =~= u64_be_bytes(b.start));
    assert(range_value(a).skip(8) =~= a.value);
    assert(range_value(b).skip(8) =~= b.value);
    lemma_key_lt_be(a.start, b.start);
}

/// The value under which the range from `start` with the payload `value` is stored.
pub fn encode_value(start: u64, value: &[u8]) -> (out: Vec<u8>)
    ensures
        out@ == u64_be_bytes(start) + value@,
{
    let mut out = u64_to_be(start);
    out.extend_from_slice(value);
    out
}

/// Reads an entry as a range; `None` if the entry has not the shape of a
/// stored range.
pub fn decode_range(key: &[u8], value: &[u8]) -> (r: Option<Range>)
    ensures
        r is Some <==> key@.len() == 8 && value@.len() >= 8,
        r matches Some(range) ==> range@ == decode_entry(key@, value@),
{
    if key.len() != 8 || value.len() < 8 {
        return None;
    }
    let start = u64_from_be(value);
    let end = u64_from_be(key);
    let payload = vstd::slice::slice_subrange(value, 8, value.len());
    proof {
        assert(payload@ =~= value@.skip(8));
    }
    Some(Range::new(start, end, payload))
}

} // verus!
