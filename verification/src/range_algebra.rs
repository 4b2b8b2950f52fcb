//! The algebra of ranges: what clearing, writing and replacing do to a
//! set of ranges that do not overlap, and what holds of the results.
use vstd::prelude::*;
use crate::range::{
    RangeView, all_valid, clip, covers, del_result, disjoint, is_left_remainder, is_overlap_listing,
    is_right_remainder, is_updated_part, non_overlapping, overlaps, payload_at, put_result, replaced,
    update_result,
};

verus! {

/// What is left of the ranges `olds`, which meet `[start, end)` and are
/// listed in ascending order, outside the interval: the part of the first
/// below `start`, and the part of the last from `end` on.
pub open spec fn remainders(olds: Seq<RangeView>, start: u64, end: u64) -> Seq<RangeView> {
    let left = if olds.len() > 0 && olds[0].start < start {
        seq![RangeView { start: olds[0].start, end: start, value: olds[0].value }]
    } else {
        Seq::<RangeView>::empty()
    };
    let right = if olds.len() > 0 && end < olds.last().end {
        seq![RangeView { start: end, end: olds.last().end, value: olds.last().value }]
    } else {
        Seq::<RangeView>::empty()
    };
    left + right
}

/// Clearing `[start, end)` takes the ranges that meet the interval out
/// and puts what is left of them outside it back in; the result does not
/// overlap.
pub(crate) proof fn lemma_del_target(rs: Set<RangeView>, start: u64, end: u64, olds: Seq<RangeView>)
    requires
        all_valid(rs),
        non_overlapping(rs),
        start < end,
        is_overlap_listing(rs, start, end, olds),
    ensures
        replaced(rs, olds, remainders(olds, start, end)) == del_result(rs, start, end),
        all_valid(del_result(rs, start, end)),
        non_overlapping(del_result(rs, start, end)),
{
    let rem = remainders(olds, start, end);
    let t = replaced(rs, olds, rem);
    let d = del_result(rs, start, end);
    assert forall|r: RangeView| t.contains(r) implies d.contains(r) by {
        if rem.contains(r) {
            let j = choose|j: int| 0 <= j < rem.len() && rem[j] == r;
            assert(rs.contains(olds[0]));
            assert(rs.contains(olds.last()));
            if r.end == start {
                assert(is_left_remainder(rs, start, r));
            } else {
                assert(is_right_remainder(rs, end, r));
            }
        }
    }
    assert forall|r: RangeView| d.contains(r) implies t.contains(r) by {
        if rs.contains(r) && !overlaps(r, start, end) {
            if olds.contains(r) {
                let j = choose|j: int| 0 <= j < olds.len() && olds[j] == r;
            }
        } else if is_left_remainder(rs, start, r) {
            let q = choose|q: RangeView| #[trigger]
                rs.contains(q) && q.start < start && start < q.end && r == (RangeView {
                    start: q.start,
                    end: start,
                    value: q.value,
                });
            assert(olds.contains(q));
            let j = choose|j: int| 0 <= j < olds.len() && olds[j] == q;
            if j > 0 {
                assert(olds[0].end <= olds[j].start);
                assert(overlaps(olds[0], start, end));
            }
            assert(rem[0] == r);
        } else {
            let q = choose|q: RangeView| #[trigger]
                rs.contains(q) && q.start < end && end < q.end && r == (RangeView {
                    start: end,
                    end: q.end,
                    value: q.value,
                });
            assert(olds.contains(q));
            let j = choose|j: int| 0 <= j < olds.len() && olds[j] == q;
            if j < olds.len() - 1 {
                assert(olds[j].end <= olds.last().start);
                assert(overlaps(olds.last(), start, end));
            }
            assert(rem.last() == r);
        }
    }
    assert(t =~= d);
    lemma_del_keeps_apart(rs, start, end);
}

/// A range of `rs` of which the range `r`, left after `[start, end)` was
/// cleared, is a part.
pub open spec fn del_origin(rs: Set<RangeView>, start: u64, end: u64, r: RangeView) -> RangeView {
    choose|q: RangeView| #[trigger]
        rs.contains(q) && q.start <= r.start && r.end <= q.end && q.value == r.value && (q == r || (r.end == start
            && q.start == r.start && start < q.end) || (r.start == end && q.end == r.end && q.start < end))
}

/// Every range left after `[start, end)` was cleared is a part of a
/// range that was there, lies outside the interval, and describes an
/// interval.
pub proof fn lemma_del_member(rs: Set<RangeView>, start: u64, end: u64, r: RangeView)
    requires
        all_valid(rs),
        start < end,
        del_result(rs, start, end).contains(r),
    ensures
        ({
            let q = del_origin(rs, start, end, r);
            &&& rs.contains(q)
            &&& q.start <= r.start
            &&& r.end <= q.end
            &&& q.value == r.value
            &&& (q == r || (r.end == start && q.start == r.start && start < q.end) || (r.start == end && q.end
                == r.end && q.start < end))
        }),
        r.start < r.end,
        !overlaps(r, start, end),
{
    if rs.contains(r) && !overlaps(r, start, end) {
        assert(r.start <= r.start);
    } else if is_left_remainder(rs, start, r) {
        let q = choose|q: RangeView| #[trigger]
            rs.contains(q) && q.start < start && start < q.end && r == (RangeView {
                start: q.start,
                end: start,
                value: q.value,
            });
        assert(rs.contains(q) && q.start <= r.start);
    } else {
        let q = choose|q: RangeView| #[trigger]
            rs.contains(q) && q.start < end && end < q.end && r == (RangeView { start: end, end: q.end, value: q.value });
        assert(rs.contains(q) && q.start <= r.start);
    }
}

/// Writing over `[start, end)` is clearing the interval and adding the
/// new range; the result does not overlap.
pub(crate) proof fn lemma_put_target(rs: Set<RangeView>, start: u64, end: u64, value: Seq<u8>, olds: Seq<RangeView>)
    requires
        all_valid(rs),
        non_overlapping(rs),
        start < end,
        is_overlap_listing(rs, start, end, olds),
    ensures
        replaced(rs, olds, remainders(olds, start, end).push(RangeView { start, end, value })) == put_result(
            rs,
            start,
            end,
            value,
        ),
        all_valid(put_result(rs, start, end, value)),
        non_overlapping(put_result(rs, start, end, value)),
{
    let rem = remainders(olds, start, end);
    let new = RangeView { start, end, value };
    lemma_del_target(rs, start, end, olds);
    lemma_put_keeps_apart(rs, start, end, value);
    let t = replaced(rs, olds, rem.push(new));
    assert forall|r: RangeView| t.contains(r) <==> put_result(rs, start, end, value).contains(r) by {
        if rem.push(new).contains(r) {
            let j = choose|j: int| 0 <= j < rem.push(new).len() && rem.push(new)[j] == r;
            if j < rem.len() {
                assert(rem[j] == r);
            }
        }
        if rem.contains(r) {
            let j = choose|j: int| 0 <= j < rem.len() && rem[j] == r;
            assert(rem.push(new)[j] == r);
        }
        if r == new {
            assert(rem.push(new)[rem.len() as int] == r);
        }
        assert(replaced(rs, olds, rem).contains(r) <==> del_result(rs, start, end).contains(r));
    }
    assert(t =~= put_result(rs, start, end, value));
}

/// The parts within `[start, end)` of the ranges `olds`, each with the
/// payload that `values` gives for its range.
pub open spec fn updated_parts(olds: Seq<RangeView>, start: u64, end: u64, values: Map<RangeView, Seq<u8>>) -> Seq<
    RangeView,
> {
    Seq::new(
        olds.len(),
        |i: int|
            RangeView {
                start: clip(olds[i], start, end).start,
                end: clip(olds[i], start, end).end,
                value: values[olds[i]],
            },
    )
}

/// Replacing payloads within `[start, end)` takes the ranges that meet
/// the interval out and puts back what is left of them outside it and
/// their parts within it; the result does not overlap.
pub(crate) proof fn lemma_update_target(
    rs: Set<RangeView>,
    start: u64,
    end: u64,
    olds: Seq<RangeView>,
    values: Map<RangeView, Seq<u8>>,
)
    requires
        all_valid(rs),
        non_overlapping(rs),
        start < end,
        is_overlap_listing(rs, start, end, olds),
    ensures
        replaced(rs, olds, remainders(olds, start, end) + updated_parts(olds, start, end, values)) == update_result(
            rs,
            start,
            end,
            values,
        ),
        all_valid(update_result(rs, start, end, values)),
        non_overlapping(update_result(rs, start, end, values)),
{
    let rem = remainders(olds, start, end);
    let parts = updated_parts(olds, start, end, values);
    let added = rem + parts;
    let t = replaced(rs, olds, added);
    let u = update_result(rs, start, end, values);
    lemma_del_target(rs, start, end, olds);
    assert forall|r: RangeView| t.contains(r) <==> u.contains(r) by {
        if added.contains(r) {
            let j = choose|j: int| 0 <= j < added.len() && added[j] == r;
            if j < rem.len() {
                assert(rem[j] == r);
                assert(replaced(rs, olds, rem).contains(r));
            } else {
                assert(parts[j - rem.len()] == r);
                assert(rs.contains(olds[j - rem.len()]));
                assert(is_updated_part(rs, start, end, values, r));
            }
        }
        if rem.contains(r) {
            let j = choose|j: int| 0 <= j < rem.len() && rem[j] == r;
            assert(added[j] == r);
        }
        if is_updated_part(rs, start, end, values, r) {
            let q = choose|q: RangeView| #[trigger]
                rs.contains(q) && overlaps(q, start, end) && r == (RangeView {
                    start: clip(q, start, end).start,
                    end: clip(q, start, end).end,
                    value: values[q],
                });
            assert(olds.contains(q));
            let j = choose|j: int| 0 <= j < olds.len() && olds[j] == q;
            assert(parts[j] == r);
            assert(added[rem.len() + j] == r);
        }
        assert(replaced(rs, olds, rem).contains(r) <==> del_result(rs, start, end).contains(r));
    }
    assert(t =~= u);
    lemma_update_keeps_apart(rs, start, end, values);
}

/// A range of `rs` of which the range `r`, found after payloads within
/// `[start, end)` were replaced, is a part.
pub open spec fn update_origin(
    rs: Set<RangeView>,
    start: u64,
    end: u64,
    values: Map<RangeView, Seq<u8>>,
    r: RangeView,
) -> RangeView {
    choose|q: RangeView| #[trigger]
        rs.contains(q) && q.start <= r.start && r.end <= q.end && (if overlaps(r, start, end) {
            r.start == clip(q, start, end).start && r.end == clip(q, start, end).end && r.value == values[q]
        } else {
            q.value == r.value && (q == r || (r.end == start && q.start == r.start && start < q.end) || (r.start
                == end && q.end == r.end && q.start < end))
        })
}

/// Every range found after payloads within `[start, end)` were replaced
/// is a part of a range that was there, and describes an interval.
pub proof fn lemma_update_member(
    rs: Set<RangeView>,
    start: u64,
    end: u64,
    values: Map<RangeView, Seq<u8>>,
    r: RangeView,
)
    requires
        all_valid(rs),
        start < end,
        update_result(rs, start, end, values).contains(r),
    ensures
        ({
            let q = update_origin(rs, start, end, values, r);
            &&& rs.contains(q)
            &&& q.start <= r.start
            &&& r.end <= q.end
            &&& (if overlaps(r, start, end) {
                r.start == clip(q, start, end).start && r.end == clip(q, start, end).end && r.value == values[q]
            } else {
                q.value == r.value && (q == r || (r.end == start && q.start == r.start && start < q.end) || (r.start
                    == end && q.end == r.end && q.start < end))
            })
        }),
        r.start < r.end,
{
    if del_result(rs, start, end).contains(r) {
        lemma_del_member(rs, start, end, r);
        let q = del_origin(rs, start, end, r);
        assert(rs.contains(q) && q.start <= r.start);
    } else {
        let q = choose|q: RangeView| #[trigger]
            rs.contains(q) && overlaps(q, start, end) && r == (RangeView {
                start: clip(q, start, end).start,
                end: clip(q, start, end).end,
                value: values[q],
            });
        assert(rs.contains(q) && q.start <= r.start);
    }
}

/// Clearing an interval keeps the ranges apart.
pub proof fn lemma_del_keeps_apart(rs: Set<RangeView>, start: u64, end: u64)
    requires
        all_valid(rs),
        non_overlapping(rs),
        start < end,
    ensures
        all_valid(del_result(rs, start, end)),
        non_overlapping(del_result(rs, start, end)),
{
    let d = del_result(rs, start, end);
    assert forall|a: RangeView, b: RangeView| #[trigger] d.contains(a) && #[trigger] d.contains(b) && a != b implies disjoint(
        a,
        b,
    ) by {
        lemma_del_member(rs, start, end, a);
        lemma_del_member(rs, start, end, b);
        let qa = del_origin(rs, start, end, a);
        let qb = del_origin(rs, start, end, b);
        if qa != qb {
            assert(disjoint(qa, qb));
        }
    }
    assert forall|r: RangeView| #[trigger] d.contains(r) implies r.start < r.end by {
        lemma_del_member(rs, start, end, r);
    }
}

/// Writing over an interval keeps the ranges apart.
pub proof fn lemma_put_keeps_apart(rs: Set<RangeView>, start: u64, end: u64, value: Seq<u8>)
    requires
        all_valid(rs),
        non_overlapping(rs),
        start < end,
    ensures
        all_valid(put_result(rs, start, end, value)),
        non_overlapping(put_result(rs, start, end, value)),
{
    lemma_del_keeps_apart(rs, start, end);
    let d = del_result(rs, start, end);
    assert forall|r: RangeView| #[trigger] d.contains(r) implies !overlaps(r, start, end) by {
        lemma_del_member(rs, start, end, r);
    }
}

/// Replacing payloads within an interval keeps the ranges apart.
pub proof fn lemma_update_keeps_apart(rs: Set<RangeView>, start: u64, end: u64, values: Map<RangeView, Seq<u8>>)
    requires
        all_valid(rs),
        non_overlapping(rs),
        start < end,
    ensures
        all_valid(update_result(rs, start, end, values)),
        non_overlapping(update_result(rs, start, end, values)),
{
    let u = update_result(rs, start, end, values);
    assert forall|a: RangeView, b: RangeView| #[trigger] u.contains(a) && #[trigger] u.contains(b) && a != b implies disjoint(
        a,
        b,
    ) by {
        lemma_update_member(rs, start, end, values, a);
        lemma_update_member(rs, start, end, values, b);
        let qa = update_origin(rs, start, end, values, a);
        let qb = update_origin(rs, start, end, values, b);
        if qa != qb {
            assert(disjoint(qa, qb));
        }
    }
    assert forall|r: RangeView| #[trigger] u.contains(r) implies r.start < r.end by {
        lemma_update_member(rs, start, end, values, r);
    }
}

/// Write, then read: after `value` has been written over `[start, end)`,
/// the ranges that meet the interval are the one range from `start` to
/// `end` with `value`.
pub proof fn lemma_put_then_get(rs: Set<RangeView>, start: u64, end: u64, value: Seq<u8>, l: Seq<RangeView>)
    requires
        all_valid(rs),
        start < end,
        is_overlap_listing(put_result(rs, start, end, value), start, end, l),
    ensures
        l == seq![RangeView { start, end, value }],
{
    let new = RangeView { start, end, value };
    let p = put_result(rs, start, end, value);
    assert(p.contains(new) && overlaps(new, start, end));
    assert(l.contains(new));
    assert forall|i: int| 0 <= i < l.len() implies #[trigger] l[i] == new by {
        assert(p.contains(l[i]));
        if l[i] != new {
            lemma_del_member(rs, start, end, l[i]);
        }
    }
    if l.len() > 1 {
        assert(l[0].end <= l[1].start);
    }
    assert(l =~= seq![new]);
}

/// Delete, then read: after `[start, end)` has been cleared, no range
/// meets the interval.
pub proof fn lemma_del_then_get(rs: Set<RangeView>, start: u64, end: u64, l: Seq<RangeView>)
    requires
        all_valid(rs),
        start < end,
        is_overlap_listing(del_result(rs, start, end), start, end, l),
    ensures
        l == Seq::<RangeView>::empty(),
{
    if l.len() > 0 {
        assert(del_result(rs, start, end).contains(l[0]));
        lemma_del_member(rs, start, end, l[0]);
    }
    assert(l =~= Seq::<RangeView>::empty());
}

/// Among ranges that do not overlap, the payload at a point is the
/// payload of any range that covers the point.
pub proof fn lemma_payload_at(rs: Set<RangeView>, r: RangeView, p: u64)
    requires
        non_overlapping(rs),
        rs.contains(r),
        covers(r, p),
    ensures
        payload_at(rs, p) == Some(r.value),
{
    let c = choose|c: RangeView| #[trigger] rs.contains(c) && covers(c, p);
    if c != r {
        assert(disjoint(c, r));
    }
}

/// Clearing an interval, point by point: within the interval nothing
/// is held any more, and outside it every point holds what it held.
pub proof fn lemma_del_pointwise(rs: Set<RangeView>, start: u64, end: u64, p: u64)
    requires
        all_valid(rs),
        non_overlapping(rs),
        start < end,
    ensures
        payload_at(del_result(rs, start, end), p) == (if start <= p && p < end {
            None
        } else {
            payload_at(rs, p)
        }),
{
    let d = del_result(rs, start, end);
    lemma_del_keeps_apart(rs, start, end);
    if exists|r: RangeView| #[trigger] d.contains(r) && covers(r, p) {
        let r = choose|r: RangeView| #[trigger] d.contains(r) && covers(r, p);
        lemma_del_member(rs, start, end, r);
        let q = del_origin(rs, start, end, r);
        lemma_payload_at(rs, q, p);
    } else if !(start <= p && p < end) {
        if exists|q: RangeView| #[trigger] rs.contains(q) && covers(q, p) {
            let q = choose|q: RangeView| #[trigger] rs.contains(q) && covers(q, p);
            if !overlaps(q, start, end) {
                assert(d.contains(q));
            } else if p < start {
                let left = RangeView { start: q.start, end: start, value: q.value };
                assert(is_left_remainder(rs, start, left));
                assert(d.contains(left) && covers(left, p));
            } else {
                let right = RangeView { start: end, end: q.end, value: q.value };
                assert(is_right_remainder(rs, end, right));
                assert(d.contains(right) && covers(right, p));
            }
        }
    }
}

/// Writing over an interval, point by point: within the interval every
/// point holds the new payload, and outside it every point holds what it
/// held.
pub proof fn lemma_put_pointwise(rs: Set<RangeView>, start: u64, end: u64, value: Seq<u8>, p: u64)
    requires
        all_valid(rs),
        non_overlapping(rs),
        start < end,
    ensures
        payload_at(put_result(rs, start, end, value), p) == (if start <= p && p < end {
            Some(value)
        } else {
            payload_at(rs, p)
        }),
{
    let d = del_result(rs, start, end);
    let new = RangeView { start, end, value };
    let w = put_result(rs, start, end, value);
    lemma_put_keeps_apart(rs, start, end, value);
    lemma_del_keeps_apart(rs, start, end);
    lemma_del_pointwise(rs, start, end, p);
    if start <= p && p < end {
        assert(w.contains(new));
        lemma_payload_at(w, new, p);
    } else if exists|r: RangeView| #[trigger] w.contains(r) && covers(r, p) {
        let r = choose|r: RangeView| #[trigger] w.contains(r) && covers(r, p);
        assert(d.contains(r));
        lemma_payload_at(d, r, p);
    } else if exists|r: RangeView| #[trigger] d.contains(r) && covers(r, p) {
        let r = choose|r: RangeView| #[trigger] d.contains(r) && covers(r, p);
        assert(w.contains(r));
    }
}

/// The range of `rs` that covers the point `p`, where there is one.
pub open spec fn range_at(rs: Set<RangeView>, p: u64) -> RangeView {
    choose|r: RangeView| #[trigger] rs.contains(r) && covers(r, p)
}

/// Replacing payloads within an interval, point by point: a point within
/// the interval that was covered holds the new payload of the range that
/// covered it, and every other point holds what it held.
pub proof fn lemma_update_pointwise(
    rs: Set<RangeView>,
    start: u64,
    end: u64,
    values: Map<RangeView, Seq<u8>>,
    p: u64,
)
    requires
        all_valid(rs),
        non_overlapping(rs),
        start < end,
    ensures
        payload_at(update_result(rs, start, end, values), p) == (if start <= p && p < end && payload_at(rs, p) is Some {
            Some(values[range_at(rs, p)])
        } else {
            payload_at(rs, p)
        }),
{
    let d = del_result(rs, start, end);
    let u = update_result(rs, start, end, values);
    lemma_update_keeps_apart(rs, start, end, values);
    lemma_del_keeps_apart(rs, start, end);
    lemma_del_pointwise(rs, start, end, p);
    if start <= p && p < end {
        if exists|q: RangeView| #[trigger] rs.contains(q) && covers(q, p) {
            let q = range_at(rs, p);
            let part = RangeView {
                start: clip(q, start, end).start,
                end: clip(q, start, end).end,
                value: values[q],
            };
            assert(is_updated_part(rs, start, end, values, part));
            assert(u.contains(part) && covers(part, p));
            lemma_payload_at(u, part, p);
        } else if exists|r: RangeView| #[trigger] u.contains(r) && covers(r, p) {
            let r = choose|r: RangeView| #[trigger] u.contains(r) && covers(r, p);
            lemma_update_member(rs, start, end, values, r);
            let q = update_origin(rs, start, end, values, r);
            assert(rs.contains(q) && covers(q, p));
        }
    } else if exists|r: RangeView| #[trigger] u.contains(r) && covers(r, p) {
        let r = choose|r: RangeView| #[trigger] u.contains(r) && covers(r, p);
        lemma_update_member(rs, start, end, values, r);
        assert(!is_updated_part(rs, start, end, values, r));
        assert(d.contains(r));
        lemma_payload_at(d, r, p);
    } else if exists|r: RangeView| #[trigger] d.contains(r) && covers(r, p) {
        let r = choose|r: RangeView| #[trigger] d.contains(r) && covers(r, p);
        assert(u.contains(r));
    }
}

/// Two listings of the same ranges have the same range at the place `i`.
proof fn lemma_same_range_at(rs: Set<RangeView>, start: u64, end: u64, l1: Seq<RangeView>, l2: Seq<RangeView>, i: int)
    requires
        all_valid(rs),
        is_overlap_listing(rs, start, end, l1),
        is_overlap_listing(rs, start, end, l2),
        0 <= i < l1.len(),
        i < l2.len(),
    ensures
        l1[i] == l2[i],
    decreases i,
{
    let a = l1[i];
    let b = l2[i];
    assert(rs.contains(a) && rs.contains(b));
    assert(l2.contains(a));
    assert(l1.contains(b));
    let j = choose|j: int| 0 <= j < l2.len() && l2[j] == a;
    let h = choose|h: int| 0 <= h < l1.len() && l1[h] == b;
    if j < i {
        lemma_same_range_at(rs, start, end, l1, l2, j);
        assert(l1[j].end <= l1[i].start);
    }
    if h < i {
        lemma_same_range_at(rs, start, end, l1, l2, h);
        assert(l2[h].end <= l2[i].start);
    }
    if i < j {
        assert(l2[i].end <= l2[j].start);
    }
    if i < h {
        assert(l1[i].end <= l1[h].start);
    }
}

/// The contract of a read leaves one result: two listings of the ranges
/// that meet an interval are equal.
pub proof fn lemma_overlap_listing_unique(
    rs: Set<RangeView>,
    start: u64,
    end: u64,
    l1: Seq<RangeView>,
    l2: Seq<RangeView>,
)
    requires
        all_valid(rs),
        is_overlap_listing(rs, start, end, l1),
        is_overlap_listing(rs, start, end, l2),
    ensures
        l1 == l2,
{
    assert forall|i: int| 0 <= i < l1.len() && i < l2.len() implies l1[i] == l2[i] by {
        lemma_same_range_at(rs, start, end, l1, l2, i);
    }
    if l1.len() < l2.len() {
        let extra = l2[l1.len() as int];
        assert(rs.contains(extra));
        assert(l1.contains(extra));
        let j = choose|j: int| 0 <= j < l1.len() && l1[j] == extra;
        assert(l2[j].end <= l2[l1.len() as int].start);
    }
    if l2.len() < l1.len() {
        let extra = l1[l2.len() as int];
        assert(rs.contains(extra));
        assert(l2.contains(extra));
        let j = choose|j: int| 0 <= j < l2.len() && l2[j] == extra;
        assert(l1[j].end <= l1[l2.len() as int].start);
    }
    assert(l1 =~= l2);
}

} // verus!
