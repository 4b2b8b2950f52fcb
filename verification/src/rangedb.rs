//! The range store over a bucket of an ordered store.
use vstd::prelude::*;
use crate::bucket::{Bucket, strip_entries};
use crate::endian::{u64_be_bytes, u64_from_be, u64_from_be_bytes};
use crate::error::{Error, ErrorKind};
use crate::key::{BaseDbKey, is_prefix, key_lt, lemma_key_lt_be, lemma_key_lt_empty};
use crate::kvs::{
    Batch, Contents, KeyValueStore, apply_batch, batch_views, entry_views, lemma_apply_batch_push,
    scan_exhausted, scan_holds, scan_listed, scan_result_by, scan_stopped_at, visit_gives,
    visit_total,
};
use crate::range::{
    Range, RangeView, clip, decode_entry, decode_range, del_result, disjoint, encode_value, is_overlap_listing,
    is_update_of, lemma_decode_entry, lemma_range_value_injective, non_overlapping, overlaps, put_result,
    range_value, range_views, ranges_of, ranges_wf, replaced, transform_gives, transform_total, update_result,
    well_encoded,
};
use crate::range_algebra::{lemma_del_target, lemma_put_target, lemma_update_target, remainders, updated_parts};
use crate::rangestore::RangeStore;

verus! {

/// What the visitor of an overlap scan answers for a stored value: whether
/// the range stored there starts below `end`.
spec fn starts_below(v: Seq<u8>, end: u64) -> bool {
    v.len() >= 8 && u64_from_be_bytes(v) < end
}

/// A scan of a range store above the key of `start`, stopping at the
/// first range that starts at or above `end`, finds the ranges that meet
/// `[start, end)`: the store's order is the order of the ranges, and no
/// range beyond the stop can reach back into the interval.
proof fn lemma_scan_is_listing(
    c: Contents,
    start: u64,
    end: u64,
    accept: spec_fn(Seq<u8>, Seq<u8>, bool) -> bool,
    rr: Seq<(Seq<u8>, Seq<u8>)>,
    l: Seq<RangeView>,
)
    requires
        ranges_wf(c),
        start < end,
        scan_result_by(c, Seq::<u8>::empty(), u64_be_bytes(start), accept, rr),
        forall|k: Seq<u8>, v: Seq<u8>, b: bool| #[trigger] accept(k, v, b) ==> b == starts_below(v, end),
        l.len() == rr.len(),
        forall|i: int| 0 <= i < l.len() ==> #[trigger] l[i] == decode_entry(rr[i].0, rr[i].1),
    ensures
        is_overlap_listing(ranges_of(c), start, end, l),
{
    let rs = ranges_of(c);
    let lo = u64_be_bytes(start);
    assert forall|i: int| 0 <= i < l.len() implies rs.contains(#[trigger] l[i]) && overlaps(l[i], start, end) by {
        let k = rr[i].0;
        let v = rr[i].1;
        assert(c.contains_key(k) && c[k] == v && key_lt(lo, k));
        assert(accept(k, v, true));
        lemma_decode_entry(k, v);
        lemma_key_lt_be(start, l[i].end);
    }
    assert forall|i: int, j: int| 0 <= i < j < l.len() implies (#[trigger] l[i]).end <= (#[trigger] l[j]).start by {
        assert(c.contains_key(rr[i].0) && c.contains_key(rr[j].0));
        assert(key_lt(rr[i].0, rr[j].0));
        lemma_decode_entry(rr[i].0, rr[i].1);
        lemma_decode_entry(rr[j].0, rr[j].1);
        lemma_key_lt_be(l[i].end, l[j].end);
        assert(rs.contains(l[i]) && rs.contains(l[j]));
        assert(disjoint(l[i], l[j]));
    }
    assert forall|r: RangeView| #[trigger] rs.contains(r) && overlaps(r, start, end) implies l.contains(r) by {
        let k = u64_be_bytes(r.end);
        lemma_key_lt_be(start, r.end);
        if scan_exhausted(c, lo, rr) {
            assert(c.contains_key(k));
        } else {
            let x = choose|x: Seq<u8>| #[trigger]
                scan_stopped_at(c, lo, rr, x) && (!is_prefix(Seq::<u8>::empty(), x) || accept(x, c[x], false));
            assert(accept(x, c[x], false));
            let stop = decode_entry(x, c[x]);
            lemma_decode_entry(x, c[x]);
            assert(rs.contains(stop));
            lemma_key_lt_be(r.end, stop.end);
            if r.end < stop.end {
                assert(c.contains_key(k));
            } else if r.end == stop.end {
                lemma_range_value_injective(r, stop);
            } else {
                assert(disjoint(r, stop));
            }
        }
        assert(scan_holds(rr, k));
        let i = choose|i: int| 0 <= i < rr.len() && #[trigger] rr[i].0 == k;
        lemma_decode_entry(rr[i].0, rr[i].1);
        lemma_key_lt_be(l[i].end, r.end);
        lemma_range_value_injective(l[i], r);
        assert(l[i] == r);
    }
}

/// The key `k` is the key of one of the first `n` ranges of `l`.
spec fn ends_among(l: Seq<RangeView>, n: int, k: Seq<u8>) -> bool {
    exists|j: int| 0 <= j < n && j < l.len() && #[trigger] u64_be_bytes(l[j].end) == k
}

/// Entries from which the keys of `removed` were taken and to which the
/// ranges of `added` were written stand for the ranges without `removed`
/// and with `added`, if those do not overlap.
proof fn lemma_rewritten(c: Contents, cur: Contents, removed: Seq<RangeView>, added: Seq<RangeView>)
    requires
        ranges_wf(c),
        forall|i: int| 0 <= i < removed.len() ==> ranges_of(c).contains(#[trigger] removed[i]),
        forall|i: int| 0 <= i < added.len() ==> (#[trigger] added[i]).start < added[i].end,
        non_overlapping(replaced(ranges_of(c), removed, added)),
        forall|k: Seq<u8>| #[trigger]
            cur.contains_key(k) <==> ends_among(added, added.len() as int, k) || (c.contains_key(k) && !ends_among(
                removed,
                removed.len() as int,
                k,
            )),
        forall|t: int|
            0 <= t < added.len() ==> cur[#[trigger] u64_be_bytes(added[t].end)] == range_value(added[t]),
        forall|k: Seq<u8>| #[trigger] cur.contains_key(k) && !ends_among(added, added.len() as int, k) ==> cur[k] == c[k],
    ensures
        ranges_wf(cur),
        ranges_of(cur) == replaced(ranges_of(c), removed, added),
{
    let rs = ranges_of(c);
    let target = replaced(rs, removed, added);
    assert forall|r: RangeView| ranges_of(cur).contains(r) implies target.contains(r) by {
        let k = u64_be_bytes(r.end);
        if ends_among(added, added.len() as int, k) {
            let j = choose|j: int| 0 <= j < added.len() && j < added.len() && #[trigger] u64_be_bytes(added[j].end) == k;
            lemma_key_lt_be(added[j].end, r.end);
            lemma_range_value_injective(added[j], r);
            assert(added[j] == r);
        } else {
            assert(rs.contains(r));
            if removed.contains(r) {
                let j = choose|j: int| 0 <= j < removed.len() && removed[j] == r;
                assert(u64_be_bytes(removed[j].end) == k);
            }
        }
    }
    assert forall|r: RangeView| target.contains(r) implies ranges_of(cur).contains(r) by {
        let k = u64_be_bytes(r.end);
        if added.contains(r) {
            let j = choose|j: int| 0 <= j < added.len() && added[j] == r;
            assert(u64_be_bytes(added[j].end) == k);
        } else if ends_among(added, added.len() as int, k) {
            let j = choose|j: int| 0 <= j < added.len() && j < added.len() && #[trigger] u64_be_bytes(added[j].end) == k;
            lemma_key_lt_be(added[j].end, r.end);
            assert(target.contains(added[j]));
            assert(!disjoint(added[j], r));
        } else {
            if ends_among(removed, removed.len() as int, k) {
                let j = choose|j: int|
                    0 <= j < removed.len() && j < removed.len() && #[trigger] u64_be_bytes(removed[j].end) == k;
                lemma_key_lt_be(removed[j].end, r.end);
                assert(rs.contains(removed[j]));
                assert(!disjoint(removed[j], r));
            }
        }
    }
    assert(ranges_of(cur) =~= target);
    assert forall|k: Seq<u8>| #[trigger] cur.contains_key(k) implies k.len() == 8 && cur[k].len() >= 8 by {
        if ends_among(added, added.len() as int, k) {
            let j = choose|j: int| 0 <= j < added.len() && j < added.len() && #[trigger] u64_be_bytes(added[j].end) == k;
        }
    }
    assert forall|r: RangeView| #[trigger] target.contains(r) implies r.start < r.end by {
        if added.contains(r) {
            let j = choose|j: int| 0 <= j < added.len() && added[j] == r;
        }
    }
}

/// Entries that a complete scan found to be ranges in ascending order,
/// each describing an interval and each ending before the next starts,
/// are a range store.
proof fn lemma_listed_wf(c: Contents, rr: Seq<(Seq<u8>, Seq<u8>)>)
    requires
        !c.contains_key(Seq::<u8>::empty()),
        scan_listed(c, Seq::<u8>::empty(), rr),
        scan_exhausted(c, Seq::<u8>::empty(), rr),
        forall|j: int| 0 <= j < rr.len() ==> (#[trigger] rr[j]).0.len() == 8 && rr[j].1.len() >= 8,
        forall|j: int|
            0 <= j < rr.len() ==> decode_entry((#[trigger] rr[j]).0, rr[j].1).start < decode_entry(rr[j].0, rr[j].1).end,
        forall|a: int, b: int|
            0 <= a < b < rr.len() ==> decode_entry((#[trigger] rr[a]).0, rr[a].1).end <= decode_entry(
                (#[trigger] rr[b]).0,
                rr[b].1,
            ).start,
    ensures
        ranges_wf(c),
{
    assert forall|k: Seq<u8>| #[trigger] c.contains_key(k) implies k.len() == 8 && c[k].len() >= 8 by {
        if k.len() == 0 {
            assert(k =~= Seq::<u8>::empty());
        }
        lemma_key_lt_empty(k);
        let j = choose|j: int| 0 <= j < rr.len() && #[trigger] rr[j].0 == k;
        assert(rr[j].0.len() == 8);
        assert(c[rr[j].0] == rr[j].1);
    }
    let rs = ranges_of(c);
    assert forall|r: RangeView| #[trigger] rs.contains(r) implies exists|j: int|
        0 <= j < rr.len() && r == decode_entry((#[trigger] rr[j]).0, rr[j].1) by {
        let k = u64_be_bytes(r.end);
        lemma_key_lt_empty(k);
        let j = choose|j: int| 0 <= j < rr.len() && #[trigger] rr[j].0 == k;
        assert(c[rr[j].0] == rr[j].1);
        let d = decode_entry(rr[j].0, rr[j].1);
        lemma_decode_entry(rr[j].0, rr[j].1);
        lemma_range_value_injective(d, r);
        lemma_key_lt_be(d.end, r.end);
        assert(r == d);
    }
    assert forall|r: RangeView| #[trigger] rs.contains(r) implies r.start < r.end by {
        let j = choose|j: int| 0 <= j < rr.len() && r == decode_entry((#[trigger] rr[j]).0, rr[j].1);
    }
    assert forall|a: RangeView, b: RangeView| #[trigger] rs.contains(a) && #[trigger] rs.contains(b) && a != b implies disjoint(
        a,
        b,
    ) by {
        let i = choose|j: int| 0 <= j < rr.len() && a == decode_entry((#[trigger] rr[j]).0, rr[j].1);
        let j = choose|j: int| 0 <= j < rr.len() && b == decode_entry((#[trigger] rr[j]).0, rr[j].1);
        if i < j {
            assert(decode_entry(rr[i].0, rr[i].1).end <= decode_entry(rr[j].0, rr[j].1).start);
        } else if j < i {
            assert(decode_entry(rr[j].0, rr[j].1).end <= decode_entry(rr[i].0, rr[i].1).start);
        }
    }
}

/// A range store: the ranges are the entries of a bucket, each stored
/// under its end.
pub struct RangeDbImpl<'a, S: KeyValueStore> {
    bucket: Bucket<'a, S>,
}

impl<'a, S: KeyValueStore> RangeDbImpl<'a, S> {
    /// The entries that stand for the ranges.
    pub closed spec fn contents(&self) -> Contents {
        self.bucket.contents()
    }

    /// The range store over `bucket`, whose entries are read and checked:
    /// each has to stand for a range that describes an interval, and no
    /// two of the ranges may have a point in common.
    pub fn new(bucket: Bucket<'a, S>) -> (r: Result<RangeDbImpl<'a, S>, Error>)
        ensures
            bucket.infallible() ==> (r is Ok <==> ranges_wf(bucket.contents())),
            r matches Ok(db) ==> db.wf() && db.contents() == bucket.contents() && db.infallible()
                == bucket.infallible(),
            r matches Err(e) ==> (e@ == ErrorKind::Malformed && !ranges_wf(bucket.contents())) || (e@
                == ErrorKind::Io && !bucket.infallible()),
    {
        let ghost c = bucket.contents();
        let empty = BaseDbKey::new(Vec::new());
        match bucket.has(&empty) {
            Err(e) => {
                return Err(e);
            },
            Ok(present) => {
                if present {
                    return Err(Error::new(ErrorKind::Malformed));
                }
            },
        }
        let visitor = |_k: &BaseDbKey, _v: &Vec<u8>| -> (b: bool)
            ensures
                b,
            { true };
        assert(visit_total(visitor));
        let entries = bucket.iter_all(&empty, visitor);
        let plen = bucket.prefix.as_bytes().len();
        let ghost p = bucket.prefix@;
        let ghost ev = entry_views(entries@);
        let ghost rr = strip_entries(ev, p.len());
        let ghost accept = |k: Seq<u8>, v: Seq<u8>, b: bool| visit_gives(visitor, p + k, v, b);
        assert(scan_result_by(c, Seq::<u8>::empty(), Seq::<u8>::empty(), accept, rr));
        assert(scan_exhausted(c, Seq::<u8>::empty(), rr));
        let mut last_end: u64 = 0;
        let mut i: usize = 0;
        while i < entries.len()
            invariant
                i <= entries.len(),
                plen == p.len(),
                ev == entry_views(entries@),
                rr == strip_entries(ev, p.len()),
                c == bucket.contents(),
                scan_listed(c, Seq::<u8>::empty(), rr),
                forall|j: int| 0 <= j < ev.len() ==> is_prefix(p, #[trigger] ev[j].0),
                forall|j: int| 0 <= j < i ==> (#[trigger] rr[j]).0.len() == 8 && rr[j].1.len() >= 8,
                forall|j: int|
                    0 <= j < i ==> decode_entry((#[trigger] rr[j]).0, rr[j].1).start < decode_entry(
                        rr[j].0,
                        rr[j].1,
                    ).end,
                forall|a: int, b: int|
                    0 <= a < b < i ==> decode_entry((#[trigger] rr[a]).0, rr[a].1).end <= decode_entry(
                        (#[trigger] rr[b]).0,
                        rr[b].1,
                    ).start,
                i > 0 ==> last_end == decode_entry(rr[i - 1].0, rr[i - 1].1).end,
            decreases entries.len() - i,
        {
            let entry = &entries[i];
            let full = entry.get_key().as_bytes();
            proof {
                assert(is_prefix(p, ev[i as int].0));
                assert(c.contains_key(rr[i as int].0) && c[rr[i as int].0] == rr[i as int].1);
            }
            let rel = vstd::slice::slice_subrange(full, plen, full.len());
            proof {
                assert(rel@ =~= rr[i as int].0);
            }
            match decode_range(rel, entry.get_value().as_slice()) {
                None => {
                    return Err(Error::new(ErrorKind::Malformed));
                },
                Some(range) => {
                    proof {
                        lemma_decode_entry(rr[i as int].0, rr[i as int].1);
                        assert(ranges_of(c).contains(range@));
                    }
                    if !range.validate() {
                        return Err(Error::new(ErrorKind::Malformed));
                    }
                    if i > 0 && last_end > range.get_start() {
                        proof {
                            let before = decode_entry(rr[i - 1].0, rr[i - 1].1);
                            assert(c.contains_key(rr[i - 1].0) && c[rr[i - 1].0] == rr[i - 1].1);
                            lemma_decode_entry(rr[i - 1].0, rr[i - 1].1);
                            assert(ranges_of(c).contains(before));
                            assert(key_lt(rr[i - 1].0, rr[i as int].0));
                            lemma_key_lt_be(before.end, range@.end);
                            assert(!disjoint(before, range@));
                        }
                        return Err(Error::new(ErrorKind::Malformed));
                    }
                    proof {
                        assert forall|a: int| 0 <= a < i implies decode_entry((#[trigger] rr[a]).0, rr[a].1).end
                            <= range@.start by {
                            if a < i - 1 {
                                assert(decode_entry(rr[a].0, rr[a].1).end <= decode_entry(rr[i - 1].0, rr[i - 1].1).start);
                            }
                        }
                    }
                    last_end = range.get_end();
                },
            }
            i += 1;
        }
        proof {
            lemma_listed_wf(c, rr);
        }
        Ok(RangeDbImpl { bucket })
    }

    /// The ranges that meet `[start, end)`, in ascending order, for bounds
    /// that describe an interval.
    fn overlapping(&self, start: u64, end: u64) -> (l: Vec<Range>)
        requires
            ranges_wf(self.contents()),
            start < end,
        ensures
            is_overlap_listing(ranges_of(self.contents()), start, end, range_views(l@)),
    {
        let lo = BaseDbKey::from(start);
        let visitor = |_k: &BaseDbKey, v: &Vec<u8>| -> (b: bool)
            ensures
                b == starts_below(v@, end),
            { v.len() >= 8 && u64_from_be(v.as_slice()) < end };
        assert(visit_total(visitor));
        let entries = self.bucket.iter_all(&lo, visitor);
        let plen = self.bucket.prefix.as_bytes().len();
        let ghost c = self.contents();
        let ghost p = self.bucket.prefix@;
        let ghost ev = entry_views(entries@);
        let ghost rr = strip_entries(ev, p.len());
        let ghost accept = |k: Seq<u8>, v: Seq<u8>, b: bool| visit_gives(visitor, p + k, v, b);
        assert(scan_result_by(c, Seq::<u8>::empty(), lo@, accept, rr));
        let mut out: Vec<Range> = Vec::with_capacity(entries.len());
        let mut i: usize = 0;
        while i < entries.len()
            invariant
                i <= entries.len(),
                out.len() == i,
                plen == p.len(),
                ev == entry_views(entries@),
                rr == strip_entries(ev, p.len()),
                well_encoded(c),
                forall|j: int| 0 <= j < ev.len() ==> is_prefix(p, #[trigger] ev[j].0),
                forall|j: int| 0 <= j < rr.len() ==> c.contains_key(#[trigger] rr[j].0) && c[rr[j].0] == rr[j].1,
                forall|j: int| 0 <= j < i ==> #[trigger] out@[j]@ == decode_entry(rr[j].0, rr[j].1),
            decreases entries.len() - i,
        {
            let entry = &entries[i];
            let full = entry.get_key().as_bytes();
            proof {
                assert(is_prefix(p, ev[i as int].0));
                assert(c.contains_key(rr[i as int].0));
            }
            let rel = vstd::slice::slice_subrange(full, plen, full.len());
            proof {
                assert(rel@ =~= rr[i as int].0);
            }
            // Every entry of a range store has the shape of a range.
            if let Some(range) = decode_range(rel, entry.get_value().as_slice()) {
                out.push(range);
            }
            i += 1;
        }
        proof {
            assert forall|k: Seq<u8>, v: Seq<u8>, b: bool| #[trigger] accept(k, v, b) implies b == starts_below(
                v,
                end,
            ) by {
            }
            lemma_scan_is_listing(c, start, end, accept, rr, range_views(out@));
        }
        out
    }

    /// Takes the ranges `removed` out and writes the ranges `added`, in
    /// one batch.
    fn rewrite(&mut self, removed: &Vec<Range>, added: &Vec<Range>) -> (r: Result<(), Error>)
        requires
            ranges_wf(old(self).contents()),
            forall|i: int|
                0 <= i < removed@.len() ==> ranges_of(old(self).contents()).contains(#[trigger] range_views(removed@)[i]),
            forall|i: int|
                0 <= i < added@.len() ==> (#[trigger] range_views(added@)[i]).start < range_views(added@)[i].end,
            non_overlapping(replaced(ranges_of(old(self).contents()), range_views(removed@), range_views(added@))),
        ensures
            ranges_wf(final(self).contents()),
            final(self).bucket.infallible() == old(self).bucket.infallible(),
            old(self).bucket.infallible() ==> r is Ok,
            r is Ok ==> ranges_of(final(self).contents()) == replaced(
                ranges_of(old(self).contents()),
                range_views(removed@),
                range_views(added@),
            ),
            r is Err ==> final(self).contents() == old(self).contents(),
            r matches Err(e) ==> e@ == ErrorKind::Io,
    {
        let ghost c = self.contents();
        let ghost rem = range_views(removed@);
        let ghost add = range_views(added@);
        let mut ops: Vec<Batch> = Vec::with_capacity(removed.len());
        let mut i: usize = 0;
        while i < removed.len()
            invariant
                i <= removed.len(),
                rem == range_views(removed@),
                forall|k: Seq<u8>| #[trigger]
                    apply_batch(c, batch_views(ops@)).contains_key(k) <==> c.contains_key(k) && !ends_among(
                        rem,
                        i as int,
                        k,
                    ),
                forall|k: Seq<u8>| #[trigger]
                    apply_batch(c, batch_views(ops@)).contains_key(k) ==> apply_batch(c, batch_views(ops@))[k] == c[k],
            decreases removed.len() - i,
        {
            let ghost before = batch_views(ops@);
            let key = BaseDbKey::from(removed[i].get_end());
            let op = Batch::BatchDel { key };
            proof {
                lemma_apply_batch_push(c, before, op@);
                assert(batch_views(ops@.push(op)) =~= before.push(op@));
                let gone = u64_be_bytes(rem[i as int].end);
                assert forall|k: Seq<u8>| ends_among(rem, i + 1, k) <==> ends_among(rem, i as int, k) || k == gone by {
                    if ends_among(rem, i + 1, k) {
                        let j = choose|j: int| 0 <= j < i + 1 && j < rem.len() && #[trigger] u64_be_bytes(rem[j].end) == k;
                        if j < i {
                            assert(ends_among(rem, i as int, k));
                        }
                    }
                    if ends_among(rem, i as int, k) {
                        let j = choose|j: int| 0 <= j < i && j < rem.len() && #[trigger] u64_be_bytes(rem[j].end) == k;
                        assert(u64_be_bytes(rem[j].end) == k);
                    }
                    if k == gone {
                        assert(u64_be_bytes(rem[i as int].end) == k);
                    }
                }
            }
            ops.push(op);
            i += 1;
        }
        let ghost d = apply_batch(c, batch_views(ops@));
        let mut j: usize = 0;
        while j < added.len()
            invariant
                j <= added.len(),
                add == range_views(added@),
                non_overlapping(replaced(ranges_of(c), rem, add)),
                forall|t: int| 0 <= t < add.len() ==> (#[trigger] add[t]).start < add[t].end,
                forall|k: Seq<u8>| #[trigger]
                    apply_batch(c, batch_views(ops@)).contains_key(k) <==> d.contains_key(k) || ends_among(
                        add,
                        j as int,
                        k,
                    ),
                forall|t: int|
                    0 <= t < j ==> apply_batch(c, batch_views(ops@))[#[trigger] u64_be_bytes(add[t].end)] == range_value(
                        add[t],
                    ),
                forall|k: Seq<u8>| #[trigger]
                    apply_batch(c, batch_views(ops@)).contains_key(k) && !ends_among(add, j as int, k) ==> apply_batch(
                        c,
                        batch_views(ops@),
                    )[k] == d[k],
            decreases added.len() - j,
        {
            let ghost before = batch_views(ops@);
            let range = &added[j];
            let key = BaseDbKey::from(range.get_end());
            let value = encode_value(range.get_start(), range.get_value());
            let op = Batch::BatchPut { key, value };
            proof {
                lemma_apply_batch_push(c, before, op@);
                assert(batch_views(ops@.push(op)) =~= before.push(op@));
                let here = u64_be_bytes(add[j as int].end);
                assert forall|k: Seq<u8>| ends_among(add, j + 1, k) <==> ends_among(add, j as int, k) || k == here by {
                    if ends_among(add, j + 1, k) {
                        let t = choose|t: int| 0 <= t < j + 1 && t < add.len() && #[trigger] u64_be_bytes(add[t].end) == k;
                        if t < j {
                            assert(ends_among(add, j as int, k));
                        }
                    }
                    if ends_among(add, j as int, k) {
                        let t = choose|t: int| 0 <= t < j && t < add.len() && #[trigger] u64_be_bytes(add[t].end) == k;
                        assert(u64_be_bytes(add[t].end) == k);
                    }
                    if k == here {
                        assert(u64_be_bytes(add[j as int].end) == k);
                    }
                }
                assert forall|t: int| 0 <= t < j && u64_be_bytes(add[t].end) == here implies range_value(add[t])
                    == range_value(add[j as int]) by {
                    lemma_key_lt_be(add[t].end, add[j as int].end);
                    let target = replaced(ranges_of(c), rem, add);
                    assert(add.contains(add[t]) && add.contains(add[j as int]));
                    assert(target.contains(add[t]) && target.contains(add[j as int]));
                    if add[t] != add[j as int] {
                        assert(disjoint(add[t], add[j as int]));
                    }
                }
            }
            ops.push(op);
            j += 1;
        }
        let r = self.bucket.batch(ops.as_slice());
        proof {
            if r is Ok {
                lemma_rewritten(c, self.contents(), rem, add);
            }
        }
        r
    }
}

impl<'a, S: KeyValueStore> RangeDbImpl<'a, S> {
    /// What is left outside `[start, end)` of the ranges `olds`, which
    /// meet the interval and are listed in ascending order.
    fn cut(olds: &Vec<Range>, start: u64, end: u64) -> (rem: Vec<Range>)
        ensures
            range_views(rem@) == remainders(range_views(olds@), start, end),
    {
        let mut rem: Vec<Range> = Vec::new();
        if olds.len() > 0 {
            let first = &olds[0];
            if first.get_start() < start {
                rem.push(Range::new(first.get_start(), start, first.get_value()));
            }
            let last = &olds[olds.len() - 1];
            if end < last.get_end() {
                rem.push(Range::new(end, last.get_end(), last.get_value()));
            }
        }
        proof {
            assert(range_views(rem@) =~= remainders(range_views(olds@), start, end));
        }
        rem
    }
}

impl<'a, S: KeyValueStore> RangeStore for RangeDbImpl<'a, S> {
    open spec fn ranges(&self) -> Set<RangeView> {
        ranges_of(self.contents())
    }

    open spec fn wf(&self) -> bool {
        ranges_wf(self.contents())
    }

    closed spec fn infallible(&self) -> bool {
        self.bucket.infallible()
    }

    proof fn lemma_ranges_apart(&self) {
    }

    fn get(&self, start: u64, end: u64) -> (r: Result<Vec<Range>, Error>) {
        if start >= end {
            return Err(Error::new(ErrorKind::InvalidRange));
        }
        Ok(self.overlapping(start, end))
    }

    fn del(&mut self, start: u64, end: u64) -> (r: Result<Vec<Range>, Error>) {
        if start >= end {
            return Err(Error::new(ErrorKind::InvalidRange));
        }
        let olds = self.overlapping(start, end);
        let rem = Self::cut(&olds, start, end);
        proof {
            let left = range_views(rem@);
            lemma_del_target(self.ranges(), start, end, range_views(olds@));
            assert forall|i: int| 0 <= i < left.len() implies (#[trigger] left[i]).start < left[i].end by {
                assert(left.contains(left[i]));
                assert(del_result(self.ranges(), start, end).contains(left[i]));
            }
        }
        match self.rewrite(&olds, &rem) {
            Ok(()) => Ok(olds),
            Err(e) => Err(e),
        }
    }

    fn put(&mut self, start: u64, end: u64, value: &[u8]) -> (r: Result<(), Error>) {
        if start >= end {
            return Err(Error::new(ErrorKind::InvalidRange));
        }
        let olds = self.overlapping(start, end);
        let mut added = Self::cut(&olds, start, end);
        let ghost rem = range_views(added@);
        let new = Range::new(start, end, value);
        added.push(new);
        proof {
            let all = range_views(added@);
            assert(all =~= rem.push(new@));
            lemma_put_target(self.ranges(), start, end, value@, range_views(olds@));
            assert forall|i: int| 0 <= i < all.len() implies (#[trigger] all[i]).start < all[i].end by {
                assert(all.contains(all[i]));
                assert(put_result(self.ranges(), start, end, value@).contains(all[i]));
            }
        }
        self.rewrite(&olds, &added)
    }

    fn update<F: Fn(Range) -> Vec<u8>>(&mut self, start: u64, end: u64, f: F) -> (r: Result<(), Error>) {
        if start >= end {
            return Err(Error::new(ErrorKind::InvalidRange));
        }
        let olds = self.overlapping(start, end);
        let mut added = Self::cut(&olds, start, end);
        let ghost rs = self.ranges();
        let ghost ov = range_views(olds@);
        let ghost rem = range_views(added@);
        let ghost mut values: Map<RangeView, Seq<u8>> = Map::empty();
        proof {
            assert forall|a: int, b: int| 0 <= a < b < ov.len() implies #[trigger] ov[a] != #[trigger] ov[b] by {
                assert(rs.contains(ov[a]) && rs.contains(ov[b]));
                assert(ov[a].end <= ov[b].start);
            }
            assert(range_views(added@) =~= rem + updated_parts(ov, start, end, values).take(0));
        }
        let mut i: usize = 0;
        while i < olds.len()
            invariant
                i <= olds.len(),
                ov == range_views(olds@),
                transform_total(f),
                forall|a: int, b: int| 0 <= a < b < ov.len() ==> #[trigger] ov[a] != #[trigger] ov[b],
                forall|j: int|
                    0 <= j < i ==> values.contains_key(#[trigger] ov[j]) && transform_gives(
                        f,
                        clip(ov[j], start, end),
                        values[ov[j]],
                    ),
                range_views(added@) == rem + updated_parts(ov, start, end, values).take(i as int),
            decreases olds.len() - i,
        {
            let q = &olds[i];
            let lo = if q.get_start() < start { start } else { q.get_start() };
            let hi = if end < q.get_end() { end } else { q.get_end() };
            let part = Range::new(lo, hi, q.get_value());
            let ghost shown = part@;
            let ghost before = values;
            let ghost listed = range_views(added@);
            let v = f(part);
            let piece = Range::new(lo, hi, v.as_slice());
            added.push(piece);
            proof {
                values = values.insert(ov[i as int], v@);
                assert(shown == clip(ov[i as int], start, end));
                assert(transform_gives(f, clip(ov[i as int], start, end), values[ov[i as int]]));
                assert forall|j: int| 0 <= j < i implies values[#[trigger] ov[j]] == before[ov[j]] by {
                    assert(ov[j] != ov[i as int]);
                }
                assert(range_views(added@) =~= listed.push(piece@));
                assert(updated_parts(ov, start, end, values).take(i + 1) =~= updated_parts(ov, start, end, before).take(
                    i as int,
                ).push(piece@));
                assert(range_views(added@) =~= rem + updated_parts(ov, start, end, values).take(i + 1));
            }
            i += 1;
        }
        proof {
            let all = range_views(added@);
            assert(updated_parts(ov, start, end, values).take(i as int) =~= updated_parts(ov, start, end, values));
            lemma_update_target(rs, start, end, ov, values);
            assert forall|j: int| 0 <= j < all.len() implies (#[trigger] all[j]).start < all[j].end by {
                assert(all.contains(all[j]));
                assert(update_result(rs, start, end, values).contains(all[j]));
            }
            assert forall|q: RangeView| #[trigger] rs.contains(q) && overlaps(q, start, end) implies values.contains_key(
                q,
            ) && transform_gives(f, clip(q, start, end), values[q]) by {
                assert(ov.contains(q));
                let j = choose|j: int| 0 <= j < ov.len() && ov[j] == q;
                assert(transform_gives(f, clip(ov[j], start, end), values[ov[j]]));
            }
        }
        let r = self.rewrite(&olds, &added);
        proof {
            if r is Ok {
                assert(self.ranges() == update_result(rs, start, end, values));
                assert(is_update_of(rs, start, end, f, self.ranges()));
            }
        }
        r
    }
}

} // verus!
