//! The contract of a range store.
use vstd::prelude::*;
use crate::error::{Error, ErrorKind};
use crate::range::{
    Range, RangeView, all_valid, del_result, is_overlap_listing, is_update_of, non_overlapping, put_result,
    range_views, transform_total,
};

verus! {

/// Storage of ranges that never overlap.
///
/// A store states which ranges it holds (`ranges`), when it is in order
/// (`wf`), and whether its backend can fail (`infallible`).  Every
/// operation keeps the store in order, and a failed operation changes
/// nothing.
pub trait RangeStore {
    /// The ranges that the store holds.
    spec fn ranges(&self) -> Set<RangeView>;

    /// The store is in order.
    spec fn wf(&self) -> bool;

    /// Whether every operation of the backend succeeds.
    spec fn infallible(&self) -> bool;

    /// In a store that is in order every range describes an interval, and
    /// no two ranges have a point in common.
    proof fn lemma_ranges_apart(&self)
        requires
            self.wf(),
        ensures
            all_valid(self.ranges()),
            non_overlapping(self.ranges()),
    ;

    /// The ranges that meet `[start, end)`, in ascending order.
    fn get(&self, start: u64, end: u64) -> (r: Result<Vec<Range>, Error>)
        requires
            self.wf(),
        ensures
            r is Ok <==> start < end,
            r matches Ok(l) ==> is_overlap_listing(self.ranges(), start, end, range_views(l@)),
            r matches Err(e) ==> e@ == ErrorKind::InvalidRange,
    ;

    /// Clears `[start, end)`: ranges within it are removed, ranges that
    /// reach across its bounds are cut back to what lies outside.  Returns
    /// the ranges that met the interval, as they were.
    fn del(&mut self, start: u64, end: u64) -> (r: Result<Vec<Range>, Error>)
        requires
            old(self).wf(),
        ensures
            final(self).wf(),
            final(self).infallible() == old(self).infallible(),
            r is Err ==> final(self).ranges() == old(self).ranges(),
            start >= end ==> r is Err,
            start < end && old(self).infallible() ==> r is Ok,
            r matches Err(e) ==> e@ == (if start >= end {
                ErrorKind::InvalidRange
            } else {
                ErrorKind::Io
            }),
            r matches Ok(l) ==> is_overlap_listing(old(self).ranges(), start, end, range_views(l@)),
            r is Ok ==> final(self).ranges() == del_result(old(self).ranges(), start, end),
    ;

    /// Writes `value` over `[start, end)`: the interval is cleared as by
    /// `del`, then the range from `start` to `end` with `value` is added.
    fn put(&mut self, start: u64, end: u64, value: &[u8]) -> (r: Result<(), Error>)
        requires
            old(self).wf(),
        ensures
            final(self).wf(),
            final(self).infallible() == old(self).infallible(),
            r is Err ==> final(self).ranges() == old(self).ranges(),
            start >= end ==> r is Err,
            start < end && old(self).infallible() ==> r is Ok,
            r matches Err(e) ==> e@ == (if start >= end {
                ErrorKind::InvalidRange
            } else {
                ErrorKind::Io
            }),
            r is Ok ==> final(self).ranges() == put_result(old(self).ranges(), start, end, value@),
    ;

    /// Replaces the payloads within `[start, end)`: of each range that
    /// meets the interval, the part within it gets the payload that `f`
    /// returns for that part, and what lies outside keeps its payload.
    fn update<F: Fn(Range) -> Vec<u8>>(&mut self, start: u64, end: u64, f: F) -> (r: Result<(), Error>)
        requires
            old(self).wf(),
            transform_total(f),
        ensures
            final(self).wf(),
            final(self).infallible() == old(self).infallible(),
            r is Err ==> final(self).ranges() == old(self).ranges(),
            start >= end ==> r is Err,
            start < end && old(self).infallible() ==> r is Ok,
            r matches Err(e) ==> e@ == (if start >= end {
                ErrorKind::InvalidRange
            } else {
                ErrorKind::Io
            }),
            r is Ok ==> is_update_of(old(self).ranges(), start, end, f, final(self).ranges()),
    ;
}

} // verus!
