use vstd::prelude::*;
use vstd::std_specs::ops::{BitAndSpecImpl, BitOrSpecImpl, BitXorSpecImpl, SubSpecImpl};
use super::bitmap::RoaringBitmap;
use super::forms::combined_runs;
use super::ops::Operation;

verus! {

/// Some well-formed bitmap holding `values`.
pub open spec fn bitmap_of(values: Set<int>) -> RoaringBitmap {
    choose|r: RoaringBitmap| r.wf() && r@ == values
}

impl<'a> BitOrSpecImpl<&'a RoaringBitmap> for &'a RoaringBitmap {
    /// The result is pinned by the method's own `ensures`, not by this value.
    open spec fn obeys_bitor_spec() -> bool {
        false
    }

    open spec fn bitor_req(self, rhs: &'a RoaringBitmap) -> bool {
        self.wf() && rhs.wf()
    }

    open spec fn bitor_spec(self, rhs: &'a RoaringBitmap) -> RoaringBitmap {
        bitmap_of(self@.union(rhs@))
    }
}

/// `a | b` is the union.
impl<'a> core::ops::BitOr<&'a RoaringBitmap> for &'a RoaringBitmap {
    type Output = RoaringBitmap;

    fn bitor(self, rhs: &'a RoaringBitmap) -> (r: RoaringBitmap)
        ensures
            r.wf(),
            r@ == self@.union(rhs@),
            r.run_keys() == combined_runs(Operation::Union, self.run_keys(), rhs.run_keys(), self@, rhs@),
    {
        self.union(rhs)
    }
}

impl<'a> BitAndSpecImpl<&'a RoaringBitmap> for &'a RoaringBitmap {
    /// The result is pinned by the method's own `ensures`, not by this value.
    open spec fn obeys_bitand_spec() -> bool {
        false
    }

    open spec fn bitand_req(self, rhs: &'a RoaringBitmap) -> bool {
        self.wf() && rhs.wf()
    }

    open spec fn bitand_spec(self, rhs: &'a RoaringBitmap) -> RoaringBitmap {
        bitmap_of(self@.intersect(rhs@))
    }
}

/// `a & b` is the intersection.
impl<'a> core::ops::BitAnd<&'a RoaringBitmap> for &'a RoaringBitmap {
    type Output = RoaringBitmap;

    fn bitand(self, rhs: &'a RoaringBitmap) -> (r: RoaringBitmap)
        ensures
            r.wf(),
            r@ == self@.intersect(rhs@),
            r.run_keys() == combined_runs(Operation::Intersection, self.run_keys(), rhs.run_keys(), self@, rhs@),
    {
        self.intersection(rhs)
    }
}

impl<'a> SubSpecImpl<&'a RoaringBitmap> for &'a RoaringBitmap {
    /// The result is pinned by the method's own `ensures`, not by this value.
    open spec fn obeys_sub_spec() -> bool {
        false
    }

    open spec fn sub_req(self, rhs: &'a RoaringBitmap) -> bool {
        self.wf() && rhs.wf()
    }

    open spec fn sub_spec(self, rhs: &'a RoaringBitmap) -> RoaringBitmap {
        bitmap_of(self@.difference(rhs@))
    }
}

/// `a - b` is the difference.
impl<'a> core::ops::Sub<&'a RoaringBitmap> for &'a RoaringBitmap {
    type Output = RoaringBitmap;

    fn sub(self, rhs: &'a RoaringBitmap) -> (r: RoaringBitmap)
        ensures
            r.wf(),
            r@ == self@.difference(rhs@),
            r.run_keys() == combined_runs(Operation::Difference, self.run_keys(), rhs.run_keys(), self@, rhs@),
    {
        self.difference(rhs)
    }
}

impl<'a> BitXorSpecImpl<&'a RoaringBitmap> for &'a RoaringBitmap {
    /// The result is pinned by the method's own `ensures`, not by this value.
    open spec fn obeys_bitxor_spec() -> bool {
        false
    }

    open spec fn bitxor_req(self, rhs: &'a RoaringBitmap) -> bool {
        self.wf() && rhs.wf()
    }

    open spec fn bitxor_spec(self, rhs: &'a RoaringBitmap) -> RoaringBitmap {
        bitmap_of(self@.difference(rhs@).union(rhs@.difference(self@)))
    }
}

/// `a ^ b` is the symmetric difference.
impl<'a> core::ops::BitXor<&'a RoaringBitmap> for &'a RoaringBitmap {
    type Output = RoaringBitmap;

    fn bitxor(self, rhs: &'a RoaringBitmap) -> (r: RoaringBitmap)
        ensures
            r.wf(),
            r@ == self@.difference(rhs@).union(rhs@.difference(self@)),
            r.run_keys() == combined_runs(Operation::SymmetricDifference, self.run_keys(), rhs.run_keys(), self@, rhs@),
    {
        self.symmetric_difference(rhs)
    }
}

} // verus!
