use vstd::prelude::*;
use vstd::std_specs::cmp::PartialOrdIs;
use vstd::std_specs::cmp::PartialOrdSpec;

verus! {

/// In-place minimum / maximum update.
pub trait SetMinMax: Sized {
    /// Replaces `self` by `other` when `other` is smaller; returns whether it did.
    fn setmin(&mut self, other: Self) -> (changed: bool)
        ensures
            changed ==> *final(self) == other,
            !changed ==> *final(self) == *old(self),
    ;

    /// Replaces `self` by `other` when `other` is larger; returns whether it did.
    fn setmax(&mut self, other: Self) -> (changed: bool)
        ensures
            changed ==> *final(self) == other,
            !changed ==> *final(self) == *old(self),
    ;
}

impl<T: PartialOrd> SetMinMax for T {
    fn setmin(&mut self, other: Self) -> (changed: bool)
        ensures
            T::obeys_partial_cmp_spec() ==> (changed <==> (*old(self)).is_gt(&other)),
            T::obeys_partial_cmp_spec() ==> *final(self) == if (*old(self)).is_gt(&other) {
                other
            } else {
                *old(self)
            },
            T::obeys_partial_cmp_spec() && other.partial_cmp_spec(&other) == Some(
                core::cmp::Ordering::Equal,
            ) ==> !(*final(self)).is_gt(&other),
    {
        if *self > other {
            *self = other;
            true
        } else {
            false
        }
    }

    fn setmax(&mut self, other: Self) -> (changed: bool)
        ensures
            T::obeys_partial_cmp_spec() ==> (changed <==> (*old(self)).is_lt(&other)),
            T::obeys_partial_cmp_spec() ==> *final(self) == if (*old(self)).is_lt(&other) {
                other
            } else {
                *old(self)
            },
            T::obeys_partial_cmp_spec() && other.partial_cmp_spec(&other) == Some(
                core::cmp::Ordering::Equal,
            ) ==> !(*final(self)).is_lt(&other),
    {
        if *self < other {
            *self = other;
            true
        } else {
            false
        }
    }
}

} // verus!
