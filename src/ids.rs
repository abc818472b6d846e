//! Allocation of the lowest identifier that a set leaves free.

use std::collections::HashSet;
use vstd::prelude::*;

verus! {

broadcast use vstd::std_specs::hash::group_hash_axioms;

/// An identifier of a record: a bookmark id, an item's internal id or its reference id.
pub type Id = u32;

/// The largest identifier that can be handed out.
pub const ID_MAX: Id = 4294967295;

/// `r` is the smallest identifier at or above `floor` that `used` does not hold.
pub open spec fn is_lowest_free(used: Set<Id>, floor: Id, r: Id) -> bool {
    &&& floor <= r
    &&& !used.contains(r)
    &&& forall|j: Id| floor <= j < r ==> used.contains(j)
}

/// Some identifier at or above `floor` is missing from `used`.
pub open spec fn has_free_at_or_above(used: Set<Id>, floor: Id) -> bool {
    exists|x: Id| floor <= x && !used.contains(x)
}

/// A finite set that holds every identifier of the range `lo .. hi` has at least `hi - lo` members.
proof fn lemma_range_within(s: Set<Id>, lo: int, hi: int)
    requires
        s.finite(),
        0 <= lo <= hi <= ID_MAX + 1,
        forall|j: Id| lo <= j < hi ==> s.contains(j),
    ensures
        hi - lo <= s.len(),
    decreases hi - lo,
{
    if lo < hi {
        let k = (hi - 1) as Id;
        let t = s.remove(k);
        assert forall|j: Id| lo <= j < hi - 1 implies t.contains(j) by {
            assert(s.contains(j));
        }
        lemma_range_within(t, lo, hi - 1);
    }
}

/// A finite set with fewer members than there are identifiers leaves one free.
pub proof fn lemma_free_exists(used: Set<Id>)
    requires
        used.finite(),
        used.len() <= ID_MAX,
    ensures
        has_free_at_or_above(used, 0),
{
    if !has_free_at_or_above(used, 0) {
        assert forall|j: Id| 0 <= j < ID_MAX + 1 implies used.contains(j) by {
            if !used.contains(j) {
                assert(0 <= j && !used.contains(j));
            }
        }
        lemma_range_within(used, 0, ID_MAX + 1);
    }
}

/// The smallest identifier at or above `floor` that `used` does not hold.
pub fn lowest_free_at_or_above(used: &HashSet<Id>, floor: Id) -> (r: Id)
    requires
        has_free_at_or_above(used@, floor),
    ensures
        is_lowest_free(used@, floor, r),
{
    let ghost x = choose|x: Id| floor <= x && !used@.contains(x);
    let mut i: Id = floor;
    while used.contains(&i)
        invariant
            floor <= i <= x,
            !used@.contains(x),
            forall|j: Id| floor <= j < i ==> used@.contains(j),
        decreases x - i,
    {
        i = i + 1;
    }
    i
}

/// The smallest identifier that `used` does not hold.
pub fn lowest_free(used: &HashSet<Id>) -> (r: Id)
    requires
        has_free_at_or_above(used@, 0),
    ensures
        is_lowest_free(used@, 0, r),
{
    lowest_free_at_or_above(used, 0)
}

} // verus!
