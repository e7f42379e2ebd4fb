//! Properties of the forest's operations, stated over the partitions that
//! their contracts describe.
use vstd::prelude::*;
use crate::forest::{find_root_outcome, union_outcome, SetError};
use crate::partition::{grown, merged};

verus! {

/// Growing by `j` and then by `k` elements is growing by `j + k`: the size
/// goes up by the sum, and the earlier elements keep their classes.
pub proof fn law_grow_adds_up(roots: Seq<int>, j: nat, k: nat)
    ensures
        grown(grown(roots, j), k) == grown(roots, j + k),
        grown(grown(roots, j), k).len() == roots.len() + j + k,
{
    assert(grown(grown(roots, j), k) =~= grown(roots, j + k));
}

/// Two lookups of the same element with nothing in between give the same
/// representative, and leave the partition as it was.
pub proof fn law_find_root_stable(
    s0: Seq<int>,
    element: int,
    r1: Result<usize, SetError>,
    s1: Seq<int>,
    r2: Result<usize, SetError>,
    s2: Seq<int>,
)
    requires
        find_root_outcome(s0, element, r1, s1),
        find_root_outcome(s1, element, r2, s2),
    ensures
        r1 == r2,
        s2 == s0,
{
}

/// After a successful union of `a` and `b`, both have the same
/// representative.
pub proof fn law_union_joins(s0: Seq<int>, a: int, b: int, s1: Seq<int>)
    requires
        union_outcome(s0, a, b, Ok(()), s1),
    ensures
        s1[a] == s1[b],
{
}

/// A union of `a` and `b` leaves the representative of every element `c`
/// that was in neither class.
pub proof fn law_union_keeps_others(
    s0: Seq<int>,
    a: int,
    b: int,
    res: Result<(), SetError>,
    s1: Seq<int>,
    c: int,
)
    requires
        union_outcome(s0, a, b, res, s1),
        0 <= c < s0.len(),
        s0[c] != s0[a],
        s0[c] != s0[b],
    ensures
        s1.len() == s0.len(),
        s1[c] == s0[c],
{
}

/// A lookup or a union that names an element at or past the size fails
/// with `OutOfBounds`.
pub proof fn law_out_of_bounds(
    s0: Seq<int>,
    element: int,
    a: int,
    b: int,
    found: Result<usize, SetError>,
    s1: Seq<int>,
    joined: Result<(), SetError>,
    s2: Seq<int>,
)
    requires
        find_root_outcome(s0, element, found, s1),
        union_outcome(s0, a, b, joined, s2),
        0 <= element,
        0 <= a,
        0 <= b,
    ensures
        element >= s0.len() ==> found == Err::<usize, SetError>(SetError::OutOfBounds),
        (a >= s0.len() || b >= s0.len()) ==> joined == Err::<(), SetError>(SetError::OutOfBounds),
{
}

/// A union repeated at once changes nothing more: the partition after two
/// unions of `a` and `b` is the one after the first.
pub proof fn law_union_idempotent(
    s0: Seq<int>,
    a: int,
    b: int,
    r1: Result<(), SetError>,
    s1: Seq<int>,
    r2: Result<(), SetError>,
    s2: Seq<int>,
)
    requires
        union_outcome(s0, a, b, r1, s1),
        union_outcome(s1, a, b, r2, s2),
    ensures
        s2 == s1,
{
    if r1 is Ok {
        law_union_joins(s0, a, b, s1);
    }
}

} // verus!
