use vstd::prelude::*;

verus! {

/// The elements `0 .. roots.len()` whose representative is `r`.
pub open spec fn members(roots: Seq<int>, r: int) -> Set<int> {
    Set::new(|i: int| 0 <= i < roots.len() && roots[i] == r)
}

/// `roots` maps every element to a representative that is in range and is
/// its own representative.
pub open spec fn is_partition(roots: Seq<int>) -> bool {
    forall|i: int|
        0 <= i < roots.len() ==> 0 <= #[trigger] roots[i] < roots.len() && roots[roots[i]] == roots[i]
}

/// The partition after `count` elements are appended, each its own
/// representative.
pub open spec fn grown(roots: Seq<int>, count: nat) -> Seq<int> {
    roots + Seq::new(count, |k: int| roots.len() + k)
}

/// The representative that stays when the classes of `a` and `b` are
/// merged: the one of the larger class, and that of `a` on a tie.
pub open spec fn survivor(roots: Seq<int>, a: int, b: int) -> int {
    if members(roots, roots[a]).len() >= members(roots, roots[b]).len() {
        roots[a]
    } else {
        roots[b]
    }
}

/// The partition after merging the classes of `a` and `b`: every member of
/// the class whose representative does not survive moves to the survivor.
pub open spec fn merged(roots: Seq<int>, a: int, b: int) -> Seq<int> {
    let keep = survivor(roots, a, b);
    let gone = if keep == roots[a] { roots[b] } else { roots[a] };
    if roots[a] == roots[b] {
        roots
    } else {
        Seq::new(roots.len(), |i: int| if roots[i] == gone { keep } else { roots[i] })
    }
}

} // verus!
