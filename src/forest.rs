use vstd::prelude::*;
use vstd::set_lib::*;
use crate::partition::{grown, is_partition, members, merged};

verus! {

/// Why an operation on a forest was refused.
#[derive(Debug, Clone, Copy, PartialEq, Eq, Structural)]
pub enum SetError {
    /// An element index at or past the number of elements.
    OutOfBounds,
}

/// What a call of `find_root(element)` on the partition `pre` may do: it
/// leaves the partition as `post == pre`, and returns the representative of
/// `element` exactly when `element` is in range.
pub open spec fn find_root_outcome(
    pre: Seq<int>,
    element: int,
    res: Result<usize, SetError>,
    post: Seq<int>,
) -> bool {
    &&& post == pre
    &&& match res {
        Ok(r) => 0 <= element < pre.len() && r == pre[element],
        Err(e) => e == SetError::OutOfBounds && !(0 <= element < pre.len()),
    }
}

/// What a call of `set_union(a, b)` on the partition `pre` may do: it merges
/// the two classes exactly when both elements are in range, and otherwise
/// fails and leaves the partition as it was.
pub open spec fn union_outcome(
    pre: Seq<int>,
    a: int,
    b: int,
    res: Result<(), SetError>,
    post: Seq<int>,
) -> bool {
    match res {
        Ok(_) => 0 <= a < pre.len() && 0 <= b < pre.len() && post == merged(pre, a, b),
        Err(e) => e == SetError::OutOfBounds && !(0 <= a < pre.len() && 0 <= b < pre.len())
            && post == pre,
    }
}

/// Whether `n` elements can be held: every index must fit in a slot and in
/// a `usize`.
pub open spec fn count_fits(n: int) -> bool {
    n <= i64::MAX && n <= usize::MAX
}

/// A forest of disjoint sets stored in one flat vector of slots.
///
/// A negative slot marks a root and holds the negated size of its tree; any
/// other slot holds the index of the element's parent.
pub struct DisjointSets {
    sets: Vec<i64>,
    /// The representative of each element.
    roots: Ghost<Seq<int>>,
    /// A rank that grows strictly from every element to its parent.
    rank: Ghost<Seq<nat>>,
    /// An upper bound on every rank.
    max_rank: Ghost<nat>,
}

impl View for DisjointSets {
    type V = Seq<int>;

    /// Element `i` belongs to the class whose representative is `self@[i]`.
    closed spec fn view(&self) -> Seq<int> {
        self.roots@
    }
}

/// The members of any class are finitely many, and no more than the elements.
proof fn lemma_members_bounded(roots: Seq<int>, r: int)
    ensures
        members(roots, r).finite(),
        members(roots, r).len() <= roots.len(),
{
    lemma_int_range(0, roots.len() as int);
    lemma_len_subset(members(roots, r), set_int_range(0, roots.len() as int));
}

impl DisjointSets {
    spec fn slot_ok(&self, i: int) -> bool {
        let n = self.sets@.len() as int;
        let s = self.sets@[i] as int;
        let r = self.roots@[i];
        &&& 0 <= r < n
        &&& self.roots@[r] == r
        &&& self.rank@[i] <= self.max_rank@
        &&& (s < 0 <==> r == i)
        &&& (s >= 0 ==> s < n && self.roots@[s] == r && self.rank@[i] < self.rank@[s]
            && self.rank@[i] < self.rank@[r])
        &&& (s < 0 ==> -s == members(self.roots@, i).len())
    }

    /// The slots, the representatives and the ranks agree.
    pub closed spec fn inv(&self) -> bool {
        let n = self.sets@.len();
        &&& count_fits(n as int)
        &&& self.roots@.len() == n
        &&& self.rank@.len() == n
        &&& forall|i: int| 0 <= i < n ==> #[trigger] self.slot_ok(i)
    }

    /// The forest is well formed and its view is a partition.
    pub open spec fn wf(&self) -> bool {
        self.inv() && is_partition(self@)
    }

    proof fn lemma_partition(&self)
        requires
            self.inv(),
        ensures
            is_partition(self@),
    {
        assert forall|i: int| 0 <= i < self@.len() implies 0 <= #[trigger] self@[i] < self@.len()
            && self@[self@[i]] == self@[i] by {
            assert(self.slot_ok(i));
        }
    }

    /// A forest of `size` elements, each in a class of its own.
    pub fn new(size: usize) -> (r: DisjointSets)
        requires
            count_fits(size as int),
        ensures
            r.wf(),
            r@ == Seq::new(size as nat, |i: int| i),
    {
        let mut r = DisjointSets {
            sets: Vec::new(),
            roots: Ghost(Seq::empty()),
            rank: Ghost(Seq::empty()),
            max_rank: Ghost(0),
        };
        proof {
            r.lemma_partition();
        }
        r.add_sets(size);
        assert(r@ =~= Seq::new(size as nat, |i: int| i));
        r
    }

    /// Appends `count` elements at the end, each in a class of its own; the
    /// elements already there keep their classes.
    pub fn add_sets(&mut self, count: usize)
        requires
            old(self).wf(),
            count_fits(old(self)@.len() + count as int),
        ensures
            final(self).wf(),
            final(self)@ == grown(old(self)@, count as nat),
    {
        let ghost start = self@;
        let mut k: usize = 0;
        while k < count
            invariant
                self.wf(),
                k <= count,
                count_fits(start.len() + count as int),
                self@ == grown(start, k as nat),
            decreases count - k,
        {
            self.push_singleton();
            k += 1;
            assert(self@ =~= grown(start, k as nat));
        }
    }

    /// The representative of the class of `element`.
    ///
    /// Every element passed on the way up is made a direct child of the root,
    /// which leaves the partition as it was.
    pub fn find_root(&mut self, element: usize) -> (res: Result<usize, SetError>)
        requires
            old(self).wf(),
        ensures
            final(self).wf(),
            find_root_outcome(old(self)@, element as int, res, final(self)@),
    {
        if element >= self.sets.len() {
            return Err(SetError::OutOfBounds);
        }
        let root = self.walk_to_root(element);
        self.compress(element, root);
        Ok(root)
    }

    /// Merges the classes of `a` and `b`. The root of the smaller tree goes
    /// under the root of the larger one; on equal sizes the root of `a` stays.
    pub fn set_union(&mut self, a: usize, b: usize) -> (res: Result<(), SetError>)
        requires
            old(self).wf(),
        ensures
            final(self).wf(),
            union_outcome(old(self)@, a as int, b as int, res, final(self)@),
    {
        let root_a = match self.find_root(a) {
            Ok(r) => r,
            Err(e) => return Err(e),
        };
        let root_b = match self.find_root(b) {
            Ok(r) => r,
            Err(e) => return Err(e),
        };
        if root_a == root_b {
            return Ok(());
        }
        let ghost pre = self@;
        proof {
            assert(self.slot_ok(root_a as int));
            assert(self.slot_ok(root_b as int));
        }
        if self.sets[root_a] <= self.sets[root_b] {
            self.link(root_b, root_a);
        } else {
            self.link(root_a, root_b);
        }
        assert(self@ =~= merged(pre, a as int, b as int));
        Ok(())
    }

    /// The number of elements.
    pub fn size(&self) -> (r: usize)
        requires
            self.wf(),
        ensures
            r == self@.len(),
    {
        self.sets.len()
    }

    /// The root reached by following parent links from `element`.
    fn walk_to_root(&self, element: usize) -> (root: usize)
        requires
            self.wf(),
            element < self@.len(),
        ensures
            root == self@[element as int],
    {
        let mut cur = element;
        while self.sets[cur] >= 0
            invariant
                self.wf(),
                element < self@.len(),
                cur < self@.len(),
                self@[cur as int] == self@[element as int],
            decreases self.max_rank@ - self.rank@[cur as int],
        {
            let p = self.sets[cur];
            proof {
                assert(self.slot_ok(cur as int));
                assert(self.slot_ok(p as int));
            }
            cur = p as usize;
        }
        proof {
            assert(self.slot_ok(cur as int));
        }
        cur
    }

    /// Points every element on the path from `element` to its root straight
    /// at that root.
    fn compress(&mut self, element: usize, root: usize)
        requires
            old(self).wf(),
            element < old(self)@.len(),
            root == old(self)@[element as int],
        ensures
            final(self).wf(),
            final(self)@ == old(self)@,
    {
        let ghost start = self@;
        let mut cur = element;
        while self.sets[cur] >= 0
            invariant
                self.wf(),
                self@ == start,
                cur < self@.len(),
                self@[cur as int] == root,
            decreases self.max_rank@ - self.rank@[cur as int],
        {
            let ghost pre = *self;
            let p = self.sets[cur];
            proof {
                assert(self.slot_ok(cur as int));
                assert(self.slot_ok(root as int));
                assert(self.slot_ok(p as int));
            }
            let next = p as usize;
            self.sets.set(cur, root as i64);
            proof {
                assert forall|i: int| 0 <= i < self.sets@.len() implies #[trigger] self.slot_ok(i) by {
                    assert(pre.slot_ok(i));
                }
            }
            cur = next;
        }
    }

    /// Adds one singleton class at the end.
    fn push_singleton(&mut self)
        requires
            old(self).wf(),
            count_fits(old(self)@.len() + 1int),
        ensures
            final(self).wf(),
            final(self)@ == old(self)@.push(old(self)@.len() as int),
    {
        let ghost n = self.sets@.len() as int;
        let ghost pre = *self;
        self.sets.push(-1);
        proof {
            self.roots = Ghost(self.roots@.push(n));
            self.rank = Ghost(self.rank@.push(0));
            assert(members(self.roots@, n) =~= set![n]);
            assert forall|i: int| 0 <= i < n + 1 implies #[trigger] self.slot_ok(i) by {
                if i < n {
                    assert(pre.slot_ok(i));
                    assert(members(self.roots@, i) =~= members(pre.roots@, i));
                }
            }
            self.lemma_partition();
        }
    }

    /// Makes the root `child` a child of the root `parent`, which takes over
    /// the whole class of `child`.
    fn link(&mut self, child: usize, parent: usize)
        requires
            old(self).wf(),
            child < old(self)@.len(),
            parent < old(self)@.len(),
            old(self)@[child as int] == child,
            old(self)@[parent as int] == parent,
            child != parent,
        ensures
            final(self).wf(),
            final(self)@ == Seq::new(
                old(self)@.len(),
                |i: int| if old(self)@[i] == child { parent as int } else { old(self)@[i] },
            ),
    {
        let ghost pre = *self;
        let ghost n = self.sets@.len() as int;
        let ghost roots2 = Seq::new(
            pre.roots@.len(),
            |i: int| if pre.roots@[i] == child { parent as int } else { pre.roots@[i] },
        );
        let ghost big = members(pre.roots@, parent as int);
        let ghost small = members(pre.roots@, child as int);
        proof {
            assert(pre.slot_ok(child as int));
            assert(pre.slot_ok(parent as int));
            lemma_members_bounded(pre.roots@, parent as int);
            lemma_members_bounded(pre.roots@, child as int);
            lemma_members_bounded(roots2, parent as int);
            assert(members(roots2, parent as int) =~= big + small);
            assert(big.disjoint(small));
            lemma_set_disjoint_lens(big, small);
        }
        let sum = self.sets[parent] + self.sets[child];
        self.sets.set(parent, sum);
        self.sets.set(child, parent as i64);
        proof {
            let pr = pre.rank@[parent as int];
            let cr = pre.rank@[child as int];
            let nr: nat = if pr > cr { pr } else { cr + 1 };
            self.roots = Ghost(roots2);
            self.rank = Ghost(pre.rank@.update(parent as int, nr));
            self.max_rank = Ghost(if nr > pre.max_rank@ { nr } else { pre.max_rank@ });
            assert forall|i: int| 0 <= i < n implies #[trigger] self.slot_ok(i) by {
                assert(pre.slot_ok(i));
                if i != parent && i != child && pre.sets@[i] < 0 {
                    assert(members(roots2, i) =~= members(pre.roots@, i));
                }
            }
            self.lemma_partition();
        }
    }
}

} // verus!
