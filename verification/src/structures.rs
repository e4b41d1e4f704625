//! A binary space-partitioning tree over cells, split alternately on the
//! two position coordinates. It is not wired into the force computation:
//! it stands as the extension point for replacing the all-pairs scan with
//! neighbor queries.
use crate::cells::Cell;
use vstd::multiset::Multiset;
use vstd::prelude::*;

verus! {

broadcast use vstd::multiset::group_multiset_axioms;

/// The coordinate of a cell on the given axis (`0` horizontal, else
/// vertical).
pub open spec fn coord(c: Cell, axis: int) -> int {
    if axis == 0 {
        c.position@.0
    } else {
        c.position@.1
    }
}

/// A node of the partitioning tree: cells whose coordinate on this node's
/// axis is below the node's go left, the others right; children split on
/// the other axis.
pub struct KDtree {
    axis: usize,
    cell: Cell,
    left: Option<Box<KDtree>>,
    right: Option<Box<KDtree>>,
}

/// The cells of an optional subtree.
pub open spec fn opt_cells(node: Option<Box<KDtree>>) -> Multiset<Cell>
    decreases node,
{
    match node {
        Option::None => Multiset::empty(),
        Option::Some(t) => t.cells(),
    }
}

/// The subtrees of an optional subtree are well formed.
pub open spec fn opt_wf(node: Option<Box<KDtree>>) -> bool
    decreases node,
{
    match node {
        Option::None => true,
        Option::Some(t) => t.wf(),
    }
}

impl KDtree {
    /// The multiset of cells the tree holds.
    pub closed spec fn cells(self) -> Multiset<Cell>
        decreases self,
    {
        opt_cells(self.left).add(opt_cells(self.right)).insert(self.cell)
    }

    /// Well-formedness: the axis is one of the two, everything left of a
    /// node is strictly below it on the node's axis, everything right is
    /// not, and the children are well formed.
    pub closed spec fn wf(self) -> bool
        decreases self,
    {
        &&& (self.axis == 0 || self.axis == 1)
        &&& (forall|c: Cell|
            opt_cells(self.left).count(c) > 0 ==> coord(c, self.axis as int) < coord(
                self.cell,
                self.axis as int,
            ))
        &&& (forall|c: Cell|
            opt_cells(self.right).count(c) > 0 ==> coord(c, self.axis as int) >= coord(
                self.cell,
                self.axis as int,
            ))
        &&& opt_wf(self.left)
        &&& opt_wf(self.right)
    }

    /// A one-node tree splitting on the given axis.
    pub fn new(cell: Cell, axis: usize) -> (t: Box<Self>)
        requires
            axis <= 1,
        ensures
            t.wf(),
            t.cells() == Multiset::<Cell>::empty().insert(cell),
    {
        let t = Box::new(KDtree { axis, cell, left: None, right: None });
        proof {
            assert(t.cells() =~= Multiset::<Cell>::empty().insert(cell));
        }
        t
    }

    /// Inserts a cell below an optional child, on the given axis if the
    /// child is empty.
    fn add_to(node: &mut Option<Box<KDtree>>, cell: Cell, axis: usize)
        requires
            axis <= 1,
            opt_wf(*old(node)),
        ensures
            opt_wf(*final(node)),
            opt_cells(*final(node)) =~= opt_cells(*old(node)).insert(cell),
        decreases *old(node),
    {
        match node.take() {
            None => {
                *node = Some(Self::new(cell, axis));
            },
            Some(mut boxed) => {
                (&mut *boxed).add(cell);
                *node = Some(boxed);
            },
        }
    }

    /// Inserts a cell: strictly-below goes left, the rest right, so the
    /// split invariant is kept and the held multiset gains exactly the
    /// cell.
    pub fn add(&mut self, cell: Cell)
        requires
            old(self).wf(),
        ensures
            final(self).wf(),
            final(self).cells() =~= old(self).cells().insert(cell),
        decreases *old(self),
    {
        let new_axis = (self.axis + 1) % 2;
        let comps = cell.position.get_components();
        let own = self.cell.position.get_components();
        let cv = if self.axis == 0 {
            comps.0
        } else {
            comps.1
        };
        let ov = if self.axis == 0 {
            own.0
        } else {
            own.1
        };
        if cv < ov {
            Self::add_to(&mut self.left, cell, new_axis);
        } else {
            Self::add_to(&mut self.right, cell, new_axis);
        }
    }

    /// Whether some held cell sits exactly at `(x, y)`; the split
    /// invariant lets the search walk a single path.
    pub fn find(&self, x: i64, y: i64) -> (r: bool)
        requires
            self.wf(),
        ensures
            r == exists|c: Cell|
                self.cells().count(c) > 0 && c.position@ == (x as int, y as int),
        decreases *self,
    {
        let own = self.cell.position.get_components();
        if own.0 == x && own.1 == y {
            proof {
                assert(self.cells().count(self.cell) > 0);
            }
            return true;
        }
        let q = if self.axis == 0 {
            x
        } else {
            y
        };
        let ov = if self.axis == 0 {
            own.0
        } else {
            own.1
        };
        let ghost target = (x as int, y as int);
        proof {
            assert forall|c: Cell|
                self.cells().count(c) == opt_cells(self.left).count(c) + opt_cells(
                    self.right,
                ).count(c) + (if c == self.cell {
                    1int
                } else {
                    0int
                }) by {
                assert(self.cells() == opt_cells(self.left).add(opt_cells(self.right)).insert(
                    self.cell,
                ));
            }
        }
        if q < ov {
            let r = match &self.left {
                None => false,
                Some(t) => t.find(x, y),
            };
            proof {
                assert forall|c: Cell|
                    self.cells().count(c) > 0 && c.position@ == target implies opt_cells(
                    self.left,
                ).count(c) > 0 by {
                    assert(coord(c, self.axis as int) == q as int);
                    if opt_cells(self.right).count(c) > 0 {
                        assert(coord(c, self.axis as int) >= coord(self.cell, self.axis as int));
                    }
                    assert(c != self.cell);
                }
            }
            r
        } else {
            let r = match &self.right {
                None => false,
                Some(t) => t.find(x, y),
            };
            proof {
                assert forall|c: Cell|
                    self.cells().count(c) > 0 && c.position@ == target implies opt_cells(
                    self.right,
                ).count(c) > 0 by {
                    assert(coord(c, self.axis as int) == q as int);
                    if opt_cells(self.left).count(c) > 0 {
                        assert(coord(c, self.axis as int) < coord(self.cell, self.axis as int));
                    }
                    assert(c != self.cell);
                }
            }
            r
        }
    }
}

} // verus!
