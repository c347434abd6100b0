//! Testing cells against the constraints of a query.

use vstd::prelude::*;
use crate::coord::Coord;
use crate::geometry;
use crate::node::{CellView, RtreeCell, RTREE_MAX_COORDS};

verus! {

pub const RTREE_EQ: u8 = 0x41;

pub const RTREE_LE: u8 = 0x42;

pub const RTREE_LT: u8 = 0x43;

pub const RTREE_GE: u8 = 0x44;

pub const RTREE_GT: u8 = 0x45;

pub const NOT_WITHIN: i32 = 0;

pub const PARTLY_WITHIN: i32 = 1;

pub const FULLY_WITHIN: i32 = 2;

/// One comparison that the rows of a query have to meet.
#[derive(Clone, Copy, Debug, PartialEq, Eq, Structural)]
pub struct RtreeConstraint {
    /// The coordinate that is compared.
    pub i_coord: usize,
    /// The operator, one of the `RTREE_` letters.
    pub op: u8,
    /// The number that it is compared with.
    pub value: Coord,
}

/// The number `c` stands to `value` as the operator says. An unknown operator is always met.
pub open spec fn meets(op: u8, c: Coord, value: Coord) -> bool {
    if op == RTREE_EQ {
        c.equals(value)
    } else if op == RTREE_LE {
        c.at_most(value)
    } else if op == RTREE_LT {
        c.below(value)
    } else if op == RTREE_GE {
        value.at_most(c)
    } else if op == RTREE_GT {
        value.below(c)
    } else {
        true
    }
}

/// No number from `low` to `high` stands to `value` as the operator says.
pub open spec fn out_of_reach(op: u8, low: Coord, high: Coord, value: Coord) -> bool {
    if op == RTREE_EQ {
        value.below(low) || high.below(value)
    } else if op == RTREE_LE {
        value.below(low)
    } else if op == RTREE_LT {
        value.at_most(low)
    } else if op == RTREE_GE {
        high.below(value)
    } else if op == RTREE_GT {
        high.at_most(value)
    } else {
        false
    }
}

impl RtreeConstraint {
    /// How the row of a leaf cell stands to the constraint: it is excluded where its coordinate does
    /// not meet it. An upper limit beyond the box is met in part. A constraint on no coordinate of
    /// the cells excludes none.
    pub open spec fn judge_leaf(self, cell: CellView, n_dim2: nat) -> i32 {
        if self.i_coord < n_dim2 && !meets(self.op, cell.coords[self.i_coord as int], self.value) {
            NOT_WITHIN
        } else if self.i_coord < n_dim2 && self.op == RTREE_LE && cell.coords[2 * (self.i_coord
            as int / 2) + 1].below(self.value) {
            PARTLY_WITHIN
        } else {
            FULLY_WITHIN
        }
    }

    /// How the subtree of an inner cell stands to the constraint: it is excluded where no number
    /// between the bounds of the dimension meets it.
    pub open spec fn judge_nonleaf(self, cell: CellView, n_dim2: nat) -> i32 {
        let d = self.i_coord as int / 2;
        if self.i_coord < n_dim2 && out_of_reach(
            self.op,
            cell.coords[2 * d],
            cell.coords[2 * d + 1],
            self.value,
        ) {
            NOT_WITHIN
        } else {
            FULLY_WITHIN
        }
    }
}

/// How the row of a leaf cell stands to a constraint.
pub fn leaf_constraint(constraint: &RtreeConstraint, cell: &RtreeCell, n_dim2: usize) -> (r: i32)
    requires
        n_dim2 <= RTREE_MAX_COORDS,
    ensures
        r == constraint.judge_leaf(cell@, n_dim2 as nat),
{
    if constraint.i_coord >= n_dim2 {
        return FULLY_WITHIN;
    }
    let coord: Coord = cell.coords[constraint.i_coord];
    let val: Coord = constraint.value;
    let met: bool = if constraint.op == RTREE_EQ {
        coord.same(val)
    } else if constraint.op == RTREE_LE {
        coord.le(val)
    } else if constraint.op == RTREE_LT {
        coord.lt(val)
    } else if constraint.op == RTREE_GE {
        val.le(coord)
    } else if constraint.op == RTREE_GT {
        val.lt(coord)
    } else {
        true
    };
    if !met {
        return NOT_WITHIN;
    }
    let d: usize = constraint.i_coord / 2;
    if constraint.op == RTREE_LE && cell.coords[2 * d + 1].lt(val) {
        PARTLY_WITHIN
    } else {
        FULLY_WITHIN
    }
}

/// How the subtree of an inner cell stands to a constraint.
pub fn nonleaf_constraint(constraint: &RtreeConstraint, cell: &RtreeCell, n_dim2: usize) -> (r: i32)
    requires
        n_dim2 <= RTREE_MAX_COORDS,
    ensures
        r == constraint.judge_nonleaf(cell@, n_dim2 as nat),
{
    if constraint.i_coord >= n_dim2 {
        return FULLY_WITHIN;
    }
    let d: usize = constraint.i_coord / 2;
    let low: Coord = cell.coords[2 * d];
    let high: Coord = cell.coords[2 * d + 1];
    let val: Coord = constraint.value;
    let excluded: bool = if constraint.op == RTREE_EQ {
        val.lt(low) || high.lt(val)
    } else if constraint.op == RTREE_LE {
        val.lt(low)
    } else if constraint.op == RTREE_LT {
        val.le(low)
    } else if constraint.op == RTREE_GE {
        high.lt(val)
    } else if constraint.op == RTREE_GT {
        high.le(val)
    } else {
        false
    };
    if excluded {
        NOT_WITHIN
    } else {
        FULLY_WITHIN
    }
}

/// Leaving out a subtree loses no row: where a box covers a cell that a constraint does not exclude,
/// the constraint does not exclude the box. This holds for every operator and every coordinate.
pub proof fn lemma_pruning_is_sound(
    constraint: RtreeConstraint,
    outer: CellView,
    inner: CellView,
    n_dim2: nat,
)
    requires
        n_dim2 <= RTREE_MAX_COORDS,
        n_dim2 % 2 == 0,
        geometry::covers(outer, inner, n_dim2),
        geometry::is_box(inner, n_dim2),
        constraint.judge_leaf(inner, n_dim2) != NOT_WITHIN,
    ensures
        constraint.judge_nonleaf(outer, n_dim2) != NOT_WITHIN,
{
    let d = constraint.i_coord as int / 2;
    if constraint.i_coord < n_dim2 {
        assert(!geometry::reaches_out(outer, inner, d));
        assert(inner.coords[2 * d].at_most(inner.coords[2 * d + 1]));
    }
}

/// A subtree whose box covers a matching row is not left out.
pub proof fn lemma_matching_row_is_not_pruned(
    constraints: Seq<RtreeConstraint>,
    outer: CellView,
    inner: CellView,
    n_dim2: nat,
)
    requires
        n_dim2 <= RTREE_MAX_COORDS,
        n_dim2 % 2 == 0,
        geometry::covers(outer, inner, n_dim2),
        geometry::is_box(inner, n_dim2),
        leaf_matches(constraints, inner, n_dim2),
    ensures
        nonleaf_matches(constraints, outer, n_dim2),
{
    assert forall|i: int| 0 <= i < constraints.len() implies (#[trigger] constraints[i]).judge_nonleaf(
        outer,
        n_dim2,
    ) != NOT_WITHIN by {
        lemma_pruning_is_sound(constraints[i], outer, inner, n_dim2);
    }
}

/// No constraint of the list excludes the row of the cell.
pub open spec fn leaf_matches(
    constraints: Seq<RtreeConstraint>,
    cell: CellView,
    n_dim2: nat,
) -> bool {
    forall|i: int|
        0 <= i < constraints.len() ==> (#[trigger] constraints[i]).judge_leaf(cell, n_dim2)
            != NOT_WITHIN
}

/// No constraint of the list excludes the subtree of the cell.
pub open spec fn nonleaf_matches(
    constraints: Seq<RtreeConstraint>,
    cell: CellView,
    n_dim2: nat,
) -> bool {
    forall|i: int|
        0 <= i < constraints.len() ==> (#[trigger] constraints[i]).judge_nonleaf(cell, n_dim2)
            != NOT_WITHIN
}

pub fn matches_leaf(constraints: &Vec<RtreeConstraint>, cell: &RtreeCell, n_dim2: usize) -> (r:
    bool)
    requires
        n_dim2 <= RTREE_MAX_COORDS,
    ensures
        r == leaf_matches(constraints@, cell@, n_dim2 as nat),
{
    let mut i: usize = 0;
    while i < constraints.len()
        invariant
            n_dim2 <= RTREE_MAX_COORDS,
            i <= constraints.len(),
            forall|j: int|
                0 <= j < i ==> (#[trigger] constraints@[j]).judge_leaf(cell@, n_dim2 as nat)
                    != NOT_WITHIN,
        decreases constraints.len() - i,
    {
        if leaf_constraint(&constraints[i], cell, n_dim2) == NOT_WITHIN {
            assert(constraints@[i as int].judge_leaf(cell@, n_dim2 as nat) == NOT_WITHIN);
            return false;
        }
        i = i + 1;
    }
    true
}

pub fn matches_nonleaf(constraints: &Vec<RtreeConstraint>, cell: &RtreeCell, n_dim2: usize) -> (r:
    bool)
    requires
        n_dim2 <= RTREE_MAX_COORDS,
    ensures
        r == nonleaf_matches(constraints@, cell@, n_dim2 as nat),
{
    let mut i: usize = 0;
    while i < constraints.len()
        invariant
            n_dim2 <= RTREE_MAX_COORDS,
            i <= constraints.len(),
            forall|j: int|
                0 <= j < i ==> (#[trigger] constraints@[j]).judge_nonleaf(cell@, n_dim2 as nat)
                    != NOT_WITHIN,
        decreases constraints.len() - i,
    {
        if nonleaf_constraint(&constraints[i], cell, n_dim2) == NOT_WITHIN {
            assert(constraints@[i as int].judge_nonleaf(cell@, n_dim2 as nat) == NOT_WITHIN);
            return false;
        }
        i = i + 1;
    }
    true
}

} // verus!
