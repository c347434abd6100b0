//! What the constraints of a query mean for the numbers that they compare.

use vstd::prelude::*;
use crate::constraint;
use crate::constraint::RtreeConstraint;
use crate::coord_laws;
use crate::node::CellView;

verus! {

/// The number `a` stands to the number `b` as the letter of an operator says: A equal, B at most,
/// C below, D at least, E above. Any other letter asks for nothing.
pub open spec fn stands(op: u8, a: int, b: int) -> bool {
    &&& op == 0x41 ==> a == b
    &&& op == 0x42 ==> a <= b
    &&& op == 0x43 ==> a < b
    &&& op == 0x44 ==> a >= b
    &&& op == 0x45 ==> a > b
}

/// The letter is one of an operator.
pub open spec fn is_operator(op: u8) -> bool {
    0x41 <= op <= 0x45
}

/// A leaf cell is not excluded by a constraint if and only if its coordinate stands to the value as
/// the operator says: compared as numbers, negative ones too. What is no number stands in no
/// relation. A constraint on a coordinate that the table does not have, or with another letter,
/// excludes nothing.
pub proof fn lemma_leaf_is_judged_by_its_number(c: RtreeConstraint, cell: CellView, n_dim2: nat)
    ensures
        ({
            let x = cell.coords[c.i_coord as int];
            let r = c.judge_leaf(cell, n_dim2);
            &&& r == 0 || r == 1 || r == 2
            &&& c.i_coord >= n_dim2 || !is_operator(c.op) ==> r == 2
            &&& c.i_coord < n_dim2 && is_operator(c.op) ==> (r != 0 <==> !x.is_no_number()
                && !c.value.is_no_number() && stands(c.op, x.number(), c.value.number()))
        }),
{
    let x = cell.coords[c.i_coord as int];
    coord_laws::lemma_coords_compare_as_numbers(x, c.value);
    coord_laws::lemma_coords_compare_as_numbers(c.value, x);
}

/// The same over the ranks of the two numbers.
pub proof fn lemma_leaf_is_judged_by_rank(c: RtreeConstraint, cell: CellView, n_dim2: nat)
    requires
        c.i_coord < n_dim2,
        cell.coords[c.i_coord as int].rank() is Some,
        c.value.rank() is Some,
    ensures
        ({
            let x = cell.coords[c.i_coord as int].rank()->0;
            let v = c.value.rank()->0;
            let met = c.judge_leaf(cell, n_dim2) != 0;
            &&& c.op == 0x41 ==> (met <==> x == v)
            &&& c.op == 0x42 ==> (met <==> x <= v)
            &&& c.op == 0x43 ==> (met <==> x < v)
            &&& c.op == 0x44 ==> (met <==> v <= x)
            &&& c.op == 0x45 ==> (met <==> v < x)
        }),
{
}

/// Of the constraints that are met only an upper limit beyond the upper bound of the box is met in
/// part.
pub proof fn lemma_met_in_part(c: RtreeConstraint, cell: CellView, n_dim2: nat)
    ensures
        ({
            let upper = cell.coords[2 * (c.i_coord as int / 2) + 1];
            c.judge_leaf(cell, n_dim2) == 1 <==> c.judge_leaf(cell, n_dim2) != 0 && c.i_coord
                < n_dim2 && c.op == 0x42 && !upper.is_no_number() && !c.value.is_no_number()
                && upper.number() < c.value.number()
        }),
{
    let upper = cell.coords[2 * (c.i_coord as int / 2) + 1];
    coord_laws::lemma_coords_compare_as_numbers(upper, c.value);
}

/// An inner cell is excluded if and only if no number from the lower to the upper bound of the
/// dimension stands to the value as the operator says, where bounds and value are numbers.
pub proof fn lemma_inner_cell_is_judged_by_its_bounds(
    c: RtreeConstraint,
    cell: CellView,
    n_dim2: nat,
)
    ensures
        ({
            let low = cell.coords[2 * (c.i_coord as int / 2)];
            let high = cell.coords[2 * (c.i_coord as int / 2) + 1];
            let r = c.judge_nonleaf(cell, n_dim2);
            &&& r == 0 || r == 2
            &&& c.i_coord >= n_dim2 || !is_operator(c.op) ==> r == 2
            &&& c.value.is_no_number() ==> r == 2
            &&& c.i_coord < n_dim2 && !low.is_no_number() && !high.is_no_number()
                && !c.value.is_no_number() && low.number() <= high.number() ==> (r == 0
                <==> forall|x: int|
                low.number() <= x <= high.number() ==> !#[trigger] stands(
                    c.op,
                    x,
                    c.value.number(),
                ))
        }),
{
    let low = cell.coords[2 * (c.i_coord as int / 2)];
    let high = cell.coords[2 * (c.i_coord as int / 2) + 1];
    let v = c.value;
    coord_laws::lemma_coords_compare_as_numbers(low, v);
    coord_laws::lemma_coords_compare_as_numbers(v, low);
    coord_laws::lemma_coords_compare_as_numbers(high, v);
    coord_laws::lemma_coords_compare_as_numbers(v, high);
    if c.i_coord < n_dim2 && !low.is_no_number() && !high.is_no_number() && !v.is_no_number()
        && low.number() <= high.number() && c.judge_nonleaf(cell, n_dim2) != 0 {
        let x = if c.op == 0x41 {
            v.number()
        } else if c.op == 0x42 || c.op == 0x43 {
            low.number()
        } else {
            high.number()
        };
        assert(stands(c.op, x, v.number()));
    }
}

/// A cell meets a list of constraints if and only if it meets each of them.
pub proof fn lemma_all_constraints_count(
    constraints: Seq<RtreeConstraint>,
    c: RtreeConstraint,
    cell: CellView,
    n_dim2: nat,
)
    ensures
        constraint::leaf_matches(Seq::empty(), cell, n_dim2),
        constraint::nonleaf_matches(Seq::empty(), cell, n_dim2),
        constraint::leaf_matches(constraints.push(c), cell, n_dim2) <==> constraint::leaf_matches(
            constraints,
            cell,
            n_dim2,
        ) && c.judge_leaf(cell, n_dim2) != 0,
        constraint::nonleaf_matches(constraints.push(c), cell, n_dim2)
            <==> constraint::nonleaf_matches(constraints, cell, n_dim2) && c.judge_nonleaf(
            cell,
            n_dim2,
        ) != 0,
{
    let more = constraints.push(c);
    assert(more[constraints.len() as int] == c);
    assert forall|i: int| 0 <= i < constraints.len() implies more[i] == constraints[i] by {}
}

} // verus!
