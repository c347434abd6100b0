//! Bounding boxes: union, containment and the box around a list of cells.

use vstd::prelude::*;
use crate::coord::{Area, Coord, AREA_MAX_BITS, COORD_MAX_BITS, COORD_MIN_BITS};
use crate::node;
use crate::node::{CellView, RtreeCell, RtreeNode, RTREE_MAX_COORDS};
use crate::table::RtreeTable;

verus! {

/// The smallest box around both boxes, under the row id of `a`. An odd coordinate at the end of
/// the `n_dim2` is not part of a dimension and is left 0.
pub open spec fn union_of(a: CellView, b: CellView, n_dim2: nat) -> CellView {
    CellView {
        rowid: a.rowid,
        coords: Seq::new(
            RTREE_MAX_COORDS as nat,
            |k: int|
                if k >= 2 * (n_dim2 / 2) {
                    Coord::spec_zero()
                } else if k % 2 == 0 {
                    a.coords[k].lower_of(b.coords[k])
                } else {
                    a.coords[k].higher_of(b.coords[k])
                },
        ),
    }
}

/// In every dimension the lower bound is not above the upper bound, and both are numbers.
pub open spec fn is_box(cell: CellView, n_dim2: nat) -> bool {
    forall|d: int|
        0 <= d < n_dim2 / 2 ==> (#[trigger] cell.coords[2 * d]).at_most(cell.coords[2 * d + 1])
}

/// In no dimension does `inner` reach beyond `outer`.
pub open spec fn covers(outer: CellView, inner: CellView, n_dim2: nat) -> bool {
    forall|d: int|
        0 <= d < n_dim2 / 2 ==> !#[trigger] reaches_out(outer, inner, d)
}

/// In dimension `d`, `inner` reaches beyond `outer`.
pub open spec fn reaches_out(outer: CellView, inner: CellView, d: int) -> bool {
    inner.coords[2 * d].below(outer.coords[2 * d]) || outer.coords[2 * d + 1].below(
        inner.coords[2 * d + 1],
    )
}

/// The union of a list of boxes from the first on, under the row id of the first.
pub open spec fn union_of_all(cells: Seq<CellView>, n_dim2: nat) -> CellView
    decreases cells.len(),
{
    if cells.len() <= 1 {
        cells[0]
    } else {
        union_of(union_of_all(cells.drop_last(), n_dim2), cells.last(), n_dim2)
    }
}

/// The lowest of coordinate `k` over a list of cells, starting from the largest finite number.
pub open spec fn lowest(cells: Seq<CellView>, k: int) -> Coord
    decreases cells.len(),
{
    if cells.len() == 0 {
        Coord::spec_max()
    } else {
        lowest(cells.drop_last(), k).lower_of(cells.last().coords[k])
    }
}

/// The highest of coordinate `k` over a list of cells, starting from the lowest finite number.
pub open spec fn highest(cells: Seq<CellView>, k: int) -> Coord
    decreases cells.len(),
{
    if cells.len() == 0 {
        Coord::spec_min()
    } else {
        highest(cells.drop_last(), k).higher_of(cells.last().coords[k])
    }
}

/// The box around a list of cells as a cell that points to node `child_nodeno`. Without cells
/// every coordinate is 0.
pub open spec fn box_around(cells: Seq<CellView>, child_nodeno: i64, n_dim2: nat) -> CellView {
    CellView {
        rowid: child_nodeno,
        coords: Seq::new(
            RTREE_MAX_COORDS as nat,
            |k: int|
                if cells.len() == 0 || k >= 2 * (n_dim2 / 2) {
                    Coord::spec_zero()
                } else if k % 2 == 0 {
                    lowest(cells, k)
                } else {
                    highest(cells, k)
                },
        ),
    }
}

/// Axis-aligned union of two bounding boxes.
pub fn cell_union_mbr_coords(a: &RtreeCell, b: &RtreeCell, n_dim2: usize) -> (r: RtreeCell)
    requires
        n_dim2 < RTREE_MAX_COORDS + 2,
    ensures
        r@ == union_of(a@, b@, n_dim2 as nat),
{
    let n_dim: usize = n_dim2 / 2;
    let mut out = RtreeCell::new(a.rowid);
    let mut j: usize = 0;
    while j < n_dim
        invariant
            j <= n_dim,
            n_dim <= 5,
            out.rowid == a.rowid,
            forall|k: int|
                0 <= k < RTREE_MAX_COORDS ==> #[trigger] out.coords@[k] == union_of(
                    a@,
                    b@,
                    (2 * j) as nat,
                ).coords[k],
        decreases n_dim - j,
    {
        out.coords[2 * j] = a.coords[2 * j].min(b.coords[2 * j]);
        out.coords[2 * j + 1] = a.coords[2 * j + 1].max(b.coords[2 * j + 1]);
        j = j + 1;
    }
    assert(out@.coords =~= union_of(a@, b@, n_dim2 as nat).coords);
    out
}

/// True if `outer` fully contains `inner` in every dimension.
pub fn cell_contains_mbr(outer: &RtreeCell, inner: &RtreeCell, n_dim2: usize) -> (r: bool)
    requires
        n_dim2 < RTREE_MAX_COORDS + 2,
    ensures
        r == covers(outer@, inner@, n_dim2 as nat),
{
    let n_dim: usize = n_dim2 / 2;
    let mut j: usize = 0;
    while j < n_dim
        invariant
            j <= n_dim,
            n_dim == n_dim2 / 2,
            n_dim <= 5,
            forall|d: int| 0 <= d < j ==> !#[trigger] reaches_out(outer@, inner@, d),
        decreases n_dim - j,
    {
        let o_lo: Coord = outer.coords[2 * j];
        let o_hi: Coord = outer.coords[2 * j + 1];
        let i_lo: Coord = inner.coords[2 * j];
        let i_hi: Coord = inner.coords[2 * j + 1];
        if i_lo.lt(o_lo) || o_hi.lt(i_hi) {
            assert(reaches_out(outer@, inner@, j as int));
            return false;
        }
        j = j + 1;
    }
    true
}

/// Bounding box for all entries in `node`, stored as an internal-node cell referencing child
/// `child_nodeno`.
pub fn bounding_cell_for_child_node(
    table: &RtreeTable,
    node: &RtreeNode,
    child_nodeno: i64,
    n_dim2: usize,
) -> (r: RtreeCell)
    requires
        table@.wf(),
        table@.holds(node.data@),
        n_dim2 <= table.n_dim2,
    ensures
        r@ == box_around(
            node::page_cells(node.data@, n_dim2 as nat, table.n_bytes_per_cell as nat),
            child_nodeno,
            n_dim2 as nat,
        ),
{
    let n_dim: usize = n_dim2 / 2;
    let mut out = RtreeCell::new(child_nodeno);
    let n_cells: usize = node.cell_count();
    let width: usize = table.n_bytes_per_cell;
    let ghost cells = node::page_cells(node.data@, n_dim2 as nat, width as nat);
    if n_cells == 0 {
        assert(out@.coords =~= box_around(cells, child_nodeno, n_dim2 as nat).coords);
        return out;
    }
    let mut j: usize = 0;
    while j < n_dim
        invariant
            table@.wf(),
            table@.holds(node.data@),
            n_dim2 <= table.n_dim2,
            j <= n_dim,
            n_dim == n_dim2 / 2,
            width == table.n_bytes_per_cell,
            n_cells == cells.len(),
            n_cells > 0,
            cells == node::page_cells(node.data@, n_dim2 as nat, width as nat),
            out.rowid == child_nodeno,
            forall|k: int|
                0 <= k < RTREE_MAX_COORDS ==> #[trigger] out.coords@[k] == box_around(
                    cells,
                    child_nodeno,
                    (2 * j) as nat,
                ).coords[k],
        decreases n_dim - j,
    {
        let mut mn: Coord = Coord { bits: COORD_MAX_BITS };
        let mut mx: Coord = Coord { bits: COORD_MIN_BITS };
        let mut i: usize = 0;
        assert(cells.take(0) =~= Seq::empty());
        while i < n_cells
            invariant
                table@.wf(),
                table@.holds(node.data@),
                n_dim2 <= table.n_dim2,
                j < n_dim,
                n_dim == n_dim2 / 2,
                width == table.n_bytes_per_cell,
                n_cells == cells.len(),
                cells == node::page_cells(node.data@, n_dim2 as nat, width as nat),
                i <= n_cells,
                mn == lowest(cells.take(i as int), 2 * j),
                mx == highest(cells.take(i as int), 2 * j + 1),
            decreases n_cells - i,
        {
            proof {
                table@.lemma_cell_inside(node.data@, i as int);
            }
            let cell = node.get_cell(n_dim2, width, i);
            assert(cell@ == cells[i as int]);
            mn = mn.min(cell.coords[2 * j]);
            mx = mx.max(cell.coords[2 * j + 1]);
            assert(cells.take(i + 1).drop_last() =~= cells.take(i as int));
            assert(cells.take(i + 1).last() == cells[i as int]);
            i = i + 1;
        }
        assert(cells.take(n_cells as int) =~= cells);
        out.coords[2 * j] = mn;
        out.coords[2 * j + 1] = mx;
        j = j + 1;
    }
    assert(out@.coords =~= box_around(cells, child_nodeno, n_dim2 as nat).coords);
    out
}

/// The union of the boxes of all cells of `node`, or nothing when it has no cells.
pub fn union_mbr_of_node_cells(table: &RtreeTable, node: &RtreeNode, n_dim2: usize) -> (r: Option<
    RtreeCell,
>)
    requires
        table@.wf(),
        table@.holds(node.data@),
        n_dim2 <= table.n_dim2,
    ensures
        ({
            let cells = node::page_cells(
                node.data@,
                n_dim2 as nat,
                table.n_bytes_per_cell as nat,
            );
            match r {
                None => cells.len() == 0,
                Some(cell) => cells.len() > 0 && cell@ == union_of_all(cells, n_dim2 as nat),
            }
        }),
{
    let n: usize = node.cell_count();
    if n == 0 {
        return None;
    }
    let width: usize = table.n_bytes_per_cell;
    let ghost cells = node::page_cells(node.data@, n_dim2 as nat, width as nat);
    proof {
        table@.lemma_cell_inside(node.data@, 0);
    }
    let mut acc = node.get_cell(n_dim2, width, 0);
    assert(cells.take(1)[0] == cells[0]);
    let mut i: usize = 1;
    while i < n
        invariant
            table@.wf(),
            table@.holds(node.data@),
            n_dim2 <= table.n_dim2,
            width == table.n_bytes_per_cell,
            cells == node::page_cells(node.data@, n_dim2 as nat, width as nat),
            n == cells.len(),
            1 <= i <= n,
            acc@ == union_of_all(cells.take(i as int), n_dim2 as nat),
        decreases n - i,
    {
        proof {
            table@.lemma_cell_inside(node.data@, i as int);
        }
        let c = node.get_cell(n_dim2, width, i);
        assert(c@ == cells[i as int]);
        acc = cell_union_mbr_coords(&acc, &c, n_dim2);
        assert(cells.take(i + 1).drop_last() =~= cells.take(i as int));
        assert(cells.take(i + 1).last() == cells[i as int]);
        i = i + 1;
    }
    assert(cells.take(n as int) =~= cells);
    Some(acc)
}

/// Which child a descent takes: the first of those with the smallest area, and the first child
/// when no area is below the largest finite number.
pub open spec fn best_child(areas: Seq<Area>) -> int
    decreases areas.len(),
{
    if areas.len() == 0 {
        0
    } else if areas.last().below(best_area(areas.drop_last())) {
        areas.len() - 1
    } else {
        best_child(areas.drop_last())
    }
}

/// The smallest of a list of areas, or the largest finite number when none is below it.
pub open spec fn best_area(areas: Seq<Area>) -> Area
    decreases areas.len(),
{
    if areas.len() == 0 {
        Area::spec_max()
    } else if areas.last().below(best_area(areas.drop_last())) {
        areas.last()
    } else {
        best_area(areas.drop_last())
    }
}

/// Index of the child that a descent takes, given the areas of the children.
pub fn choose_child(areas: &Vec<Area>) -> (r: usize)
    ensures
        r == best_child(areas@),
        r < areas.len() || r == 0,
{
    let mut best_idx: usize = 0;
    let mut best: Area = Area { bits: AREA_MAX_BITS };
    let mut i: usize = 0;
    assert(areas@.take(0) =~= Seq::empty());
    while i < areas.len()
        invariant
            i <= areas.len(),
            best_idx == best_child(areas@.take(i as int)),
            best_idx < areas.len() || best_idx == 0,
            best == best_area(areas@.take(i as int)),
        decreases areas.len() - i,
    {
        assert(areas@.take(i + 1).drop_last() =~= areas@.take(i as int));
        assert(areas@.take(i + 1).last() == areas@[i as int]);
        if areas[i].lt(best) {
            best = areas[i];
            best_idx = i;
        }
        i = i + 1;
    }
    assert(areas@.take(areas.len() as int) =~= areas@);
    best_idx
}

/// A union covers both of its parts, whatever the coordinates are.
pub proof fn lemma_union_covers(a: CellView, b: CellView, n_dim2: nat)
    requires
        n_dim2 <= RTREE_MAX_COORDS,
    ensures
        covers(union_of(a, b, n_dim2), a, n_dim2),
        covers(union_of(a, b, n_dim2), b, n_dim2),
{
    let u = union_of(a, b, n_dim2);
    assert forall|d: int| 0 <= d < n_dim2 / 2 implies !#[trigger] reaches_out(u, a, d)
        && !reaches_out(u, b, d) by {
        assert(u.coords[2 * d] == a.coords[2 * d].lower_of(b.coords[2 * d]));
        assert(u.coords[2 * d + 1] == a.coords[2 * d + 1].higher_of(b.coords[2 * d + 1]));
    }
    assert forall|d: int| 0 <= d < n_dim2 / 2 implies !#[trigger] reaches_out(u, b, d) by {
        assert(!reaches_out(u, a, d));
    }
}

/// A union is the smallest such box: a box that covers both parts covers their union.
pub proof fn lemma_union_is_least(outer: CellView, a: CellView, b: CellView, n_dim2: nat)
    requires
        n_dim2 <= RTREE_MAX_COORDS,
        covers(outer, a, n_dim2),
        covers(outer, b, n_dim2),
    ensures
        covers(outer, union_of(a, b, n_dim2), n_dim2),
{
    let u = union_of(a, b, n_dim2);
    assert forall|d: int| 0 <= d < n_dim2 / 2 implies !#[trigger] reaches_out(outer, u, d) by {
        assert(!reaches_out(outer, a, d));
        assert(!reaches_out(outer, b, d));
        assert(u.coords[2 * d] == a.coords[2 * d].lower_of(b.coords[2 * d]));
        assert(u.coords[2 * d + 1] == a.coords[2 * d + 1].higher_of(b.coords[2 * d + 1]));
    }
}

/// Covering is transitive through a box without NaN coordinates.
pub proof fn lemma_covers_transitive(a: CellView, b: CellView, c: CellView, n_dim2: nat)
    requires
        covers(a, b, n_dim2),
        covers(b, c, n_dim2),
        forall|k: int| 0 <= k < n_dim2 ==> #[trigger] b.coords[k].rank() is Some,
    ensures
        covers(a, c, n_dim2),
{
    assert forall|d: int| 0 <= d < n_dim2 / 2 implies !#[trigger] reaches_out(a, c, d) by {
        assert(!reaches_out(a, b, d));
        assert(!reaches_out(b, c, d));
        assert(b.coords[2 * d].rank() is Some);
        assert(b.coords[2 * d + 1].rank() is Some);
    }
}

proof fn lemma_bounds(cells: Seq<CellView>, k: int, i: int)
    requires
        0 <= i < cells.len(),
    ensures
        lowest(cells, k).rank() is Some,
        highest(cells, k).rank() is Some,
        !cells[i].coords[k].below(lowest(cells, k)),
        !highest(cells, k).below(cells[i].coords[k]),
    decreases cells.len(),
{
    reveal_with_fuel(lowest, 2);
    reveal_with_fuel(highest, 2);
    let rest = cells.drop_last();
    if rest.len() > 0 {
        if i < rest.len() {
            lemma_bounds(rest, k, i);
        } else {
            lemma_bounds(rest, k, 0);
        }
    }
}

/// The box around a list of cells covers each of them, whatever the coordinates are.
pub proof fn lemma_box_covers(cells: Seq<CellView>, child_nodeno: i64, n_dim2: nat, i: int)
    requires
        n_dim2 <= RTREE_MAX_COORDS,
        0 <= i < cells.len(),
    ensures
        covers(box_around(cells, child_nodeno, n_dim2), cells[i], n_dim2),
{
    let b = box_around(cells, child_nodeno, n_dim2);
    assert forall|d: int| 0 <= d < n_dim2 / 2 implies !#[trigger] reaches_out(b, cells[i], d) by {
        lemma_bounds(cells, 2 * d, i);
        lemma_bounds(cells, 2 * d + 1, i);
        assert(b.coords[2 * d] == lowest(cells, 2 * d));
        assert(b.coords[2 * d + 1] == highest(cells, 2 * d + 1));
    }
}

proof fn lemma_union_all_bound(cells: Seq<CellView>, n_dim2: nat, i: int, d: int)
    requires
        n_dim2 <= RTREE_MAX_COORDS,
        0 <= i < cells.len(),
        0 <= d < n_dim2 / 2,
    ensures
        !reaches_out(union_of_all(cells, n_dim2), cells[i], d),
        cells[i].coords[2 * d].rank() is Some ==> union_of_all(cells, n_dim2).coords[2
            * d].rank() is Some,
        cells[i].coords[2 * d + 1].rank() is Some ==> union_of_all(cells, n_dim2).coords[2 * d
            + 1].rank() is Some,
    decreases cells.len(),
{
    if cells.len() > 1 {
        let rest = cells.drop_last();
        let before = union_of_all(rest, n_dim2);
        let u = union_of_all(cells, n_dim2);
        assert(u.coords[2 * d] == before.coords[2 * d].lower_of(cells.last().coords[2 * d]));
        assert(u.coords[2 * d + 1] == before.coords[2 * d + 1].higher_of(
            cells.last().coords[2 * d + 1],
        ));
        if i < rest.len() {
            lemma_union_all_bound(rest, n_dim2, i, d);
        }
    }
}

/// The union of all cells of a list covers each of them, whatever the coordinates are.
pub proof fn lemma_union_all_covers(cells: Seq<CellView>, n_dim2: nat, i: int)
    requires
        n_dim2 <= RTREE_MAX_COORDS,
        0 <= i < cells.len(),
    ensures
        covers(union_of_all(cells, n_dim2), cells[i], n_dim2),
{
    assert forall|d: int| 0 <= d < n_dim2 / 2 implies !#[trigger] reaches_out(
        union_of_all(cells, n_dim2),
        cells[i],
        d,
    ) by {
        lemma_union_all_bound(cells, n_dim2, i, d);
    }
}

/// A box has no NaN coordinates.
pub proof fn lemma_box_has_numbers(cell: CellView, n_dim2: nat)
    requires
        n_dim2 % 2 == 0,
        is_box(cell, n_dim2),
    ensures
        forall|k: int| 0 <= k < n_dim2 ==> #[trigger] cell.coords[k].rank() is Some,
{
    assert forall|k: int| 0 <= k < n_dim2 implies #[trigger] cell.coords[k].rank() is Some by {
        let d = k / 2;
        assert(cell.coords[2 * d].at_most(cell.coords[2 * d + 1]));
        assert(k == 2 * d || k == 2 * d + 1);
    }
}

/// The union of two boxes is a box.
pub proof fn lemma_union_is_box(a: CellView, b: CellView, n_dim2: nat)
    requires
        n_dim2 <= RTREE_MAX_COORDS,
        is_box(a, n_dim2),
        is_box(b, n_dim2),
    ensures
        is_box(union_of(a, b, n_dim2), n_dim2),
{
    let u = union_of(a, b, n_dim2);
    assert forall|d: int| 0 <= d < n_dim2 / 2 implies (#[trigger] u.coords[2 * d]).at_most(
        u.coords[2 * d + 1],
    ) by {
        assert(a.coords[2 * d].at_most(a.coords[2 * d + 1]));
        assert(b.coords[2 * d].at_most(b.coords[2 * d + 1]));
        assert(u.coords[2 * d] == a.coords[2 * d].lower_of(b.coords[2 * d]));
        assert(u.coords[2 * d + 1] == a.coords[2 * d + 1].higher_of(b.coords[2 * d + 1]));
    }
}

/// The union of the boxes of a list is a box, and every box that covers all of them covers it.
pub proof fn lemma_union_all_is_box(cells: Seq<CellView>, n_dim2: nat)
    requires
        n_dim2 <= RTREE_MAX_COORDS,
        cells.len() > 0,
        forall|i: int| 0 <= i < cells.len() ==> is_box(#[trigger] cells[i], n_dim2),
    ensures
        is_box(union_of_all(cells, n_dim2), n_dim2),
        forall|outer: CellView|
            (forall|i: int| 0 <= i < cells.len() ==> covers(outer, #[trigger] cells[i], n_dim2))
                ==> #[trigger] covers(outer, union_of_all(cells, n_dim2), n_dim2),
    decreases cells.len(),
{
    if cells.len() > 1 {
        let rest = cells.drop_last();
        assert forall|i: int| 0 <= i < rest.len() implies is_box(#[trigger] rest[i], n_dim2) by {
            assert(is_box(cells[i], n_dim2));
        }
        lemma_union_all_is_box(rest, n_dim2);
        assert(is_box(cells[cells.len() - 1], n_dim2));
        lemma_union_is_box(union_of_all(rest, n_dim2), cells.last(), n_dim2);
        assert forall|outer: CellView|
            (forall|i: int| 0 <= i < cells.len() ==> covers(outer, #[trigger] cells[i], n_dim2))
            implies #[trigger] covers(outer, union_of_all(cells, n_dim2), n_dim2) by {
            assert forall|i: int| 0 <= i < rest.len() implies covers(
                outer,
                #[trigger] rest[i],
                n_dim2,
            ) by {
                assert(covers(outer, cells[i], n_dim2));
            }
            assert(covers(outer, cells[cells.len() - 1], n_dim2));
            lemma_union_is_least(outer, union_of_all(rest, n_dim2), cells.last(), n_dim2);
        }
    } else {
        assert(is_box(cells[0], n_dim2));
    }
}

/// The box around the cells of a list is a box.
pub proof fn lemma_box_around_is_box(cells: Seq<CellView>, child_nodeno: i64, n_dim2: nat)
    requires
        n_dim2 <= RTREE_MAX_COORDS,
        cells.len() > 0,
        is_box(cells[0], n_dim2),
    ensures
        is_box(box_around(cells, child_nodeno, n_dim2), n_dim2),
{
    let b = box_around(cells, child_nodeno, n_dim2);
    assert forall|d: int| 0 <= d < n_dim2 / 2 implies (#[trigger] b.coords[2 * d]).at_most(
        b.coords[2 * d + 1],
    ) by {
        lemma_bounds(cells, 2 * d, 0);
        lemma_bounds(cells, 2 * d + 1, 0);
        assert(cells[0].coords[2 * d].at_most(cells[0].coords[2 * d + 1]));
        assert(b.coords[2 * d] == lowest(cells, 2 * d));
        assert(b.coords[2 * d + 1] == highest(cells, 2 * d + 1));
    }
}

proof fn lemma_best_area(areas: Seq<Area>, j: int)
    requires
        0 <= j < areas.len(),
    ensures
        0 <= best_child(areas) < areas.len(),
        best_area(areas).rank() is Some,
        !areas[j].below(best_area(areas)),
        best_area(areas).below(Area::spec_max()) ==> best_area(areas) == areas[best_child(areas)],
        !best_area(areas).below(Area::spec_max()) ==> best_area(areas) == Area::spec_max()
            && best_child(areas) == 0,
        best_area(areas).below(Area::spec_max()) && j < best_child(areas) ==> best_area(
            areas,
        ).below(areas[j]) || areas[j].rank() is None,
    decreases areas.len(),
{
    reveal_with_fuel(best_area, 2);
    reveal_with_fuel(best_child, 2);
    let rest = areas.drop_last();
    if rest.len() > 0 {
        if j < rest.len() {
            lemma_best_area(rest, j);
        } else {
            lemma_best_area(rest, 0);
        }
    }
}

/// The child that a descent takes has the smallest area, and is the first that has it: no area
/// is below its own, and every earlier one is above it. When no area is below the largest finite
/// number, the first child is taken.
pub proof fn lemma_best_child_is_smallest(areas: Seq<Area>, j: int)
    requires
        0 <= j < areas.len(),
    ensures
        0 <= best_child(areas) < areas.len(),
        (exists|i: int| 0 <= i < areas.len() && #[trigger] areas[i].below(Area::spec_max()))
            ==> !areas[j].below(areas[best_child(areas)]) && (j < best_child(areas)
            && areas[j].rank() is Some ==> areas[best_child(areas)].below(areas[j])),
        (forall|i: int| 0 <= i < areas.len() ==> !#[trigger] areas[i].below(Area::spec_max()))
            ==> best_child(areas) == 0,
{
    lemma_best_area(areas, j);
    if exists|i: int| 0 <= i < areas.len() && #[trigger] areas[i].below(Area::spec_max()) {
        let i = choose|i: int| 0 <= i < areas.len() && #[trigger] areas[i].below(Area::spec_max());
        lemma_best_area(areas, i);
    } else {
        lemma_best_area(areas, best_child(areas));
    }
}

} // verus!
