//! Boxes by the numbers of their bounds.

use vstd::prelude::*;
use crate::coord::{Area, Coord};
use crate::coord_laws;
use crate::geometry;
use crate::node::CellView;

verus! {

/// The coordinates of a cell that a table has are numbers.
pub open spec fn has_numbers(cell: CellView, n_dim2: int) -> bool {
    forall|k: int| 0 <= k < n_dim2 ==> !(#[trigger] cell.coords[k]).is_no_number()
}

/// A box covers another if and only if in every dimension its lower bound is not above and its upper
/// bound not below that of the other.
pub proof fn lemma_covers_by_numbers(outer: CellView, inner: CellView, n_dim2: nat)
    requires
        n_dim2 % 2 == 0,
        has_numbers(outer, n_dim2 as int),
        has_numbers(inner, n_dim2 as int),
    ensures
        geometry::covers(outer, inner, n_dim2) <==> forall|k: int|
            0 <= k < n_dim2 ==> if k % 2 == 0 {
                (#[trigger] outer.coords[k]).number() <= inner.coords[k].number()
            } else {
                outer.coords[k].number() >= inner.coords[k].number()
            },
{
    assert forall|k: int| 0 <= k < n_dim2 implies (#[trigger] inner.coords[k]).below(
        outer.coords[k],
    ) == (inner.coords[k].number() < outer.coords[k].number()) && outer.coords[k].below(
        inner.coords[k],
    ) == (outer.coords[k].number() < inner.coords[k].number()) by {
        let x = outer.coords[k];
        coord_laws::lemma_coords_compare_as_numbers(inner.coords[k], outer.coords[k]);
        coord_laws::lemma_coords_compare_as_numbers(outer.coords[k], inner.coords[k]);
    }
    if geometry::covers(outer, inner, n_dim2) {
        assert forall|k: int| 0 <= k < n_dim2 implies if k % 2 == 0 {
            (#[trigger] outer.coords[k]).number() <= inner.coords[k].number()
        } else {
            outer.coords[k].number() >= inner.coords[k].number()
        } by {
            let d = k / 2;
            assert(!geometry::reaches_out(outer, inner, d));
            assert(k == 2 * d || k == 2 * d + 1);
            let x = inner.coords[k];
        }
    }
    if forall|k: int|
        0 <= k < n_dim2 ==> if k % 2 == 0 {
            (#[trigger] outer.coords[k]).number() <= inner.coords[k].number()
        } else {
            outer.coords[k].number() >= inner.coords[k].number()
        } {
        assert forall|d: int| 0 <= d < n_dim2 / 2 implies !#[trigger] geometry::reaches_out(
            outer,
            inner,
            d,
        ) by {
            let a = outer.coords[2 * d];
            let b = outer.coords[2 * d + 1];
            let x = inner.coords[2 * d];
            let y = inner.coords[2 * d + 1];
        }
    }
}

/// A cell is a box if and only if its coordinates are numbers and no lower bound is above the upper
/// bound of its dimension.
pub proof fn lemma_boxes_by_numbers(cell: CellView, n_dim2: nat)
    ensures
        geometry::is_box(cell, n_dim2) <==> forall|d: int|
            0 <= d < n_dim2 / 2 ==> {
                let low = #[trigger] cell.coords[2 * d];
                let high = cell.coords[2 * d + 1];
                !low.is_no_number() && !high.is_no_number() && low.number() <= high.number()
            },
{
    assert forall|d: int| 0 <= d < n_dim2 / 2 implies (#[trigger] cell.coords[2 * d]).at_most(
        cell.coords[2 * d + 1],
    ) == ({
        let low = cell.coords[2 * d];
        let high = cell.coords[2 * d + 1];
        !low.is_no_number() && !high.is_no_number() && low.number() <= high.number()
    }) by {
        coord_laws::lemma_coords_compare_as_numbers(cell.coords[2 * d], cell.coords[2 * d + 1]);
    }
}

/// The union of two boxes has in every dimension the lower one of their lower bounds and the higher
/// one of their upper bounds. It keeps the number of the first, and has no other coordinates.
pub proof fn lemma_union_by_numbers(a: CellView, b: CellView, n_dim2: nat, k: int)
    requires
        n_dim2 <= 10,
        n_dim2 % 2 == 0,
        has_numbers(a, n_dim2 as int),
        has_numbers(b, n_dim2 as int),
        0 <= k < 10,
    ensures
        ({
            let u = geometry::union_of(a, b, n_dim2);
            &&& u.rowid == a.rowid
            &&& u.coords.len() == 10
            &&& k >= n_dim2 ==> u.coords[k].bits == 0
            &&& k < n_dim2 ==> u.coords[k] == a.coords[k] || u.coords[k] == b.coords[k]
            &&& k < n_dim2 && k % 2 == 0 ==> u.coords[k].number() <= a.coords[k].number()
                && u.coords[k].number() <= b.coords[k].number()
            &&& k < n_dim2 && k % 2 == 1 ==> u.coords[k].number() >= a.coords[k].number()
                && u.coords[k].number() >= b.coords[k].number()
        }),
{
    if k < n_dim2 {
        let x = a.coords[k];
        let y = b.coords[k];
        coord_laws::lemma_lower_and_higher(a.coords[k], b.coords[k]);
    }
}

/// A number that is not infinite.
pub open spec fn is_finite(c: Coord) -> bool {
    !c.is_no_number() && c.bits as int % 0x8000_0000 != 0x7f80_0000
}

proof fn lemma_lowest_by_numbers(cells: Seq<CellView>, k: int) -> (i: int)
    requires
        cells.len() > 0,
        forall|j: int| 0 <= j < cells.len() ==> is_finite((#[trigger] cells[j]).coords[k]),
    ensures
        0 <= i < cells.len(),
        geometry::lowest(cells, k).number() == cells[i].coords[k].number(),
        !geometry::lowest(cells, k).is_no_number(),
        forall|j: int|
            0 <= j < cells.len() ==> geometry::lowest(cells, k).number() <= (
            #[trigger] cells[j]).coords[k].number(),
    decreases cells.len(),
{
    let less = cells.drop_last();
    let last = cells[cells.len() - 1].coords[k];
    assert(is_finite(last));
    assert forall|j: int| 0 <= j < less.len() implies is_finite((#[trigger] less[j]).coords[k]) by {
        assert(less[j] == cells[j]);
    }
    coord_laws::lemma_named_coords(last);
    let before = geometry::lowest(less, k);
    coord_laws::lemma_lower_and_higher(before, last);
    if less.len() == 0 {
        assert(before == Coord::spec_max());
        coord_laws::lemma_coords_compare_as_numbers(before, last);
        0
    } else {
        let i = lemma_lowest_by_numbers(less, k);
        assert(less[i] == cells[i]);
        assert forall|j: int| 0 <= j < cells.len() implies geometry::lowest(cells, k).number() <= (
        #[trigger] cells[j]).coords[k].number() by {
            if j < less.len() {
                assert(less[j] == cells[j]);
            }
        }
        if geometry::lowest(cells, k) == last {
            cells.len() - 1
        } else {
            i
        }
    }
}

proof fn lemma_highest_by_numbers(cells: Seq<CellView>, k: int) -> (i: int)
    requires
        cells.len() > 0,
        forall|j: int| 0 <= j < cells.len() ==> is_finite((#[trigger] cells[j]).coords[k]),
    ensures
        0 <= i < cells.len(),
        geometry::highest(cells, k).number() == cells[i].coords[k].number(),
        !geometry::highest(cells, k).is_no_number(),
        forall|j: int|
            0 <= j < cells.len() ==> geometry::highest(cells, k).number() >= (
            #[trigger] cells[j]).coords[k].number(),
    decreases cells.len(),
{
    let less = cells.drop_last();
    let last = cells[cells.len() - 1].coords[k];
    assert(is_finite(last));
    assert forall|j: int| 0 <= j < less.len() implies is_finite((#[trigger] less[j]).coords[k]) by {
        assert(less[j] == cells[j]);
    }
    coord_laws::lemma_named_coords(last);
    let before = geometry::highest(less, k);
    coord_laws::lemma_lower_and_higher(before, last);
    if less.len() == 0 {
        assert(before == Coord::spec_min());
        coord_laws::lemma_coords_compare_as_numbers(before, last);
        0
    } else {
        let i = lemma_highest_by_numbers(less, k);
        assert(less[i] == cells[i]);
        assert forall|j: int| 0 <= j < cells.len() implies geometry::highest(cells, k).number() >= (
        #[trigger] cells[j]).coords[k].number() by {
            if j < less.len() {
                assert(less[j] == cells[j]);
            }
        }
        if geometry::highest(cells, k) == last {
            cells.len() - 1
        } else {
            i
        }
    }
}

/// The box around a list of cells with finite coordinates has in every dimension the lowest of their
/// lower bounds and the highest of their upper bounds, and the number that it points to. Without cells
/// every coordinate is 0.
pub proof fn lemma_box_around_by_numbers(cells: Seq<CellView>, no: i64, n_dim2: nat, k: int)
    requires
        n_dim2 <= 10,
        n_dim2 % 2 == 0,
        0 <= k < 10,
    ensures
        ({
            let b = geometry::box_around(cells, no, n_dim2);
            &&& b.rowid == no
            &&& b.coords.len() == 10
            &&& cells.len() == 0 || k >= n_dim2 ==> b.coords[k].bits == 0
            &&& cells.len() > 0 && k < n_dim2 && (forall|j: int|
                0 <= j < cells.len() ==> is_finite((#[trigger] cells[j]).coords[k])) ==> {
                &&& exists|i: int|
                    0 <= i < cells.len() && b.coords[k].number() == (
                    #[trigger] cells[i]).coords[k].number()
                &&& forall|j: int|
                    0 <= j < cells.len() ==> if k % 2 == 0 {
                        b.coords[k].number() <= (#[trigger] cells[j]).coords[k].number()
                    } else {
                        b.coords[k].number() >= cells[j].coords[k].number()
                    }
            }
        }),
{
    if cells.len() > 0 && k < n_dim2 && (forall|j: int|
        0 <= j < cells.len() ==> is_finite((#[trigger] cells[j]).coords[k])) {
        let b = geometry::box_around(cells, no, n_dim2);
        if k % 2 == 0 {
            let i = lemma_lowest_by_numbers(cells, k);
            assert(b.coords[k].number() == cells[i].coords[k].number());
        } else {
            let i = lemma_highest_by_numbers(cells, k);
            assert(b.coords[k].number() == cells[i].coords[k].number());
        }
    }
}

/// The union of the boxes of a list has in every dimension the lowest of their lower bounds and the
/// highest of their upper bounds.
pub proof fn lemma_union_of_all_by_numbers(cells: Seq<CellView>, n_dim2: nat, k: int) -> (i: int)
    requires
        n_dim2 <= 10,
        n_dim2 % 2 == 0,
        0 <= k < n_dim2,
        cells.len() > 0,
        forall|j: int| 0 <= j < cells.len() ==> has_numbers(#[trigger] cells[j], n_dim2 as int),
    ensures
        0 <= i < cells.len(),
        geometry::union_of_all(cells, n_dim2).rowid == cells[0].rowid,
        geometry::union_of_all(cells, n_dim2).coords[k] == cells[i].coords[k],
        has_numbers(geometry::union_of_all(cells, n_dim2), n_dim2 as int),
        forall|j: int|
            0 <= j < cells.len() ==> if k % 2 == 0 {
                geometry::union_of_all(cells, n_dim2).coords[k].number() <= (
                #[trigger] cells[j]).coords[k].number()
            } else {
                geometry::union_of_all(cells, n_dim2).coords[k].number()
                    >= cells[j].coords[k].number()
            },
    decreases cells.len(),
{
    let u = geometry::union_of_all(cells, n_dim2);
    assert(has_numbers(cells[0], n_dim2 as int));
    if cells.len() == 1 {
        0
    } else {
        let less = cells.drop_last();
        let last = cells[cells.len() - 1];
        assert(has_numbers(last, n_dim2 as int));
        assert forall|j: int| 0 <= j < less.len() implies has_numbers(
            #[trigger] less[j],
            n_dim2 as int,
        ) by {
            assert(has_numbers(cells[j], n_dim2 as int));
        }
        let i = lemma_union_of_all_by_numbers(less, n_dim2, k);
        let before = geometry::union_of_all(less, n_dim2);
        assert forall|m: int| 0 <= m < n_dim2 implies !(#[trigger] u.coords[m]).is_no_number() by {
            let x = before.coords[m];
            let y = last.coords[m];
            lemma_union_by_numbers(before, last, n_dim2, m);
        }
        lemma_union_by_numbers(before, last, n_dim2, k);
        assert forall|j: int| 0 <= j < cells.len() implies if k % 2 == 0 {
            u.coords[k].number() <= (#[trigger] cells[j]).coords[k].number()
        } else {
            u.coords[k].number() >= cells[j].coords[k].number()
        } by {
            if j < less.len() {
                assert(less[j] == cells[j]);
            }
        }
        assert(less[i] == cells[i]);
        if u.coords[k] == last.coords[k] {
            cells.len() - 1
        } else {
            i
        }
    }
}

/// The child that a descent takes, by the areas of the children: no area is smaller than its own, and
/// every one before it is larger, as numbers.
pub proof fn lemma_chosen_child_by_numbers(areas: Seq<Area>, j: int)
    requires
        areas.len() > 0,
        0 <= j < areas.len(),
        forall|i: int|
            0 <= i < areas.len() ==> !(#[trigger] areas[i]).is_no_number() && areas[i].number()
                < Area::spec_max().number(),
    ensures
        0 <= geometry::best_child(areas) < areas.len(),
        areas[geometry::best_child(areas)].number() <= areas[j].number(),
        j < geometry::best_child(areas) ==> areas[geometry::best_child(areas)].number()
            < areas[j].number(),
        Area::spec_max().bits == 0x7fef_ffff_ffff_ffff,
{
    geometry::lemma_best_child_is_smallest(areas, j);
    let b = geometry::best_child(areas);
    assert(!areas[j].is_no_number() && !areas[b].is_no_number());
    coord_laws::lemma_areas_compare_as_numbers(areas[j], areas[b]);
    coord_laws::lemma_areas_compare_as_numbers(areas[b], areas[j]);
    coord_laws::lemma_areas_compare_as_numbers(areas[j], Area::spec_max());
    assert(areas[j].below(Area::spec_max()));
}

} // verus!
