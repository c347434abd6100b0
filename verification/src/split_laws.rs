//! How a full node is split, by the ratings of the axes, and which way a descent takes.

use vstd::prelude::*;
use crate::coord::Area;
use crate::coord_laws;
use crate::geometry;
use crate::node;
use crate::node::{CellView, NodeView};
use crate::split;
use crate::store;
use crate::store::{RatingView, RequestView, Score, Stop, StoreView};
use crate::table::TableView;
use crate::tree_insert;

verus! {

/// A score is better than another, as numbers: less overlap, or as much and less area.
pub open spec fn is_better(a: Score, b: Score) -> bool {
    a.overlap.number() < b.overlap.number() || (a.overlap.number() == b.overlap.number()
        && a.area.number() < b.area.number())
}

/// A score is made of numbers.
pub open spec fn is_scored(a: Score) -> bool {
    !a.overlap.is_no_number() && !a.area.is_no_number()
}

/// Scores are compared as numbers.
pub proof fn lemma_scores_by_numbers(a: Score, b: Score)
    requires
        is_scored(a),
        is_scored(b),
    ensures
        split::better(a, b) <==> is_better(a, b),
{
    coord_laws::lemma_areas_compare_as_numbers(a.overlap, b.overlap);
    coord_laws::lemma_areas_compare_as_numbers(b.overlap, a.overlap);
    coord_laws::lemma_areas_compare_as_numbers(a.area, b.area);
}

proof fn lemma_best_of_first(scores: Seq<Score>, n: nat)
    requires
        0 < n <= scores.len(),
        forall|i: int| 0 <= i < scores.len() ==> is_scored(#[trigger] scores[i]),
    ensures
        split::best_division(scores, n) < n,
        forall|j: int|
            0 <= j < n ==> !is_better(
                #[trigger] scores[j],
                scores[split::best_division(scores, n) as int],
            ),
        forall|j: int|
            0 <= j < split::best_division(scores, n) ==> is_better(
                scores[split::best_division(scores, n) as int],
                #[trigger] scores[j],
            ),
    decreases n,
{
    if n > 1 {
        lemma_best_of_first(scores, (n - 1) as nat);
        let before = split::best_division(scores, (n - 1) as nat) as int;
        assert(is_scored(scores[n - 1]) && is_scored(scores[before]));
        lemma_scores_by_numbers(scores[n - 1], scores[before]);
    }
}

proof fn lemma_first_smallest_margin(ratings: Seq<RatingView>, n: nat)
    requires
        0 < n <= ratings.len(),
        forall|i: int| 0 <= i < ratings.len() ==> !(#[trigger] ratings[i]).margin.is_no_number(),
    ensures
        split::best_axis(ratings, n) < n,
        forall|j: int|
            0 <= j < n ==> ratings[split::best_axis(ratings, n) as int].margin.number() <= (
            #[trigger] ratings[j]).margin.number(),
        forall|j: int|
            0 <= j < split::best_axis(ratings, n) ==> ratings[split::best_axis(
                ratings,
                n,
            ) as int].margin.number() < (#[trigger] ratings[j]).margin.number(),
    decreases n,
{
    if n > 1 {
        lemma_first_smallest_margin(ratings, (n - 1) as nat);
        let before = split::best_axis(ratings, (n - 1) as nat) as int;
        assert(!ratings[n - 1].margin.is_no_number() && !ratings[before].margin.is_no_number());
        coord_laws::lemma_areas_compare_as_numbers(ratings[n - 1].margin, ratings[before].margin);
    }
}

/// Along an axis the cells of a list are in order: by their lower bounds, and by their upper bounds
/// where these are equal.
pub open spec fn is_along(cells: Seq<CellView>, d: int) -> bool {
    forall|i: int, j: int|
        0 <= i < j < cells.len() ==> {
            let a = #[trigger] cells[i];
            let b = #[trigger] cells[j];
            a.coords[2 * d].number() < b.coords[2 * d].number() || (a.coords[2 * d].number()
                == b.coords[2 * d].number() && a.coords[2 * d + 1].number() <= b.coords[2 * d
                + 1].number())
        }
}

proof fn lemma_in_order_by_numbers(cells: Seq<CellView>, d: int)
    requires
        split::in_order(cells, d),
        split::numbered(cells, d),
    ensures
        is_along(cells, d),
{
    assert forall|i: int, j: int| 0 <= i < j < cells.len() implies {
        let a = #[trigger] cells[i];
        let b = #[trigger] cells[j];
        a.coords[2 * d].number() < b.coords[2 * d].number() || (a.coords[2 * d].number()
            == b.coords[2 * d].number() && a.coords[2 * d + 1].number() <= b.coords[2 * d
            + 1].number())
    } by {
        let a = cells[i];
        let b = cells[j];
        assert(!split::precedes(b, a, d));
        coord_laws::lemma_coords_compare_as_numbers(a.coords[2 * d], b.coords[2 * d]);
        coord_laws::lemma_coords_compare_as_numbers(b.coords[2 * d], a.coords[2 * d]);
        coord_laws::lemma_coords_compare_as_numbers(a.coords[2 * d + 1], b.coords[2 * d + 1]);
        coord_laws::lemma_coords_compare_as_numbers(b.coords[2 * d + 1], a.coords[2 * d + 1]);
    }
}

/// A full node is split along the first axis with the smallest margin, behind the first cells that the
/// best division has on its left: the cells of both halves, one list behind the other, are in order
/// along that axis, and no other division of it is better.
pub proof fn lemma_split_follows_the_ratings(
    t: TableView,
    n: NodeView,
    cell: CellView,
    ratings: Seq<RatingView>,
) -> (r: (int, int))
    requires
        t.wf(),
        t.holds(n.data),
        node::page_count(n.data) == t.max_cells(),
        cell.kept(t.n_dim2 as nat) == cell,
        ratings.len() > 0,
        ratings.len() == t.n_dim2 as int / 2,
        forall|i: int| 0 <= i < ratings.len() ==> !(#[trigger] ratings[i]).margin.is_no_number(),
        forall|i: int|
            0 <= i < ratings.len() ==> (#[trigger] ratings[i]).scores.len() == t.max_cells() + 2 - 2
                * t.min_cells(),
        forall|i: int, j: int|
            0 <= i < ratings.len() && 0 <= j < ratings[i].scores.len() ==> is_scored(
                #[trigger] ratings[i].scores[j],
            ),
        forall|i: int, k: int|
            0 <= i <= t.max_cells() && 0 <= k < t.n_dim2 ==> !(#[trigger] t.cells(n.data).push(
                cell,
            )[i].coords[k]).is_no_number(),
    ensures
        ({
            let (left, right) = split::halves(t, n, cell, t.n_dim2 as nat, ratings);
            let (axis, at) = r;
            let lc = t.cells(left.data);
            let rc = t.cells(right.data);
            &&& 0 <= axis < ratings.len()
            &&& forall|j: int|
                0 <= j < ratings.len() ==> ratings[axis].margin.number() <= (
                #[trigger] ratings[j]).margin.number()
            &&& forall|j: int|
                0 <= j < axis ==> ratings[axis].margin.number() < (
                #[trigger] ratings[j]).margin.number()
            &&& 0 <= at < ratings[axis].scores.len()
            &&& forall|j: int|
                0 <= j < ratings[axis].scores.len() ==> !is_better(
                    #[trigger] ratings[axis].scores[j],
                    ratings[axis].scores[at],
                )
            &&& forall|j: int|
                0 <= j < at ==> is_better(
                    ratings[axis].scores[at],
                    #[trigger] ratings[axis].scores[j],
                )
            &&& lc.len() == t.min_cells() + at
            &&& lc.len() + rc.len() == t.max_cells() + 1
            &&& is_along(lc + rc, axis)
        }),
{
    t.lemma_room();
    let n_dim2 = t.n_dim2 as nat;
    let all = split::all_cells(t, n, cell, n_dim2);
    let axis = split::best_axis(ratings, ratings.len());
    lemma_first_smallest_margin(ratings, ratings.len());
    let rating = ratings[axis as int];
    assert(rating.scores.len() == t.max_cells() + 2 - 2 * t.min_cells());
    let least = t.min_cells();
    assert(split::scored(rating, all.len(), least) == rating.scores.len());
    assert forall|i: int| 0 <= i < rating.scores.len() implies is_scored(
        #[trigger] rating.scores[i],
    ) by {
        assert(is_scored(ratings[axis as int].scores[i]));
    }
    lemma_best_of_first(rating.scores, rating.scores.len());
    let at = split::best_division(rating.scores, rating.scores.len());
    let (cells, cut) = split::cut(t, all, ratings);
    assert(cells == split::arranged(all, axis as int) && cut == least + at);
    split::lemma_arranged(all, axis as int);
    split::lemma_half_holds(t, n.depth, n_dim2, cells.take(cut));
    split::lemma_half_holds(t, n.depth, n_dim2, cells.skip(cut));
    let (left, right) = split::halves(t, n, cell, n_dim2, ratings);
    let both = t.cells(left.data) + t.cells(right.data);
    assert forall|i: int| 0 <= i < all.len() implies (#[trigger] all[i]).kept(n_dim2) == all[i] by {
        if i < t.cells(n.data).len() {
            assert(all[i].kept(n_dim2).coords =~= all[i].coords);
        }
    }
    assert forall|i: int| 0 <= i < cells.len() implies #[trigger] both[i] == cells[i] by {
        assert(cells.contains(cells[i]));
        let j = all.index_of(cells[i]);
        assert(all[j].kept(n_dim2) == all[j]);
        if i >= cut {
            assert(cells.skip(cut)[i - cut] == cells[i]);
        }
    }
    assert(both =~= cells);
    assert(split::numbered(all, axis as int)) by {
        assert forall|i: int| 0 <= i < all.len() implies (#[trigger] all[i]).coords[2
            * axis as int].rank() is Some && all[i].coords[2 * axis as int + 1].rank() is Some by {
            assert(!t.cells(n.data).push(cell)[i].coords[2 * axis as int].is_no_number());
            assert(!t.cells(n.data).push(cell)[i].coords[2 * axis as int + 1].is_no_number());
            coord_laws::lemma_coords_compare_as_numbers(
                all[i].coords[2 * axis as int],
                all[i].coords[2 * axis as int + 1],
            );
            coord_laws::lemma_coords_compare_as_numbers(
                all[i].coords[2 * axis as int + 1],
                all[i].coords[2 * axis as int],
            );
        }
    }
    split::lemma_arranged_is_in_order(all, axis as int);
    lemma_in_order_by_numbers(both, axis as int);
    (axis as int, at as int)
}

/// A node that the ratings say nothing of, or with too few cells for two well filled halves, is cut in
/// the middle, the cells in their order; the left half has one more where they cannot be halved.
pub proof fn lemma_split_in_the_middle(t: TableView, n: NodeView, cell: CellView, n_dim2: nat)
    requires
        t.wf(),
        t.holds(n.data),
    ensures
        ({
            let all = node::page_cells(n.data, n_dim2, t.n_bytes_per_cell as nat).push(cell);
            let (cells, at) = split::cut(t, all, Seq::empty());
            &&& cells == all
            &&& 2 * at == all.len() || 2 * at == all.len() + 1
        }),
{
}

/// The ratings that are asked for are those of all divisions along the axis: each has on its left the
/// first cells in the order of the axis, from the least number that a node should have up to all but
/// that many, and the box around each part.
pub proof fn lemma_ratings_that_are_asked_for(
    t: TableView,
    s: StoreView,
    n: NodeView,
    cell: CellView,
    d: nat,
    known: Seq<RatingView>,
    j: int,
)
    requires
        t.wf(),
        d < t.n_dim2 as nat / 2,
        s.rated >= s.ratings.len(),
        node::page_count(n.data) == t.max_cells(),
        0 <= j <= t.max_cells() + 1 - 2 * t.min_cells(),
    ensures
        ({
            let n_dim2 = t.n_dim2 as nat;
            let sorted = split::arranged(t.cells(n.data).push(cell), d as int);
            let (r, s2) = t.rate_axes(s, n, cell, d, known);
            let asked = s2.pending->0->Rating_0;
            let at = t.min_cells() + j;
            &&& r == Err::<Seq<RatingView>, Stop>(Stop::Wait)
            &&& s2.pending is Some && s2.pending->0 is Rating
            &&& asked.len() == t.max_cells() + 2 - 2 * t.min_cells()
            &&& asked[j].left == geometry::box_around(sorted.take(at), 0, n_dim2).coords
            &&& asked[j].right == geometry::box_around(sorted.skip(at), 0, n_dim2).coords
        }),
{
    reveal(TableView::rate_axes);
    t.lemma_room();
    split::lemma_arranged(t.cells(n.data).push(cell), d as int);
}

proof fn lemma_areas_told(s: StoreView, cells: Seq<CellView>, i: int, known: Seq<Area>)
    requires
        0 <= i <= cells.len(),
        known.len() == i,
        forall|j: int|
            0 <= j < i ==> store::area_of(s.areas, (#[trigger] cells[j]).coords) == Some(known[j]),
    ensures
        tree_insert::areas_from(s, cells, i, known) matches (Ok(areas), s2) ==> {
            &&& s2 == s
            &&& areas.len() == cells.len()
            &&& forall|j: int|
                0 <= j < cells.len() ==> store::area_of(s.areas, (#[trigger] cells[j]).coords)
                    == Some(areas[j])
        },
    decreases cells.len() - i,
{
    if i < cells.len() {
        if let (Ok(area), s1) = s.fetch_area(cells[i].coords) {
            let more = known.push(area);
            assert forall|j: int| 0 <= j < i + 1 implies store::area_of(
                s.areas,
                (#[trigger] cells[j]).coords,
            ) == Some(more[j]) by {
                if j < i {
                    assert(store::area_of(s.areas, cells[j].coords) == Some(known[j]));
                }
            }
            lemma_areas_told(s, cells, i + 1, more);
        }
    }
}

/// A descent goes on to the child with the smallest area of those that were told, and to the first of
/// them where several have it: the node that it gets to is the one that the cell of that child points
/// to.
pub proof fn lemma_descent_takes_the_smallest_child(
    t: TableView,
    s: StoreView,
    current: NodeView,
    depth: nat,
    j: int,
) -> (k: int)
    requires
        s.connected,
        t.descend(s, current, t.n_dim2 as nat, depth, 1).0 matches Ok(Some(_)),
        0 <= j < t.cells(current.data).len(),
        forall|i: int|
            0 <= i < t.cells(current.data).len() ==> {
                let area = store::area_of(s.areas, (#[trigger] t.cells(current.data)[i]).coords);
                area is Some ==> !area->0.is_no_number() && area->0.number()
                    < Area::spec_max().number()
            },
    ensures
        ({
            let cells = t.cells(current.data);
            let next = t.descend(s, current, t.n_dim2 as nat, depth, 1).0->Ok_0->0;
            let mine = store::area_of(s.areas, cells[k].coords);
            let other = store::area_of(s.areas, cells[j].coords);
            &&& 0 <= k < cells.len()
            &&& next.node_no == cells[k].rowid
            &&& mine is Some
            &&& other is Some
            &&& mine->0.number() <= other->0.number()
            &&& j < k ==> mine->0.number() < other->0.number()
        }),
{
    reveal_with_fuel(TableView::descend, 2);
    let cells = t.cells(current.data);
    lemma_areas_told(s, cells, 0, Seq::empty());
    let areas = tree_insert::areas_from(s, cells, 0, Seq::empty()).0->Ok_0;
    assert forall|i: int| 0 <= i < areas.len() implies !(#[trigger] areas[i]).is_no_number()
        && areas[i].number() < Area::spec_max().number() by {
        assert(store::area_of(s.areas, cells[i].coords) == Some(areas[i]));
    }
    crate::box_laws::lemma_chosen_child_by_numbers(areas, j);
    let k = geometry::best_child(areas);
    assert(store::area_of(s.areas, cells[k].coords) == Some(areas[k]));
    assert(store::area_of(s.areas, cells[j].coords) == Some(areas[j]));
    k
}

/// What is waited for while areas or ratings are missing is a request for them.
pub proof fn lemma_missing_area_is_asked_for(s: StoreView, cells: Seq<CellView>)
    requires
        cells.len() > 0,
        store::area_of(s.areas, cells[0].coords) is None,
    ensures
        tree_insert::areas_from(s, cells, 0, Seq::empty()) == (
            Err::<Seq<Area>, Stop>(Stop::Wait),
            StoreView { pending: Some(RequestView::Area(cells[0].coords)), ..s },
        ),
{
}

} // verus!
