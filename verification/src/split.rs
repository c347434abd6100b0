//! Splitting a full node into two: along the axis with the smallest margins, where the two boxes
//! overlap least.

use vstd::prelude::*;
use crate::coord::{Coord, COORD_MAX_BITS, COORD_MIN_BITS};
use crate::forest;
use crate::forest::{distinct, lists};
use crate::geometry;
use crate::node;
use crate::node::{CellView, NodeView, RtreeCell, RtreeNode, RTREE_MAX_COORDS};
use crate::page_laws;
use crate::store;
use crate::store::{Division, DivisionView, Rating, RatingView, Score};
use crate::table::{RtreeTable, TableView};

verus! {

/// Along axis `d` a cell comes before another: by its lower coordinate, and by its upper one where
/// the lower ones are equal.
pub open spec fn precedes(a: CellView, b: CellView, d: int) -> bool {
    a.coords[2 * d].below(b.coords[2 * d]) || (!b.coords[2 * d].below(a.coords[2 * d])
        && a.coords[2 * d + 1].below(b.coords[2 * d + 1]))
}

/// Where a cell goes in a list that is in order along axis `d`: behind all that it does not come
/// before.
pub open spec fn place_for(cells: Seq<CellView>, cell: CellView, d: int) -> int
    decreases cells.len(),
{
    if cells.len() > 0 && precedes(cell, cells.last(), d) {
        place_for(cells.drop_last(), cell, d)
    } else {
        cells.len() as int
    }
}

/// The cells of a list in order along axis `d`.
pub open spec fn arranged(cells: Seq<CellView>, d: int) -> Seq<CellView>
    decreases cells.len(),
{
    if cells.len() == 0 {
        Seq::empty()
    } else {
        let rest = arranged(cells.drop_last(), d);
        rest.insert(place_for(rest, cells.last(), d), cells.last())
    }
}

/// The divisions of a list of cells into two parts of at least `least` cells each.
pub open spec fn divisions(cells: Seq<CellView>, least: nat, n_dim2: nat) -> Seq<DivisionView> {
    Seq::new(
        division_count(cells.len(), least),
        |j: int| division(cells, least + j, n_dim2),
    )
}

/// How many divisions of `total` cells there are.
pub open spec fn division_count(total: nat, least: nat) -> nat {
    if total < 2 * least {
        0
    } else {
        (total - 2 * least + 1) as nat
    }
}

/// The boxes around the first `at` cells of a list and around the others.
pub open spec fn division(cells: Seq<CellView>, at: int, n_dim2: nat) -> DivisionView {
    DivisionView {
        left: geometry::box_around(cells.take(at), 0, n_dim2).coords,
        right: geometry::box_around(cells.skip(at), 0, n_dim2).coords,
    }
}

/// A division is better than another: its boxes overlap less, or as much and are smaller.
pub open spec fn better(a: Score, b: Score) -> bool {
    a.overlap.below(b.overlap) || (!b.overlap.below(a.overlap) && a.area.below(b.area))
}

/// The best of the first `n` divisions: the first of those that no other is better than.
pub open spec fn best_division(scores: Seq<Score>, n: nat) -> nat
    decreases n,
{
    if n <= 1 {
        0
    } else {
        let before = best_division(scores, (n - 1) as nat);
        if better(scores[n - 1], scores[before as int]) {
            (n - 1) as nat
        } else {
            before
        }
    }
}

/// Of the first `n` axes the first one with the smallest margin.
pub open spec fn best_axis(ratings: Seq<RatingView>, n: nat) -> nat
    decreases n,
{
    if n <= 1 {
        0
    } else {
        let before = best_axis(ratings, (n - 1) as nat);
        if ratings[n - 1].margin.below(ratings[before as int].margin) {
            (n - 1) as nat
        } else {
            before
        }
    }
}

/// How many of `total` cells go to the left half where none is better than another: the larger
/// share when they cannot be halved.
pub open spec fn left_share(total: nat) -> nat {
    (total + 1) / 2
}

/// The number of scores that count: one for each division.
pub open spec fn scored(rating: RatingView, total: nat, least: nat) -> nat {
    if rating.scores.len() < division_count(total, least) {
        rating.scores.len()
    } else {
        division_count(total, least)
    }
}

/// The order of the cells for a split, and how many of them go to the left: by the best division
/// along the best axis. Cells that are too few for two parts, or that nothing is known of, stay in
/// their order and are cut in the middle.
pub open spec fn cut(t: TableView, all: Seq<CellView>, ratings: Seq<RatingView>) -> (
    Seq<CellView>,
    int,
) {
    let least = t.min_cells();
    if ratings.len() == 0 || all.len() < 2 * least {
        (all, left_share(all.len()) as int)
    } else {
        let axis = best_axis(ratings, ratings.len());
        let rating = ratings[axis as int];
        (
            arranged(all, axis as int),
            (least + best_division(rating.scores, scored(rating, all.len(), least))) as int,
        )
    }
}

/// A new node, without a number yet, that holds just `cells`.
pub open spec fn half_node(t: TableView, depth: usize, n_dim2: nat, cells: Seq<CellView>) -> NodeView {
    NodeView::fresh(0, depth, t.node_size as nat).edited(
        node::with_count(
            node::with_cells(
                node::empty_page(t.node_size as nat),
                n_dim2,
                t.n_bytes_per_cell as nat,
                cells,
            ),
            cells.len(),
        ),
    )
}

/// The cells of a node and one more.
pub open spec fn all_cells(t: TableView, n: NodeView, cell: CellView, n_dim2: nat) -> Seq<CellView> {
    node::page_cells(n.data, n_dim2, t.n_bytes_per_cell as nat).push(cell)
}

/// The two halves of a node and one more cell, by the ratings of the axes.
pub open spec fn halves(
    t: TableView,
    n: NodeView,
    cell: CellView,
    n_dim2: nat,
    ratings: Seq<RatingView>,
) -> (NodeView, NodeView) {
    let (cells, at) = cut(t, all_cells(t, n, cell, n_dim2), ratings);
    (half_node(t, n.depth, n_dim2, cells.take(at)), half_node(t, n.depth, n_dim2, cells.skip(at)))
}

proof fn lemma_place_for(cells: Seq<CellView>, cell: CellView, d: int)
    ensures
        0 <= place_for(cells, cell, d) <= cells.len(),
    decreases cells.len(),
{
    if cells.len() > 0 && precedes(cell, cells.last(), d) {
        lemma_place_for(cells.drop_last(), cell, d);
    }
}

/// A list with a cell put in somewhere.
proof fn lemma_put_in(cells: Seq<CellView>, i: int, cell: CellView)
    requires
        0 <= i <= cells.len(),
    ensures
        forall|c: CellView| #[trigger]
            cells.insert(i, cell).contains(c) == (cells.contains(c) || c == cell),
        distinct(cells) && !lists(cells, cell.rowid) ==> distinct(cells.insert(i, cell)),
{
    let more = cells.insert(i, cell);
    assert forall|c: CellView| #[trigger] more.contains(c) == (cells.contains(c) || c == cell) by {
        if cells.contains(c) {
            let k = cells.index_of(c);
            assert(more[if k < i { k } else { k + 1 }] == c);
        }
        if more.contains(c) && c != cell {
            let k = more.index_of(c);
            assert(cells[if k < i { k } else { k - 1 }] == c);
        }
        assert(more[i] == cell);
    }
    if distinct(cells) && !lists(cells, cell.rowid) {
        reveal(distinct);
        assert forall|a: int, b: int| 0 <= a < b < more.len() implies #[trigger] more[a].rowid
            != #[trigger] more[b].rowid by {
            let x = if a < i { a } else { a - 1 };
            let y = if b < i { b } else { b - 1 };
            if a == i {
                forest::lemma_lists(cells, y);
            } else if b == i {
                forest::lemma_lists(cells, x);
            } else {
                assert(cells[x].rowid != cells[y].rowid);
            }
        }
    }
}

/// Putting a list in order loses no cell and brings none in.
pub proof fn lemma_arranged(cells: Seq<CellView>, d: int)
    ensures
        arranged(cells, d).len() == cells.len(),
        forall|c: CellView| #[trigger] arranged(cells, d).contains(c) == cells.contains(c),
        distinct(cells) ==> distinct(arranged(cells, d)),
    decreases cells.len(),
{
    if cells.len() > 0 {
        let less = cells.drop_last();
        let last = cells.last();
        let rest = arranged(less, d);
        lemma_arranged(less, d);
        lemma_place_for(rest, last, d);
        lemma_put_in(rest, place_for(rest, last, d), last);
        lemma_put_in(less, less.len() as int, last);
        assert(less.insert(less.len() as int, last) =~= cells);
        if distinct(cells) {
            reveal(distinct);
            assert(distinct(less)) by {
                assert forall|a: int, b: int| 0 <= a < b < less.len() implies #[trigger] less[a].rowid
                    != #[trigger] less[b].rowid by {
                    assert(cells[a].rowid != cells[b].rowid);
                }
            }
            if lists(rest, last.rowid) {
                let k = forest::lemma_place(rest, last.rowid);
                assert(rest.contains(rest[k]));
                let j = less.index_of(rest[k]);
                assert(cells[j].rowid != cells[cells.len() - 1].rowid);
            }
        }
    } else {
        reveal(distinct);
    }
}

proof fn lemma_best_division(scores: Seq<Score>, n: nat)
    ensures
        n == 0 ==> best_division(scores, n) == 0,
        n > 0 ==> best_division(scores, n) < n,
    decreases n,
{
    if n > 1 {
        lemma_best_division(scores, (n - 1) as nat);
    }
}

proof fn lemma_best_axis(ratings: Seq<RatingView>, n: nat)
    ensures
        n > 0 ==> best_axis(ratings, n) < n,
    decreases n,
{
    if n > 1 {
        lemma_best_axis(ratings, (n - 1) as nat);
    }
}

/// The scores of a list are numbers.
pub open spec fn are_numbers(scores: Seq<Score>) -> bool {
    forall|i: int|
        0 <= i < scores.len() ==> (#[trigger] scores[i]).overlap.rank() is Some
            && scores[i].area.rank() is Some
}

/// No other division is better than the one that is picked, where the scores are numbers.
pub proof fn lemma_best_division_is_best(scores: Seq<Score>, n: nat)
    requires
        0 < n <= scores.len(),
        are_numbers(scores),
    ensures
        best_division(scores, n) < n,
        forall|j: int|
            0 <= j < n ==> !better(
                #[trigger] scores[j],
                scores[best_division(scores, n) as int],
            ),
    decreases n,
{
    lemma_best_division(scores, n);
    if n > 1 {
        lemma_best_division_is_best(scores, (n - 1) as nat);
        let before = best_division(scores, (n - 1) as nat) as int;
        let best = best_division(scores, n) as int;
        assert(scores[n - 1].overlap.rank() is Some && scores[before].overlap.rank() is Some);
        assert forall|j: int| 0 <= j < n implies !better(#[trigger] scores[j], scores[best]) by {
            assert(scores[j].overlap.rank() is Some);
            if j < n - 1 {
                assert(!better(scores[j], scores[before]));
            }
        }
    }
}

/// No other axis has a smaller margin than the one that is picked, where the margins are numbers.
pub proof fn lemma_best_axis_is_best(ratings: Seq<RatingView>, n: nat)
    requires
        0 < n <= ratings.len(),
        forall|i: int|
            0 <= i < ratings.len() ==> (#[trigger] ratings[i]).margin.rank() is Some,
    ensures
        best_axis(ratings, n) < n,
        forall|j: int|
            0 <= j < n ==> !(#[trigger] ratings[j]).margin.below(
                ratings[best_axis(ratings, n) as int].margin,
            ),
    decreases n,
{
    lemma_best_axis(ratings, n);
    if n > 1 {
        lemma_best_axis_is_best(ratings, (n - 1) as nat);
        let before = best_axis(ratings, (n - 1) as nat) as int;
        assert(ratings[n - 1].margin.rank() is Some && ratings[before].margin.rank() is Some);
    }
}

/// Both parts of a cut hold cells, and neither more than a page has room for.
proof fn lemma_cut(t: TableView, all: Seq<CellView>, ratings: Seq<RatingView>)
    requires
        t.wf(),
        0 < all.len() <= t.max_cells() + 1,
    ensures
        ({
            let (cells, at) = cut(t, all, ratings);
            &&& cells.len() == all.len()
            &&& 0 < at <= all.len()
            &&& at <= t.max_cells()
            &&& all.len() - at <= t.max_cells()
            &&& all.len() > 1 ==> at < all.len()
            &&& forall|c: CellView| #[trigger] cells.contains(c) == all.contains(c)
            &&& distinct(all) ==> distinct(cells)
        }),
{
    t.lemma_room();
    let least = t.min_cells();
    if !(ratings.len() == 0 || all.len() < 2 * least) {
        let axis = best_axis(ratings, ratings.len());
        let rating = ratings[axis as int];
        lemma_arranged(all, axis as int);
        lemma_best_division(rating.scores, scored(rating, all.len(), least));
    }
}

/// Both halves of a full node hold at least the least number of cells, where the axes are rated.
pub proof fn lemma_split_fills_both_halves(
    t: TableView,
    n: NodeView,
    cell: CellView,
    ratings: Seq<RatingView>,
)
    requires
        t.wf(),
        t.holds(n.data),
        node::page_count(n.data) == t.max_cells(),
        ratings.len() > 0,
    ensures
        ({
            let (left, right) = halves(t, n, cell, t.n_dim2 as nat, ratings);
            &&& t.cells(left.data).len() >= t.min_cells()
            &&& t.cells(right.data).len() >= t.min_cells()
        }),
{
    let n_dim2 = t.n_dim2 as nat;
    let all = all_cells(t, n, cell, n_dim2);
    let (cells, at) = cut(t, all, ratings);
    t.lemma_room();
    lemma_cut(t, all, ratings);
    let rating = ratings[best_axis(ratings, ratings.len()) as int];
    lemma_best_division(rating.scores, scored(rating, all.len(), t.min_cells()));
    lemma_half_holds(t, n.depth, n_dim2, cells.take(at));
    lemma_half_holds(t, n.depth, n_dim2, cells.skip(at));
}

/// Every cell of a list is a box whose coordinates along axis `d` are numbers.
pub open spec fn numbered(cells: Seq<CellView>, d: int) -> bool {
    forall|i: int|
        0 <= i < cells.len() ==> (#[trigger] cells[i]).coords[2 * d].rank() is Some
            && cells[i].coords[2 * d + 1].rank() is Some
}

/// No cell of a list comes before one that stands before it.
pub open spec fn in_order(cells: Seq<CellView>, d: int) -> bool {
    forall|i: int, j: int|
        0 <= i < j < cells.len() ==> !precedes(#[trigger] cells[j], #[trigger] cells[i], d)
}

/// A list of cells with numbers for coordinates is in order along the axis once it is arranged.
pub proof fn lemma_arranged_is_in_order(cells: Seq<CellView>, d: int)
    requires
        numbered(cells, d),
    ensures
        in_order(arranged(cells, d), d),
        numbered(arranged(cells, d), d),
    decreases cells.len(),
{
    if cells.len() > 0 {
        let less = cells.drop_last();
        let last = cells.last();
        let rest = arranged(less, d);
        assert(numbered(less, d)) by {
            assert forall|i: int| 0 <= i < less.len() implies (#[trigger] less[i]).coords[2
                * d].rank() is Some && less[i].coords[2 * d + 1].rank() is Some by {
                assert(less[i] == cells[i]);
            }
        }
        lemma_arranged_is_in_order(less, d);
        lemma_place_for(rest, last, d);
        let at = place_for(rest, last, d);
        lemma_place_is_right(rest, last, d);
        let more = rest.insert(at, last);
        assert(cells[cells.len() - 1] == last);
        assert forall|i: int, j: int| 0 <= i < j < more.len() implies !precedes(
            #[trigger] more[j],
            #[trigger] more[i],
            d,
        ) by {
            let x = if i < at { i } else { i - 1 };
            let y = if j < at { j } else { j - 1 };
            if j == at {
                assert(more[i] == rest[i]);
            } else if i == at {
                assert(more[j] == rest[y]);
            } else {
                assert(more[i] == rest[x] && more[j] == rest[y]);
            }
        }
        assert forall|i: int| 0 <= i < more.len() implies (#[trigger] more[i]).coords[2
            * d].rank() is Some && more[i].coords[2 * d + 1].rank() is Some by {
            if i != at {
                let x = if i < at { i } else { i - 1 };
                assert(more[i] == rest[x]);
            }
        }
    }
}

/// The place for a cell in a list that is in order: it comes before none of the cells in front of
/// it, and none of the cells behind comes before it.
proof fn lemma_place_is_right(cells: Seq<CellView>, cell: CellView, d: int)
    requires
        in_order(cells, d),
        numbered(cells, d),
        cell.coords[2 * d].rank() is Some,
        cell.coords[2 * d + 1].rank() is Some,
    ensures
        forall|i: int|
            0 <= i < place_for(cells, cell, d) ==> !precedes(cell, #[trigger] cells[i], d),
        forall|i: int|
            place_for(cells, cell, d) <= i < cells.len() ==> !precedes(
                #[trigger] cells[i],
                cell,
                d,
            ),
    decreases cells.len(),
{
    if cells.len() > 0 {
        let last = cells.last();
        let end = cells.len() - 1;
        assert(cells[end] == last);
        if precedes(cell, last, d) {
            let less = cells.drop_last();
            assert(in_order(less, d)) by {
                assert forall|i: int, j: int| 0 <= i < j < less.len() implies !precedes(
                    #[trigger] less[j],
                    #[trigger] less[i],
                    d,
                ) by {
                    assert(less[i] == cells[i] && less[j] == cells[j]);
                }
            }
            assert(numbered(less, d)) by {
                assert forall|i: int| 0 <= i < less.len() implies (#[trigger] less[i]).coords[2
                    * d].rank() is Some && less[i].coords[2 * d + 1].rank() is Some by {
                    assert(less[i] == cells[i]);
                }
            }
            lemma_place_is_right(less, cell, d);
            lemma_place_for(less, cell, d);
            assert forall|i: int| 0 <= i < place_for(cells, cell, d) implies !precedes(
                cell,
                #[trigger] cells[i],
                d,
            ) by {
                assert(less[i] == cells[i]);
            }
            assert forall|i: int| place_for(cells, cell, d) <= i < cells.len() implies !precedes(
                #[trigger] cells[i],
                cell,
                d,
            ) by {
                if i < end {
                    assert(less[i] == cells[i]);
                }
            }
        } else {
            assert forall|i: int| 0 <= i < cells.len() implies !precedes(
                cell,
                #[trigger] cells[i],
                d,
            ) by {
                if i < end {
                    assert(!precedes(cells[end], cells[i], d));
                }
            }
        }
    }
}

/// A half is a page of the table, and its cells are the ones it was made from.
pub proof fn lemma_half_holds(t: TableView, depth: usize, n_dim2: nat, cells: Seq<CellView>)
    requires
        t.wf(),
        n_dim2 <= t.n_dim2,
        cells.len() <= t.max_cells(),
    ensures
        t.holds(half_node(t, depth, n_dim2, cells).data),
        node::page_count(half_node(t, depth, n_dim2, cells).data) == cells.len(),
        node::page_cells(
            half_node(t, depth, n_dim2, cells).data,
            n_dim2,
            t.n_bytes_per_cell as nat,
        ) == Seq::new(cells.len(), |i: int| cells[i].kept(n_dim2)),
{
    t.lemma_room();
    if cells.len() > 0 {
        t.lemma_slot_inside(cells.len() - 1);
    } else {
        assert(t.n_bytes_per_cell as nat * 0 == 0) by (nonlinear_arith);
    }
    page_laws::lemma_fill_page(
        node::empty_page(t.node_size as nat),
        n_dim2,
        t.n_bytes_per_cell as nat,
        cells,
    );
}

/// A split loses no cell and brings none in: the cells of the two halves are those of the node and
/// the new one, each once where they are different. Both halves of two or more cells hold some.
pub proof fn lemma_split_keeps_cells(
    t: TableView,
    n: NodeView,
    cell: CellView,
    ratings: Seq<RatingView>,
)
    requires
        t.wf(),
        t.holds(n.data),
    ensures
        ({
            let (left, right) = halves(t, n, cell, t.n_dim2 as nat, ratings);
            let before = t.cells(n.data).push(cell.kept(t.n_dim2 as nat));
            let after = t.cells(left.data) + t.cells(right.data);
            &&& t.holds(left.data)
            &&& t.holds(right.data)
            &&& t.cells(left.data).len() > 0
            &&& t.cells(n.data).len() > 0 ==> t.cells(right.data).len() > 0
            &&& after.len() == before.len()
            &&& forall|c: CellView| #[trigger] after.contains(c) == before.contains(c)
            &&& distinct(before) ==> distinct(after)
        }),
{
    let n_dim2 = t.n_dim2 as nat;
    let all = all_cells(t, n, cell, n_dim2);
    let (cells, at) = cut(t, all, ratings);
    let (left, right) = halves(t, n, cell, n_dim2, ratings);
    let before = t.cells(n.data).push(cell.kept(n_dim2));
    let after = t.cells(left.data) + t.cells(right.data);
    lemma_cut(t, all, ratings);
    lemma_half_holds(t, n.depth, n_dim2, cells.take(at));
    lemma_half_holds(t, n.depth, n_dim2, cells.skip(at));
    assert forall|i: int| 0 <= i < t.cells(n.data).len() implies #[trigger] t.cells(
        n.data,
    )[i].kept(n_dim2) == t.cells(n.data)[i] by {
        assert(t.cells(n.data)[i].kept(n_dim2).coords =~= t.cells(n.data)[i].coords);
    }
    assert(after.len() == cells.len());
    assert forall|i: int| 0 <= i < cells.len() implies #[trigger] after[i] == cells[i].kept(
        n_dim2,
    ) by {
        if i >= at {
            assert(cells.skip(at)[i - at] == cells[i]);
        }
    }
    assert forall|i: int| 0 <= i < all.len() implies #[trigger] before[i] == all[i].kept(
        n_dim2,
    ) by {}
    assert forall|c: CellView| #[trigger] after.contains(c) == before.contains(c) by {
        if after.contains(c) {
            let i = after.index_of(c);
            assert(cells.contains(cells[i]));
            let j = all.index_of(cells[i]);
            assert(before[j] == c);
        }
        if before.contains(c) {
            let j = before.index_of(c);
            assert(all.contains(all[j]));
            assert(cells.contains(all[j]));
            let i = cells.index_of(all[j]);
            assert(after[i] == c);
        }
    }
    if distinct(before) {
        reveal(distinct);
        assert(distinct(all)) by {
            assert forall|a: int, b: int| 0 <= a < b < all.len() implies #[trigger] all[a].rowid
                != #[trigger] all[b].rowid by {
                assert(before[a].rowid != before[b].rowid);
            }
        }
        assert forall|a: int, b: int| 0 <= a < b < after.len() implies #[trigger] after[a].rowid
            != #[trigger] after[b].rowid by {
            assert(cells[a].rowid != cells[b].rowid);
        }
    }
}

/// The cells of `node` and `cell`.
fn collect_cells(table: &RtreeTable, node: &RtreeNode, cell: &RtreeCell, n_dim2: usize) -> (r: Vec<
    RtreeCell,
>)
    requires
        table@.wf(),
        table@.holds(node.data@),
        n_dim2 <= table.n_dim2,
    ensures
        node::cell_views(r@) == all_cells(table@, node@, cell@, n_dim2 as nat),
{
    let ghost t = table@;
    let width: usize = table.n_bytes_per_cell;
    let n_cells: usize = node.cell_count();
    let ghost page = node::page_cells(node.data@, n_dim2 as nat, width as nat);
    let mut cells: Vec<RtreeCell> = Vec::new();
    let mut i: usize = 0;
    while i < n_cells
        invariant
            t == table@,
            t.wf(),
            t.holds(node.data@),
            n_dim2 <= table.n_dim2,
            width == table.n_bytes_per_cell,
            n_cells == page.len(),
            page == node::page_cells(node.data@, n_dim2 as nat, width as nat),
            i <= n_cells,
            cells.len() == i,
            forall|j: int| 0 <= j < i ==> #[trigger] cells@[j]@ == page[j],
        decreases n_cells - i,
    {
        proof {
            t.lemma_cell_inside(node.data@, i as int);
        }
        cells.push(node.get_cell(n_dim2, width, i));
        i = i + 1;
    }
    cells.push(*cell);
    assert(node::cell_views(cells@) =~= all_cells(table@, node@, cell@, n_dim2 as nat));
    cells
}

fn comes_before(a: &RtreeCell, b: &RtreeCell, d: usize) -> (r: bool)
    requires
        d < 5,
    ensures
        r == precedes(a@, b@, d as int),
{
    if a.coords[2 * d].lt(b.coords[2 * d]) {
        return true;
    }
    !b.coords[2 * d].lt(a.coords[2 * d]) && a.coords[2 * d + 1].lt(b.coords[2 * d + 1])
}

/// The cells of a list in order along axis `d`.
fn arrange(cells: &Vec<RtreeCell>, d: usize) -> (r: Vec<RtreeCell>)
    requires
        d < 5,
    ensures
        node::cell_views(r@) == arranged(node::cell_views(cells@), d as int),
{
    let ghost views = node::cell_views(cells@);
    let mut out: Vec<RtreeCell> = Vec::new();
    let mut i: usize = 0;
    assert(node::cell_views(out@) =~= arranged(views.take(0), d as int));
    while i < cells.len()
        invariant
            d < 5,
            views == node::cell_views(cells@),
            i <= cells.len(),
            out.len() == i,
            node::cell_views(out@) == arranged(views.take(i as int), d as int),
        decreases cells.len() - i,
    {
        let cell: RtreeCell = cells[i];
        let ghost rest = node::cell_views(out@);
        let mut at: usize = out.len();
        assert(rest.take(at as int) =~= rest);
        while at > 0 && comes_before(&cell, &out[at - 1], d)
            invariant
                d < 5,
                at <= out.len(),
                rest == node::cell_views(out@),
                place_for(rest.take(at as int), cell@, d as int) == place_for(
                    rest,
                    cell@,
                    d as int,
                ),
            decreases at,
        {
            assert(rest.take(at as int).last() == rest[at - 1]);
            assert(rest.take(at as int).drop_last() =~= rest.take(at - 1));
            at = at - 1;
        }
        proof {
            if at > 0 {
                assert(rest.take(at as int).last() == rest[at - 1]);
            }
            assert(place_for(rest, cell@, d as int) == at);
            assert(views.take(i + 1).drop_last() =~= views.take(i as int));
            assert(views.take(i + 1).last() == cell@);
        }
        out.insert(at, cell);
        assert(node::cell_views(out@) =~= rest.insert(at as int, cell@));
        i = i + 1;
    }
    assert(views.take(views.len() as int) =~= views);
    out
}

/// The box around the cells of a list from one place up to another.
fn box_of(cells: &Vec<RtreeCell>, from: usize, to: usize, n_dim2: usize) -> (r: [Coord; 10])
    requires
        from <= to <= cells.len(),
        n_dim2 <= RTREE_MAX_COORDS,
    ensures
        r@ == geometry::box_around(
            node::cell_views(cells@).subrange(from as int, to as int),
            0,
            n_dim2 as nat,
        ).coords,
{
    let ghost part = node::cell_views(cells@).subrange(from as int, to as int);
    let mut out: [Coord; 10] = RtreeCell::new(0).coords;
    if from == to {
        assert(out@ =~= geometry::box_around(part, 0, n_dim2 as nat).coords);
        return out;
    }
    let n_dim: usize = n_dim2 / 2;
    let mut j: usize = 0;
    while j < n_dim
        invariant
            from < to <= cells.len(),
            n_dim2 <= RTREE_MAX_COORDS,
            n_dim == n_dim2 / 2,
            j <= n_dim,
            part == node::cell_views(cells@).subrange(from as int, to as int),
            part.len() > 0,
            forall|k: int|
                0 <= k < RTREE_MAX_COORDS ==> #[trigger] out@[k] == geometry::box_around(
                    part,
                    0,
                    (2 * j) as nat,
                ).coords[k],
        decreases n_dim - j,
    {
        let mut mn: Coord = Coord { bits: COORD_MAX_BITS };
        let mut mx: Coord = Coord { bits: COORD_MIN_BITS };
        let mut i: usize = from;
        assert(part.take(0) =~= Seq::empty());
        while i < to
            invariant
                from <= i <= to <= cells.len(),
                n_dim2 <= RTREE_MAX_COORDS,
                n_dim == n_dim2 / 2,
                j < n_dim,
                part == node::cell_views(cells@).subrange(from as int, to as int),
                mn == geometry::lowest(part.take(i - from), 2 * j),
                mx == geometry::highest(part.take(i - from), 2 * j + 1),
            decreases to - i,
        {
            let cell: RtreeCell = cells[i];
            assert(cell@ == part[i - from]);
            mn = mn.min(cell.coords[2 * j]);
            mx = mx.max(cell.coords[2 * j + 1]);
            assert(part.take(i - from + 1).drop_last() =~= part.take(i - from));
            assert(part.take(i - from + 1).last() == part[i - from]);
            i = i + 1;
        }
        assert(part.take(part.len() as int) =~= part);
        out[2 * j] = mn;
        out[2 * j + 1] = mx;
        j = j + 1;
    }
    assert(out@ =~= geometry::box_around(part, 0, n_dim2 as nat).coords);
    out
}

/// The divisions of the cells of `node` and `cell` along axis `d`.
pub fn divisions_along(
    table: &RtreeTable,
    node: &RtreeNode,
    cell: &RtreeCell,
    n_dim2: usize,
    d: usize,
) -> (r: Vec<Division>)
    requires
        table@.wf(),
        table@.holds(node.data@),
        n_dim2 <= table.n_dim2,
        d < 5,
    ensures
        store::division_views(r@) == divisions(
            arranged(all_cells(table@, node@, cell@, n_dim2 as nat), d as int),
            table@.min_cells(),
            n_dim2 as nat,
        ),
{
    let cells: Vec<RtreeCell> = arrange(&collect_cells(table, node, cell, n_dim2), d);
    let ghost sorted = arranged(all_cells(table@, node@, cell@, n_dim2 as nat), d as int);
    proof {
        table@.lemma_room();
        lemma_arranged(all_cells(table@, node@, cell@, n_dim2 as nat), d as int);
        assert(cells.len() == sorted.len());
    }
    let least: usize = table.min_cells();
    let total: usize = cells.len();
    let mut out: Vec<Division> = Vec::new();
    if total < 2 * least {
        assert(store::division_views(out@) =~= divisions(
            sorted,
            table@.min_cells(),
            n_dim2 as nat,
        ));
        return out;
    }
    let mut at: usize = least;
    while at <= total - least
        invariant
            sorted == node::cell_views(cells@),
            total == cells.len(),
            total < 0x1_0000,
            2 * least <= total,
            least <= at <= total - least + 1,
            n_dim2 <= RTREE_MAX_COORDS,
            out.len() == at - least,
            forall|j: int|
                0 <= j < out.len() ==> #[trigger] out@[j]@ == division(
                    sorted,
                    least + j,
                    n_dim2 as nat,
                ),
        decreases total - least + 1 - at,
    {
        let left: [Coord; 10] = box_of(&cells, 0, at, n_dim2);
        let right: [Coord; 10] = box_of(&cells, at, total, n_dim2);
        proof {
            assert(sorted.subrange(0, at as int) =~= sorted.take(at as int));
            assert(sorted.subrange(at as int, total as int) =~= sorted.skip(at as int));
        }
        out.push(Division { left, right });
        at = at + 1;
    }
    assert(store::division_views(out@) =~= divisions(sorted, table@.min_cells(), n_dim2 as nat));
    out
}

fn is_better(a: Score, b: Score) -> (r: bool)
    ensures
        r == better(a, b),
{
    a.overlap.lt(b.overlap) || (!b.overlap.lt(a.overlap) && a.area.lt(b.area))
}

/// The best of the first `n` divisions.
pub fn pick_division(scores: &Vec<Score>, n: usize) -> (r: usize)
    requires
        n <= scores.len(),
    ensures
        r == best_division(scores@, n as nat),
        r < n || r == 0,
{
    let mut best: usize = 0;
    let mut i: usize = 1;
    while i < n
        invariant
            1 <= i,
            n <= scores.len(),
            n > 0 ==> i <= n,
            n == 0 ==> i == 1,
            best < i,
            best == best_division(scores@, i as nat),
        decreases n - i,
    {
        if is_better(scores[i], scores[best]) {
            best = i;
        }
        i = i + 1;
    }
    best
}

/// The first of the axes with the smallest margin.
pub fn pick_axis(ratings: &Vec<Rating>) -> (r: usize)
    requires
        ratings.len() > 0,
    ensures
        r == best_axis(store::rating_views(ratings@), ratings.len() as nat),
        r < ratings.len(),
{
    let ghost views = store::rating_views(ratings@);
    let mut best: usize = 0;
    let mut i: usize = 1;
    while i < ratings.len()
        invariant
            1 <= i <= ratings.len(),
            views == store::rating_views(ratings@),
            best < i,
            best == best_axis(views, i as nat),
        decreases ratings.len() - i,
    {
        assert(views[i as int] == ratings@[i as int]@);
        assert(views[best as int] == ratings@[best as int]@);
        if ratings[i].margin.lt(ratings[best].margin) {
            best = i;
        }
        i = i + 1;
    }
    best
}

/// A new node that holds the cells of a list from one place up to another.
fn fill_half(
    table: &RtreeTable,
    depth: usize,
    n_dim2: usize,
    cells: &Vec<RtreeCell>,
    from: usize,
    to: usize,
) -> (r: RtreeNode)
    requires
        table@.wf(),
        n_dim2 <= table.n_dim2,
        from <= to <= cells.len(),
        to - from <= table@.max_cells(),
    ensures
        r@ == half_node(
            table@,
            depth,
            n_dim2 as nat,
            node::cell_views(cells@).subrange(from as int, to as int),
        ),
        table@.holds(r.data@),
{
    let ghost t = table@;
    let ghost part = node::cell_views(cells@).subrange(from as int, to as int);
    let ghost page = node::empty_page(t.node_size as nat);
    let width: usize = table.n_bytes_per_cell;
    let mut half = RtreeNode::new(0, depth, table.node_size);
    let mut i: usize = from;
    proof {
        t.lemma_room();
        assert(part.take(0) =~= Seq::empty());
    }
    while i < to
        invariant
            t == table@,
            t.wf(),
            n_dim2 <= table.n_dim2,
            width == table.n_bytes_per_cell,
            from <= i <= to <= cells.len(),
            to - from <= t.max_cells(),
            part == node::cell_views(cells@).subrange(from as int, to as int),
            page == node::empty_page(t.node_size as nat),
            half.node_no == 0 && half.depth == depth && half.is_dirty,
            half.data.len() == t.node_size,
            half.data@ == node::with_cells(
                page,
                n_dim2 as nat,
                width as nat,
                part.take(i - from),
            ),
        decreases to - i,
    {
        let c: RtreeCell = cells[i];
        assert(c@ == part[i - from]);
        proof {
            t.lemma_slot_inside(i - from);
            assert(part.take(i - from + 1).drop_last() =~= part.take(i - from));
        }
        half.set_cell(n_dim2, width, i - from, &c);
        i = i + 1;
    }
    half.set_cell_count(to - from);
    proof {
        assert(part.take(part.len() as int) =~= part);
        lemma_half_holds(t, depth, n_dim2 as nat, part);
    }
    half
}

/// Splits the cells of `node` and `cell` over two new nodes, by the ratings of the axes.
pub fn split_node(
    table: &RtreeTable,
    node: &RtreeNode,
    cell: &RtreeCell,
    n_dim2: usize,
    ratings: &Vec<Rating>,
) -> (r: (RtreeNode, RtreeNode))
    requires
        table@.wf(),
        table@.holds(node.data@),
        n_dim2 <= table.n_dim2,
        ratings.len() <= 5,
    ensures
        (r.0@, r.1@) == halves(
            table@,
            node@,
            cell@,
            n_dim2 as nat,
            store::rating_views(ratings@),
        ),
        table@.holds(r.0.data@),
        table@.holds(r.1.data@),
{
    let ghost views = store::rating_views(ratings@);
    let ghost all = all_cells(table@, node@, cell@, n_dim2 as nat);
    let mut cells: Vec<RtreeCell> = collect_cells(table, node, cell, n_dim2);
    proof {
        table@.lemma_room();
        assert(cells.len() == all.len());
        lemma_cut(table@, all, views);
    }
    let total: usize = cells.len();
    let least: usize = table.min_cells();
    let mut at: usize = (total + 1) / 2;
    if ratings.len() > 0 && total >= 2 * least {
        let axis: usize = pick_axis(ratings);
        assert(views[axis as int] == ratings@[axis as int]@);
        cells = arrange(&cells, axis);
        let mut n: usize = total - 2 * least + 1;
        if ratings[axis].scores.len() < n {
            n = ratings[axis].scores.len();
        }
        at = least + pick_division(&ratings[axis].scores, n);
    }
    let ghost order = node::cell_views(cells@);
    assert((order, at as int) == cut(table@, all, views));
    assert(cells.len() == order.len());
    let left = fill_half(table, node.depth, n_dim2, &cells, 0, at);
    let right = fill_half(table, node.depth, n_dim2, &cells, at, total);
    proof {
        assert(order.subrange(0, at as int) =~= order.take(at as int));
        assert(order.subrange(at as int, total as int) =~= order.skip(at as int));
    }
    (left, right)
}

} // verus!
