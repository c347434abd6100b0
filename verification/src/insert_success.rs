//! An insertion into a tree of which enough is known ends well.

use vstd::prelude::*;
use crate::coord::Area;
use crate::forest;
use crate::forest::{Forest, Open};
use crate::geometry;
use crate::insert_laws;
use crate::insert_laws::{counting, row_cell};
use crate::insert_outcome;
use crate::insert_outcome::is_ready;
use crate::node;
use crate::node::{CellView, NodeView};
use crate::outcome;
use crate::outcome::is_sound;
use crate::split;
use crate::store;
use crate::store::{RatingView, Stop, StoreView, WriteView};
use crate::table;
use crate::table::TableView;
use crate::tree_insert;
use crate::tree_laws;
use crate::value::{ArgView, ValueView};

verus! {

/// The result is not that something is waited for.
pub open spec fn does_not_wait<T>(r: Result<T, Stop>) -> bool {
    r != Err::<T, Stop>(Stop::Wait)
}

/// How many more changes are known to have been made.
pub open spec fn changes_left(s: StoreView) -> int {
    s.acks.len() - s.log.len()
}

/// All that a descent reads of the tree is known: of the first cell of every node whether it is a
/// node below, and the area of every box of an inner node.
pub open spec fn is_charted(t: TableView, s: StoreView) -> bool {
    let f = t.forest(s);
    &&& forall|n: i64| #[trigger]
        f.pages.contains_key(n) && f.pages[n].len() > 0 ==> f.pages[n][0].rowid <= 1
            || s.parents.contains_key(f.pages[n][0].rowid)
    &&& forall|n: i64, i: int|
        f.pages.contains_key(n) && f.inner(n) && 0 <= i < f.pages[n].len() ==> store::area_of(
            s.areas,
            (#[trigger] f.pages[n][i]).coords,
        ) is Some
}

proof fn lemma_areas_do_not_wait(
    t: TableView,
    s: StoreView,
    n: i64,
    cells: Seq<CellView>,
    i: int,
    known: Seq<Area>,
)
    requires
        is_charted(t, s),
        t.forest(s).pages.contains_key(n),
        t.forest(s).inner(n),
        t.forest(s).pages[n] == cells,
        0 <= i <= cells.len(),
    ensures
        does_not_wait(tree_insert::areas_from(s, cells, i, known).0),
    decreases cells.len() - i,
{
    if i < cells.len() {
        assert(store::area_of(s.areas, t.forest(s).pages[n][i].coords) is Some);
        let area = s.fetch_area(cells[i].coords).0->Ok_0;
        lemma_areas_do_not_wait(t, s, n, cells, i + 1, known.push(area));
    }
}

proof fn lemma_descent_does_not_wait(
    t: TableView,
    s: StoreView,
    open: Open,
    current: NodeView,
    left: nat,
)
    requires
        t.grows(s, open),
        open.adrift =~= Set::empty(),
        tree_laws::is_current(t, s, current),
        is_charted(t, s),
    ensures
        does_not_wait(t.reach_leaf(s, current, t.n_dim2 as nat, left).0),
    decreases left,
{
    reveal(TableView::reach_leaf);
    reveal_with_fuel(TableView::descend, 2);
    let f = t.forest(s);
    let n_dim2 = t.n_dim2 as nat;
    t.lemma_told_leaf(s, current);
    if let (Ok(false), s1) = t.is_leaf(s, current) {
        if left > 0 {
            let cells = t.cells(current.data);
            lemma_areas_do_not_wait(t, s, current.node_no, cells, 0, Seq::empty());
            tree_laws::lemma_areas_known(s, cells, 0, Seq::empty());
            f.lemma_node(n_dim2, t.node_count, open, current.node_no);
            if let (Ok(areas), s2) = tree_insert::areas_from(s, cells, 0, Seq::empty()) {
                geometry::lemma_best_child_is_smallest(areas, 0);
                let k = geometry::best_child(areas);
                f.lemma_child(n_dim2, t.node_count, open, current.node_no, k);
            }
            tree_laws::lemma_step_down(t, s, open, current, current.tree_depth());
            if let (Ok(Some(next)), s2) = t.descend(s, current, n_dim2, current.tree_depth(), 1) {
                lemma_descent_does_not_wait(t, s, open, next, (left - 1) as nat);
            }
        }
    }
}

proof fn lemma_choice_does_not_wait(t: TableView, s: StoreView, open: Open)
    requires
        t.grows(s, open),
        open.adrift =~= Set::empty(),
        is_charted(t, s),
    ensures
        does_not_wait(t.choose_leaf(s, t.n_dim2 as nat).0),
{
    reveal(TableView::choose_leaf);
    t.lemma_read(s, 1);
    assert(t.forest(s).pages.contains_key(1));
    if let (Ok(root), s1) = t.load_root_node(s) {
        assert(t.read_node(s, 1).0 == Ok::<Option<NodeView>, Stop>(Some(root)));
        lemma_descent_does_not_wait(t, s, open, root, t.max_hops());
    }
}

/// Changes that are known to have been made are not waited for.
proof fn lemma_changes_do_not_wait(s: StoreView, ws: Seq<WriteView>)
    requires
        changes_left(s) >= ws.len(),
    ensures
        does_not_wait(s.issue_all(ws).0),
        s.issue_all(ws).0 is Ok ==> {
            let s2 = s.issue_all(ws).1;
            &&& changes_left(s2) == changes_left(s) - ws.len()
            &&& s2.ratings == s.ratings
            &&& s2.rated == s.rated
        },
    decreases ws.len(),
{
    if ws.len() > 0 {
        if let (Ok(()), s1) = s.issue(ws[0]) {
            lemma_changes_do_not_wait(s1, ws.drop_first());
        }
    }
}

proof fn lemma_ratings_do_not_wait(
    t: TableView,
    s: StoreView,
    n: NodeView,
    cell: CellView,
    d: nat,
    known: Seq<RatingView>,
)
    requires
        d <= t.n_dim2 as nat / 2,
        s.ratings.len() - s.rated >= t.n_dim2 as nat / 2 - d,
        s.ratings.len() <= usize::MAX,
    ensures
        does_not_wait(t.rate_axes(s, n, cell, d, known).0),
    decreases t.n_dim2 - d,
{
    reveal(TableView::rate_axes);
    let n_dim2 = t.n_dim2 as nat;
    if d < n_dim2 / 2 {
        let cells = split::arranged(split::all_cells(t, n, cell, n_dim2), d as int);
        if let (Ok(rating), s1) = s.rate(split::divisions(cells, t.min_cells(), n_dim2)) {
            lemma_ratings_do_not_wait(t, s1, n, cell, d + 1, known.push(rating));
        }
    }
}

/// The most changes that putting a cell into a leaf takes.
pub open spec fn placing_changes(t: TableView) -> nat {
    t.max_cells() + 6
}

proof fn lemma_placing_does_not_wait(t: TableView, s: StoreView, n: NodeView, cell: CellView)
    requires
        t.wf(),
        t.holds(n.data),
        changes_left(s) >= placing_changes(t),
        s.ratings.len() - s.rated >= t.n_dim2 as nat / 2,
        s.ratings.len() <= usize::MAX,
    ensures
        ({
            let (r, t2, s2) = t.place_in_leaf(s, Some(n), cell);
            &&& does_not_wait(r)
            &&& r is Ok ==> changes_left(s2) >= changes_left(s) - placing_changes(t)
        }),
{
    reveal(TableView::place_in_leaf);
    reveal(TableView::split_leaf);
    reveal(TableView::divide_leaf);
    if node::page_count(n.data) >= t.max_cells() {
        let t1 = TableView { node_count: (t.node_count + 2) as i64, ..t };
        let left_no = (t1.node_count - 1) as i64;
        let right_no = (left_no + 1) as i64;
        lemma_ratings_do_not_wait(t1, s, n, cell, 0, Seq::empty());
        tree_laws::lemma_rated(t1, s, n, cell, 0, Seq::empty());
        if let (Ok(ratings), s1) = t1.rate_axes(s, n, cell, 0, Seq::empty()) {
            let (left, right) = split::halves(t1, n, cell, t.n_dim2 as nat, ratings);
            split::lemma_split_keeps_cells(t, n, cell, ratings);
            assert((left, right) == split::halves(t, n, cell, t.n_dim2 as nat, ratings));
            let ws = seq![
                WriteView::Node { nodeno: left_no, data: left.data },
                WriteView::Node { nodeno: right_no, data: right.data },
                WriteView::Parent { nodeno: left_no, parentnode: n.node_no },
                WriteView::Parent { nodeno: right_no, parentnode: n.node_no },
            ];
            lemma_changes_do_not_wait(s1, ws);
            if let (Ok(()), s2) = s1.issue_all(ws) {
                let moves = t1.moves(t1.cells(left.data), left_no) + t1.moves(
                    t1.cells(right.data),
                    right_no,
                );
                assert(moves.len() == node::page_count(n.data) + 1);
                lemma_changes_do_not_wait(s2, moves);
            }
        }
    }
}

/// Widening the boxes above a node: every node on the way and its parent are known.
proof fn lemma_adjusting_does_not_wait(t: TableView, s: StoreView, open: Open, n: i64, hops: nat)
    requires
        is_ready(t, s, open, n),
        changes_left(s) >= n,
    ensures
        does_not_wait(t.adjust(s, n, hops).0),
        t.adjust(s, n, hops).0 is Ok ==> changes_left(t.adjust(s, n, hops).1) >= changes_left(s)
            - n,
    decreases t.max_hops() + 1 - hops,
{
    reveal(TableView::adjust);
    insert_outcome::lemma_hop(t, s, open, n);
    if hops <= t.max_hops() {
        if let Ok(Some(p)) = t.get_parent_nodeno(s, n).0 {
            let parent = t.read_node(s, p).0->Ok_0->0;
            let idx = table::index_of_rowid(t.cells(parent.data), n)->0;
            if geometry::covers(
                t.cells(parent.data)[idx],
                insert_outcome::around(t, s, n),
                t.n_dim2 as nat,
            ) {
                let kept = Open { gap: open.gap.remove(n), ..open };
                lemma_adjusting_does_not_wait(t, s, kept, p, hops + 1);
            } else {
                let data = insert_outcome::widened(t, s, n, parent);
                let (r4, s4) = s.issue(WriteView::Node { nodeno: p, data });
                if r4 is Ok {
                    let moved = Open { gap: open.gap.remove(n).insert(p), ..open };
                    lemma_adjusting_does_not_wait(t, s4, moved, p, hops + 1);
                }
            }
        }
    }
}

/// The most changes that inserting a row takes: four to create the shadow tables, those to put the
/// row into a leaf, one for each node above, and one to note the row.
pub open spec fn insertion_changes(t: TableView) -> nat {
    placing_changes(t) + t.node_count as nat + 8
}

/// Inserting a row that is in no leaf.
#[verifier::rlimit(30)]
proof fn lemma_leaf_row_does_not_wait(
    t: TableView,
    s: StoreView,
    open: Open,
    cell: CellView,
    aux: Seq<ValueView>,
)
    requires
        t.grows(s, open),
        0 < t.node_count <= i64::MAX - 2,
        open.adrift =~= Set::empty(),
        open.gap =~= Set::empty(),
        open.loose.contains(cell.rowid),
        t.forest(s).absent(cell.rowid),
        geometry::is_box(cell, t.n_dim2 as nat),
        aux.len() == t.aux_columns.len(),
        is_sound(t, s),
        is_charted(t, s),
        changes_left(s) >= placing_changes(t) + t.node_count + 3,
        s.ratings.len() - s.rated >= t.n_dim2 as nat / 2,
        s.ratings.len() <= usize::MAX,
    ensures
        ({
            let (r, t2, s2) = t.insert_leaf_row(s, cell.rowid, cell, aux);
            does_not_wait(r)
        }),
{
    let t1 = counting(t, cell.rowid);
    let n_dim2 = t.n_dim2 as nat;
    t.lemma_forest_by_shape(t1, s);
    t.lemma_wf_by_shape(t1, s);
    outcome::lemma_sound_by_shape(t, t1, s);
    lemma_choice_does_not_wait(t1, s, open);
    tree_laws::lemma_chosen_leaf(t1, s, open);
    let (leaf, s3) = t1.choose_leaf(s, n_dim2);
    if let Ok(chosen) = leaf {
        let n = chosen->0;
        lemma_placing_does_not_wait(t1, s, n, cell);
        insert_outcome::lemma_placing_fares(t1, s, n, cell);
        let (placed, t4, s4) = t1.place_in_leaf(s, Some(n), cell);
        if let Ok(home) = placed {
            let after = Open { gap: open.gap.insert(n.node_no), ..open };
            if node::page_count(n.data) < t.max_cells() {
                insert_laws::lemma_placed_with_room(t1, s, open, n, cell);
            } else {
                insert_laws::lemma_placed_by_split(t1, s, open, n, cell);
            }
            outcome::lemma_sound_by_shape(t1, t4, s4);
            let k = forest::lemma_place(t4.forest(s4).pages[home], cell.rowid);
            t4.forest(s4).lemma_node(n_dim2, t4.node_count, after, home);
            assert(is_ready(t4, s4, after, home)) by {
                reveal(is_ready);
            }
            lemma_adjusting_does_not_wait(t4, s4, after, home, 0);
        }
    }
}

/// Inserting a new row with a proper box into a tree ends well, given that no read and no change
/// fails, that it is known whether the row id is taken, that all that a descent reads is known, and
/// that ratings for a split and enough changes are known.
pub proof fn lemma_insert_succeeds(t: TableView, s: StoreView, args: Seq<ArgView>)
    requires
        t.is_tree(s),
        t.node_count <= i64::MAX - 2,
        is_sound(t, s),
        args.len() >= t.row_width(),
        t.proper_box(t.row_coords(args)),
        forall|c: CellView| #[trigger] t.rows(s).contains(c) ==> c.rowid != t.assigned_rowid(args),
        s.rowids.contains_key(t.assigned_rowid(args)),
        is_charted(t, s),
        changes_left(s) >= insertion_changes(t),
        s.ratings.len() - s.rated >= t.n_dim2 as nat / 2,
        s.ratings.len() <= usize::MAX,
    ensures
        t.insert(s, args).0 == Ok::<i64, Stop>(t.assigned_rowid(args)),
{
    insert_outcome::lemma_insert_ends_well(t, s, args);
    let t1 = t.counted_in(args);
    let cell = row_cell(t, args);
    let n_dim2 = t.n_dim2 as nat;
    let aux = t.row_aux(args);
    let f = t.forest(s);
    t.lemma_forest_by_shape(t1, s);
    t.lemma_wf_by_shape(t1, s);
    outcome::lemma_sound_by_shape(t, t1, s);
    assert(geometry::is_box(cell, n_dim2)) by {
        assert forall|d: int| 0 <= d < n_dim2 / 2 implies (#[trigger] cell.coords[2 * d]).at_most(
            cell.coords[2 * d + 1],
        ) by {
            assert(crate::rows::in_order(cell.coords, d));
        }
    }
    let open = Open { loose: Set::empty().insert(cell.rowid), ..Open::nothing() };
    if t.node_count == 0 {
        let t0 = counting(t1, cell.rowid);
        t1.lemma_forest_by_shape(t0, s);
        t1.lemma_wf_by_shape(t0, s);
        insert_laws::lemma_planted(t0, s);
        let ws = seq![
            WriteView::CreateNodeTable,
            WriteView::CreateRowidTable,
            WriteView::CreateParentTable,
            WriteView::Node {
                nodeno: 1,
                data: node::with_depth(node::empty_page(t.node_size as nat), 0),
            },
        ];
        outcome::lemma_changes_fare(t, s, ws);
        lemma_changes_do_not_wait(s, ws);
        let (created, t2, s2) = t0.create_shadow_tables(s);
        if created is Ok {
            forest::lemma_sapling(n_dim2);
            forest::lemma_less_asked(
                Forest::sapling(),
                n_dim2,
                1,
                1,
                Open::nothing(),
                open.loose,
            );
            forest::lemma_unnoted_is_absent(
                Forest::sapling(),
                n_dim2,
                1,
                Open::nothing(),
                cell.rowid,
            );
            outcome::lemma_sound_by_shape(t, t2, s2);
            lemma_leaf_row_does_not_wait(t2, s2, open, cell, aux);
            assert(t2.row_count == t0.row_count);
            assert(t1.insert_leaf_row(s, cell.rowid, cell, aux) == t2.insert_leaf_row(
                s2,
                cell.rowid,
                cell,
                aux,
            ));
        }
    } else {
        t1.lemma_read_home(s, cell.rowid);
        if t1.get_rowid_nodeno(s, cell.rowid).0 == Ok::<Option<i64>, Stop>(None) {
            forest::lemma_unnoted_is_absent(f, n_dim2, t.node_count, Open::nothing(), cell.rowid);
            forest::lemma_less_asked(
                f,
                n_dim2,
                t.node_count,
                t.node_count,
                Open::nothing(),
                open.loose,
            );
            lemma_leaf_row_does_not_wait(t1, s, open, cell, aux);
        }
    }
}

} // verus!
