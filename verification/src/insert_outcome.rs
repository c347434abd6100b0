//! An insertion into a tree ends well, or it waits for something that it was not told yet.

use vstd::prelude::*;
use crate::forest;
use crate::forest::{Forest, Open};
use crate::forest_rows;
use crate::geometry;
use crate::insert_laws;
use crate::insert_laws::{counting, row_cell};
use crate::node;
use crate::node::{CellView, NodeView};
use crate::outcome;
use crate::outcome::{fares, is_sound};
use crate::split;
use crate::store::{Stop, StoreView, WriteView};
use crate::table;
use crate::table::TableView;
use crate::tree_insert;
use crate::tree_laws;
use crate::value;
use crate::value::{ArgView, ValueView};

verus! {

/// One step down from an inner node.
proof fn lemma_step_fares(t: TableView, s: StoreView, open: Open, current: NodeView, depth: nat)
    requires
        t.grows(s, open),
        open.adrift =~= Set::empty(),
        tree_laws::is_current(t, s, current),
        t.forest(s).inner(current.node_no),
        is_sound(t, s),
    ensures
        ({
            let (r, s2) = t.descend(s, current, t.n_dim2 as nat, depth, 1);
            fares(t, s, r, s2)
        }),
{
    reveal_with_fuel(TableView::descend, 2);
    let f = t.forest(s);
    let cells = t.cells(current.data);
    f.lemma_node(t.n_dim2 as nat, t.node_count, open, current.node_no);
    outcome::lemma_areas_fare(t, s, cells, 0, Seq::empty());
    tree_laws::lemma_areas_known(s, cells, 0, Seq::empty());
    if let (Ok(areas), s1) = tree_insert::areas_from(s, cells, 0, Seq::empty()) {
        geometry::lemma_best_child_is_smallest(areas, 0);
        let k = geometry::best_child(areas);
        f.lemma_child(t.n_dim2 as nat, t.node_count, open, current.node_no, k);
        t.lemma_read(s, cells[k].rowid);
        outcome::lemma_node_fares(t, s, cells[k].rowid);
    }
}

/// A descent to a leaf. Node numbers go up on the way, so there are fewer levels than nodes.
proof fn lemma_descent_fares(t: TableView, s: StoreView, open: Open, current: NodeView, left: nat)
    requires
        t.grows(s, open),
        open.adrift =~= Set::empty(),
        tree_laws::is_current(t, s, current),
        is_sound(t, s),
        left >= t.node_count - current.node_no,
    ensures
        ({
            let (r, s2) = t.reach_leaf(s, current, t.n_dim2 as nat, left);
            fares(t, s, r, s2)
        }),
    decreases left,
{
    reveal(TableView::reach_leaf);
    let f = t.forest(s);
    t.lemma_told_leaf(s, current);
    outcome::lemma_leaf_check_fares(t, s, current);
    if let (Ok(false), s1) = t.is_leaf(s, current) {
        f.lemma_node(t.n_dim2 as nat, t.node_count, open, current.node_no);
        f.lemma_child(t.n_dim2 as nat, t.node_count, open, current.node_no, 0);
        f.lemma_node(
            t.n_dim2 as nat,
            t.node_count,
            open,
            f.pages[current.node_no][0].rowid,
        );
        assert(left > 0);
        lemma_step_fares(t, s, open, current, current.tree_depth());
        tree_laws::lemma_step_down(t, s, open, current, current.tree_depth());
        if let (Ok(Some(next)), s2) = t.descend(
            s,
            current,
            t.n_dim2 as nat,
            current.tree_depth(),
            1,
        ) {
            lemma_descent_fares(t, s, open, next, (left - 1) as nat);
        }
    }
}

/// Choosing a leaf.
proof fn lemma_choice_fares(t: TableView, s: StoreView, open: Open)
    requires
        t.grows(s, open),
        open.adrift =~= Set::empty(),
        is_sound(t, s),
    ensures
        fares(
            t,
            s,
            t.choose_leaf(s, t.n_dim2 as nat).0,
            t.choose_leaf(s, t.n_dim2 as nat).1,
        ),
{
    reveal(TableView::choose_leaf);
    t.lemma_read(s, 1);
    outcome::lemma_root_fares(t, s);
    if let (Ok(root), s1) = t.load_root_node(s) {
        assert(t.read_node(s, 1).0 == Ok::<Option<NodeView>, Stop>(Some(root)));
        lemma_descent_fares(t, s, open, root, t.max_hops());
    }
}

/// Putting a cell into a leaf.
pub(crate) proof fn lemma_placing_fares(t: TableView, s: StoreView, n: NodeView, cell: CellView)
    requires
        is_sound(t, s),
    ensures
        ({
            let (r, t2, s2) = t.place_in_leaf(s, Some(n), cell);
            fares(t, s, r, s2)
        }),
{
    reveal(TableView::place_in_leaf);
    let count = node::page_count(n.data);
    if count < t.max_cells() {
        let data = n.placed(t.n_dim2 as nat, t.n_bytes_per_cell as nat, count as int, cell).counted(
            count + 1,
        ).data;
        outcome::lemma_change_fares(t, s, WriteView::Node { nodeno: n.node_no, data });
    } else {
        let t1 = TableView { node_count: (t.node_count + 2) as i64, ..t };
        outcome::lemma_sound_by_shape(t, t1, s);
        lemma_split_fares(t1, s, n, cell, (t1.node_count - 1) as i64);
        let s2 = t1.split_leaf(s, n, cell, (t1.node_count - 1) as i64).1;
        outcome::lemma_sound_by_shape(t, t1, s2);
    }
}

proof fn lemma_split_fares(t: TableView, s: StoreView, n: NodeView, cell: CellView, left_no: i64)
    requires
        is_sound(t, s),
    ensures
        fares(
            t,
            s,
            t.split_leaf(s, n, cell, left_no).0,
            t.split_leaf(s, n, cell, left_no).1,
        ),
{
    reveal(TableView::split_leaf);
    reveal(TableView::divide_leaf);
    let right_no = (left_no + 1) as i64;
    outcome::lemma_ratings_fare(t, s, n, cell, 0, Seq::empty());
    if let (Ok(ratings), s1) = t.rate_axes(s, n, cell, 0, Seq::empty()) {
        let (left, right) = split::halves(t, n, cell, t.n_dim2 as nat, ratings);
        let ws = seq![
            WriteView::Node { nodeno: left_no, data: left.data },
            WriteView::Node { nodeno: right_no, data: right.data },
            WriteView::Parent { nodeno: left_no, parentnode: n.node_no },
            WriteView::Parent { nodeno: right_no, parentnode: n.node_no },
        ];
        outcome::lemma_changes_fare(t, s1, ws);
        let (r2, s2) = s1.issue_all(ws);
        outcome::lemma_then(t, s, s1, r2, s2);
        if r2 is Ok {
            let moves = t.moves(t.cells(left.data), left_no) + t.moves(
                t.cells(right.data),
                right_no,
            );
            outcome::lemma_changes_fare(t, s2, moves);
            let (r3, s3) = s2.issue_all(moves);
            outcome::lemma_then(t, s, s2, r3, s3);
            if r3 is Ok {
                let w = WriteView::Node {
                    nodeno: n.node_no,
                    data: t.promoted(n, left, right, left_no).data,
                };
                outcome::lemma_change_fares(t, s3, w);
                outcome::lemma_then(t, s, s3, s3.issue(w).0, s3.issue(w).1);
            }
        }
    }
}

/// Reading a node, its parent, and its place there.
pub(crate) proof fn lemma_hop_fares(t: TableView, s: StoreView, open: Open, n: i64)
    requires
        t.grows(s, open),
        t.forest(s).pages.contains_key(n),
        !open.adrift.contains(n),
        is_sound(t, s),
    ensures
        n >= 1,
        fares(t, s, t.read_node(s, n).0, t.read_node(s, n).1),
        t.read_node(s, n).0 matches Ok(found) ==> t.read_node(s, n).1 == s && found is Some
            && t.cells(found->0.data) == t.forest(s).pages[n],
        fares(t, s, t.get_parent_nodeno(s, n).0, t.get_parent_nodeno(s, n).1),
        t.get_parent_nodeno(s, n).0 is Ok ==> t.get_parent_nodeno(s, n).1 == s,
        t.get_parent_nodeno(s, n).0 matches Ok(Some(p)) ==> {
            let (r, s2) = t.read_node(s, p);
            &&& 1 <= p < n
            &&& t.forest(s).up.contains_key(n)
            &&& t.forest(s).up[n] == p
            &&& t.forest(s).pages.contains_key(p)
            &&& t.forest(s).inner(p)
            &&& fares(t, s, r, s2)
            &&& r matches Ok(found) ==> {
                let parent = found->0;
                let idx = table::index_of_rowid(t.cells(parent.data), n)->0;
                &&& s2 == s
                &&& found is Some
                &&& parent.node_no == p
                &&& tree_laws::is_current(t, s, parent)
                &&& table::index_of_rowid(t.cells(parent.data), n) is Some
                &&& 0 <= idx < t.cells(parent.data).len()
                &&& t.cells(parent.data)[idx].rowid == n
                &&& forall|i: int|
                    0 <= i < t.cells(parent.data).len() && #[trigger] t.cells(
                        parent.data,
                    )[i].rowid == n ==> i == idx
                &&& geometry::is_box(t.cells(parent.data)[idx], t.n_dim2 as nat)
            }
        },
{
    let n_dim2 = t.n_dim2 as nat;
    let f = t.forest(s);
    f.lemma_numbered(n_dim2, t.node_count, open);
    f.lemma_node(n_dim2, t.node_count, open, n);
    t.lemma_read(s, n);
    outcome::lemma_node_fares(t, s, n);
    t.lemma_read_parent(s, n);
    outcome::lemma_parent_fares(t, s, n);
    if let Ok(Some(p)) = t.get_parent_nodeno(s, n).0 {
        tree_laws::lemma_place_in_parent(t, s, open, n, p);
        assert(f.up_ok(open, n));
        forest::lemma_kids_stay(f, n_dim2, t.node_count, open, p);
        f.lemma_node(n_dim2, t.node_count, open, p);
        t.lemma_read(s, p);
        outcome::lemma_node_fares(t, s, p);
        if let Ok(Some(parent)) = t.read_node(s, p).0 {
            let idx = table::index_of_rowid(t.cells(parent.data), n)->0;
            f.lemma_child(n_dim2, t.node_count, open, p, idx);
        }
    }
}

/// The boxes above a node are ready to be widened.
#[verifier::opaque]
pub open spec fn is_ready(t: TableView, s: StoreView, open: Open, n: i64) -> bool {
    &&& t.grows(s, open)
    &&& open.adrift =~= Set::empty()
    &&& t.forest(s).pages.contains_key(n)
    &&& t.forest(s).pages[n].len() > 0
    &&& open.gap.subset_of(tree_laws::near(t.forest(s), n))
    &&& is_sound(t, s)
}

/// The box around the cells of a node.
pub open spec fn around(t: TableView, s: StoreView, n: i64) -> CellView {
    geometry::union_of_all(t.forest(s).pages[n], t.n_dim2 as nat)
}

/// The page of the parent of a node with a wider box for the node.
pub open spec fn widened(t: TableView, s: StoreView, n: i64, parent: NodeView) -> Seq<u8> {
    let idx = table::index_of_rowid(t.cells(parent.data), n)->0;
    node::with_cell(
        parent.data,
        t.n_dim2 as nat,
        t.n_bytes_per_cell as nat,
        idx,
        geometry::union_of(t.cells(parent.data)[idx], around(t, s, n), t.n_dim2 as nat),
    )
}

/// One step of widening: what it reads, and that it leaves the boxes above the parent ready.
pub(crate) proof fn lemma_hop(t: TableView, s: StoreView, open: Open, n: i64)
    requires
        is_ready(t, s, open, n),
    ensures
        n >= 1,
        t.read_node(s, n).0 matches Ok(Some(node)) && t.read_node(s, n).1 == s && t.cells(node.data)
            == t.forest(s).pages[n] && t.cells(node.data).len() > 0,
        t.get_parent_nodeno(s, n).0 is Ok,
        t.get_parent_nodeno(s, n).1 == s,
        t.get_parent_nodeno(s, n).0 matches Ok(Some(p)) ==> 1 <= p < n && (t.read_node(
            s,
            p,
        ).0 matches Ok(Some(parent)) && t.read_node(s, p).1 == s && table::index_of_rowid(
            t.cells(parent.data),
            n,
        ) is Some && ({
            let idx = table::index_of_rowid(t.cells(parent.data), n)->0;
            let (r4, s4) = s.issue(
                WriteView::Node { nodeno: p, data: widened(t, s, n, parent) },
            );
            &&& geometry::covers(t.cells(parent.data)[idx], around(t, s, n), t.n_dim2 as nat)
                ==> is_ready(t, s, (Open { gap: open.gap.remove(n), ..open }), p)
            &&& fares(t, s, r4, s4)
            &&& r4 is Ok ==> is_ready(
                t,
                s4,
                (Open { gap: open.gap.remove(n).insert(p), ..open }),
                p,
            )
        })),
{
    reveal(is_ready);
    let n_dim2 = t.n_dim2 as nat;
    let f = t.forest(s);
    lemma_hop_fares(t, s, open, n);
    f.lemma_node(n_dim2, t.node_count, open, n);
    assert(n == 1 || f.up.contains_key(n));
    assert(s.nodes.contains_key(n));
    if let Ok(Some(p)) = t.get_parent_nodeno(s, n).0 {
        assert(s.nodes.contains_key(p));
        let parent = t.read_node(s, p).0->Ok_0->0;
        let idx = table::index_of_rowid(t.cells(parent.data), n)->0;
        f.lemma_node(n_dim2, t.node_count, open, p);
        tree_laws::lemma_adjust_step(t, s, open, n, parent, idx);
        let w = WriteView::Node { nodeno: p, data: widened(t, s, n, parent) };
        outcome::lemma_change_fares(t, s, w);
        let (r4, s4) = s.issue(w);
        if r4 is Ok {
            assert(t.forest(s4).pages.dom().contains(p));
        }
    }
}

/// Widening the boxes above a node. Node numbers go down on the way, so it has fewer steps than
/// there are nodes.
proof fn lemma_adjusting_fares(t: TableView, s: StoreView, open: Open, n: i64, hops: nat)
    requires
        is_ready(t, s, open, n),
        is_sound(t, s),
        hops <= t.node_count - n,
    ensures
        fares(t, s, t.adjust(s, n, hops).0, t.adjust(s, n, hops).1),
    decreases t.max_hops() + 1 - hops,
{
    reveal(TableView::adjust);
    outcome::lemma_goes_nowhere(s);
    lemma_hop(t, s, open, n);
    assert(hops <= t.max_hops());
    if let Ok(Some(p)) = t.get_parent_nodeno(s, n).0 {
        let parent = t.read_node(s, p).0->Ok_0->0;
        let idx = table::index_of_rowid(t.cells(parent.data), n)->0;
        if geometry::covers(t.cells(parent.data)[idx], around(t, s, n), t.n_dim2 as nat) {
            let kept = Open { gap: open.gap.remove(n), ..open };
            lemma_adjusting_fares(t, s, kept, p, hops + 1);
        } else {
            let (r4, s4) = s.issue(
                WriteView::Node { nodeno: p, data: widened(t, s, n, parent) },
            );
            if r4 is Ok {
                let moved = Open { gap: open.gap.remove(n).insert(p), ..open };
                lemma_adjusting_fares(t, s4, moved, p, hops + 1);
                let (r5, s5) = t.adjust(s4, p, hops + 1);
                outcome::lemma_then(t, s, s4, r5, s5);
            }
        }
    }
}

/// Inserting a row that is in no leaf.
pub proof fn lemma_leaf_row_fares(
    t: TableView,
    s: StoreView,
    open: Open,
    cell: CellView,
    aux: Seq<ValueView>,
)
    requires
        t.grows(s, open),
        0 < t.node_count <= i64::MAX - 2,
        open.adrift =~= Set::empty(),
        open.gap =~= Set::empty(),
        open.loose.contains(cell.rowid),
        t.forest(s).absent(cell.rowid),
        geometry::is_box(cell, t.n_dim2 as nat),
        aux.len() == t.aux_columns.len(),
        is_sound(t, s),
    ensures
        ({
            let (r, t2, s2) = t.insert_leaf_row(s, cell.rowid, cell, aux);
            fares(t, s, r, s2)
        }),
{
    let t1 = counting(t, cell.rowid);
    let n_dim2 = t.n_dim2 as nat;
    t.lemma_forest_by_shape(t1, s);
    t.lemma_wf_by_shape(t1, s);
    outcome::lemma_sound_by_shape(t, t1, s);
    lemma_choice_fares(t1, s, open);
    tree_laws::lemma_chosen_leaf(t1, s, open);
    let (leaf, s3) = t1.choose_leaf(s, n_dim2);
    outcome::lemma_sound_by_shape(t, t1, s3);
    if let Ok(chosen) = leaf {
        let n = chosen->0;
        lemma_placing_fares(t1, s, n, cell);
        let (placed, t4, s4) = t1.place_in_leaf(s, Some(n), cell);
        outcome::lemma_sound_by_shape(t, t1, s4);
        if let Ok(home) = placed {
            let after = Open { gap: open.gap.insert(n.node_no), ..open };
            if node::page_count(n.data) < t.max_cells() {
                insert_laws::lemma_placed_with_room(t1, s, open, n, cell);
            } else {
                insert_laws::lemma_placed_by_split(t1, s, open, n, cell);
            }
            outcome::lemma_sound_by_shape(t, t4, s4);
            let k = forest::lemma_place(t4.forest(s4).pages[home], cell.rowid);
            t4.forest(s4).lemma_node(n_dim2, t4.node_count, after, home);
            assert(is_ready(t4, s4, after, home)) by {
                reveal(is_ready);
            }
            lemma_adjusting_fares(t4, s4, after, home, 0);
            let (r5, s5) = t4.adjust(s4, home, 0);
            outcome::lemma_sound_by_shape(t, t4, s5);
            outcome::lemma_then(t, s, s4, r5, s5);
            if r5 is Ok {
                let w = WriteView::Rowid {
                    rowid: cell.rowid,
                    nodeno: home,
                    aux: value::owned_all(aux),
                };
                outcome::lemma_change_fares(t, s5, w);
                outcome::lemma_then(t, s, s5, s5.issue(w).0, s5.issue(w).1);
            }
        }
    }
}

/// Inserting a new row with a proper box into a tree ends well as soon as it is told all that it
/// asks for, given that no read and no change fails: it gives the row id that the row was inserted
/// under, or it waits for something that it was not told.
pub proof fn lemma_insert_ends_well(t: TableView, s: StoreView, args: Seq<ArgView>)
    requires
        t.is_tree(s),
        t.node_count <= i64::MAX - 2,
        is_sound(t, s),
        args.len() >= t.row_width(),
        t.proper_box(t.row_coords(args)),
        forall|c: CellView| #[trigger] t.rows(s).contains(c) ==> c.rowid != t.assigned_rowid(args),
    ensures
        ({
            let (r, t2, s2) = t.insert(s, args);
            &&& fares(t, s, r, s2)
            &&& r is Ok ==> r == Ok::<i64, Stop>(t.assigned_rowid(args))
        }),
{
    let t1 = t.counted_in(args);
    let cell = row_cell(t, args);
    let n_dim2 = t.n_dim2 as nat;
    let aux = t.row_aux(args);
    let f = t.forest(s);
    t.lemma_forest_by_shape(t1, s);
    t.lemma_wf_by_shape(t1, s);
    outcome::lemma_sound_by_shape(t, t1, s);
    assert(geometry::is_box(cell, n_dim2)) by {
        assert forall|d: int| 0 <= d < n_dim2 / 2 implies (#[trigger] cell.coords[2 * d]).at_most(
            cell.coords[2 * d + 1],
        ) by {
            assert(crate::rows::in_order(cell.coords, d));
        }
    }
    let open = Open { loose: Set::empty().insert(cell.rowid), ..Open::nothing() };
    let (r, t9, s9) = t.insert(s, args);
    if t.node_count == 0 {
        let t0 = counting(t1, cell.rowid);
        t1.lemma_forest_by_shape(t0, s);
        t1.lemma_wf_by_shape(t0, s);
        insert_laws::lemma_planted(t0, s);
        let ws = seq![
            WriteView::CreateNodeTable,
            WriteView::CreateRowidTable,
            WriteView::CreateParentTable,
            WriteView::Node {
                nodeno: 1,
                data: node::with_depth(node::empty_page(t.node_size as nat), 0),
            },
        ];
        outcome::lemma_changes_fare(t, s, ws);
        let (created, t2, s2) = t0.create_shadow_tables(s);
        if created is Ok {
            forest::lemma_sapling(n_dim2);
            forest::lemma_less_asked(
                Forest::sapling(),
                n_dim2,
                1,
                1,
                Open::nothing(),
                open.loose,
            );
            forest::lemma_unnoted_is_absent(
                Forest::sapling(),
                n_dim2,
                1,
                Open::nothing(),
                cell.rowid,
            );
            outcome::lemma_sound_by_shape(t, t2, s2);
            lemma_leaf_row_fares(t2, s2, open, cell, aux);
            assert(t2.row_count == t0.row_count);
            let (r3, t3, s3) = t2.insert_leaf_row(s2, cell.rowid, cell, aux);
            assert(t1.insert_leaf_row(s, cell.rowid, cell, aux) == (r3, t3, s3));
            outcome::lemma_sound_by_shape(t, t2, s3);
            outcome::lemma_then(t, s, s2, r3, s3);
        }
    } else {
        t1.lemma_read_home(s, cell.rowid);
        outcome::lemma_home_fares(t1, s, cell.rowid);
        outcome::lemma_sound_by_shape(t, t1, t1.get_rowid_nodeno(s, cell.rowid).1);
        if f.home.contains_key(cell.rowid) {
            forest_rows::lemma_rows_by_id(f, n_dim2, t.node_count, cell.rowid);
            let cells = f.pages[f.home[cell.rowid]];
            let i = forest::lemma_place(cells, cell.rowid);
            assert(f.holds(cells[i]));
            assert(t.rows(s).contains(cells[i]));
        }
        forest::lemma_unnoted_is_absent(f, n_dim2, t.node_count, Open::nothing(), cell.rowid);
        forest::lemma_less_asked(
            f,
            n_dim2,
            t.node_count,
            t.node_count,
            Open::nothing(),
            open.loose,
        );
        lemma_leaf_row_fares(t1, s, open, cell, aux);
        let (r3, t3, s3) = t1.insert_leaf_row(s, cell.rowid, cell, aux);
        outcome::lemma_sound_by_shape(t, t1, s3);
    }
}

} // verus!
