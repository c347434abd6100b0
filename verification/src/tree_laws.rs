//! The steps of an insertion: choosing a leaf, splitting it, and widening the boxes above it.

use vstd::prelude::*;
use crate::coord::Area;
use crate::forest;
use crate::forest::{boxed, boxes, distinct, lists, Forest, Open};
use crate::forest_fill;
use crate::forest_rows;
use crate::forest_split;
use crate::geometry;
use crate::node;
use crate::node::{CellView, NodeView};
use crate::page_laws;
use crate::split;
use crate::store::{RatingView, Stop, StoreView, WriteView};
use crate::table;
use crate::table::TableView;
use crate::tree_insert;

verus! {

/// Asking for areas changes nothing when all of them are known.
pub(crate) proof fn lemma_areas_known(s: StoreView, cells: Seq<CellView>, i: int, known: Seq<Area>)
    requires
        0 <= i <= cells.len(),
    ensures
        tree_insert::areas_from(s, cells, i, known) matches (Ok(areas), s2) ==> s2 == s
            && areas.len() == known.len() + cells.len() - i,
    decreases cells.len() - i,
{
    if i < cells.len() {
        if let (Ok(area), s1) = s.fetch_area(cells[i].coords) {
            lemma_areas_known(s1, cells, i + 1, known.push(area));
        }
    }
}

/// The node is one of the tree in the store.
pub open spec fn is_current(t: TableView, s: StoreView, n: NodeView) -> bool {
    let f = t.forest(s);
    &&& t.holds(n.data)
    &&& f.pages.contains_key(n.node_no)
    &&& f.pages[n.node_no] == t.cells(n.data)
    &&& n.node_no == 1 ==> f.high == (n.tree_depth() > 0)
}

/// One step down from an inner node leads to one of its children.
pub(crate) proof fn lemma_step_down(t: TableView, s: StoreView, open: Open, current: NodeView, depth: nat)
    requires
        t.grows(s, open),
        open.adrift =~= Set::empty(),
        is_current(t, s, current),
        t.forest(s).inner(current.node_no),
    ensures
        t.descend(s, current, t.n_dim2 as nat, depth, 1) matches (Ok(next), s2) ==> s2 == s && (
        next matches Some(n) && is_current(t, s, n) && n.node_no > current.node_no),
{
    reveal_with_fuel(TableView::descend, 2);
    let f = t.forest(s);
    let cells = t.cells(current.data);
    f.lemma_node(t.n_dim2 as nat, t.node_count, open, current.node_no);
    lemma_areas_known(s, cells, 0, Seq::empty());
    if let (Ok(areas), s1) = tree_insert::areas_from(s, cells, 0, Seq::empty()) {
        geometry::lemma_best_child_is_smallest(areas, 0);
        let k = geometry::best_child(areas);
        f.lemma_child(t.n_dim2 as nat, t.node_count, open, current.node_no, k);
        t.lemma_read(s, cells[k].rowid);
    }
}

/// A descent from a node of the tree ends at a leaf.
#[verifier::rlimit(30)]
proof fn lemma_leaf_reached(t: TableView, s: StoreView, open: Open, current: NodeView, left: nat)
    requires
        t.grows(s, open),
        open.adrift =~= Set::empty(),
        is_current(t, s, current),
    ensures
        t.reach_leaf(s, current, t.n_dim2 as nat, left) matches (Ok(leaf), s2) ==> s2 == s && (
        leaf matches Some(n) && is_current(t, s, n) && !t.forest(s).inner(n.node_no)),
    decreases left,
{
    reveal(TableView::reach_leaf);
    t.lemma_told_leaf(s, current);
    if let (Ok(false), s1) = t.is_leaf(s, current) {
        if left > 0 {
            lemma_step_down(t, s, open, current, current.tree_depth());
            if let (Ok(Some(next)), s2) = t.descend(
                s,
                current,
                t.n_dim2 as nat,
                current.tree_depth(),
                1,
            ) {
                lemma_leaf_reached(t, s, open, next, (left - 1) as nat);
            }
        }
    }
}

/// The leaf that is chosen for a row is a leaf of the tree, and choosing it changes nothing.
pub proof fn lemma_chosen_leaf(t: TableView, s: StoreView, open: Open)
    requires
        t.grows(s, open),
        open.adrift =~= Set::empty(),
    ensures
        t.choose_leaf(s, t.n_dim2 as nat) matches (Ok(leaf), s2) ==> s2 == s && (leaf matches Some(
            n,
        ) && is_current(t, s, n) && !t.forest(s).inner(n.node_no)),
{
    reveal(TableView::choose_leaf);
    t.lemma_read(s, 1);
    if let (Ok(root), s1) = t.load_root_node(s) {
        assert(t.read_node(s, 1).0 == Ok::<Option<NodeView>, Stop>(Some(root)));
        lemma_leaf_reached(t, s, open, root, t.max_hops());
    }
}

/// The union of boxes has no coordinates behind those of the table.
proof fn lemma_union_kept(a: CellView, b: CellView, n_dim2: nat)
    requires
        n_dim2 % 2 == 0,
    ensures
        geometry::union_of(a, b, n_dim2).kept(n_dim2) == geometry::union_of(a, b, n_dim2),
{
    assert(geometry::union_of(a, b, n_dim2).kept(n_dim2).coords =~= geometry::union_of(
        a,
        b,
        n_dim2,
    ).coords);
}

/// A box that covers the union of boxes covers each of them.
proof fn lemma_union_boxed(outer: CellView, cells: Seq<CellView>, n_dim2: nat)
    requires
        n_dim2 <= node::RTREE_MAX_COORDS,
        n_dim2 % 2 == 0,
        cells.len() > 0,
        boxes(cells, n_dim2),
        geometry::covers(outer, geometry::union_of_all(cells, n_dim2), n_dim2),
    ensures
        boxed(outer, cells, n_dim2),
{
    reveal(boxes);
    reveal(boxed);
    let u = geometry::union_of_all(cells, n_dim2);
    geometry::lemma_union_all_is_box(cells, n_dim2);
    geometry::lemma_box_has_numbers(u, n_dim2);
    assert forall|i: int| 0 <= i < cells.len() implies geometry::covers(
        outer,
        #[trigger] cells[i],
        n_dim2,
    ) by {
        geometry::lemma_union_all_covers(cells, n_dim2, i);
        geometry::lemma_covers_transitive(outer, u, cells[i], n_dim2);
    }
}

/// The parent of a node of the tree and the place of the node there.
pub(crate) proof fn lemma_place_in_parent(
    t: TableView,
    s: StoreView,
    open: Open,
    n: i64,
    p: i64,
)
    requires
        t.grows(s, open),
        !open.adrift.contains(n),
        t.forest(s).pages.contains_key(n),
        t.forest(s).up.contains_key(n),
        t.forest(s).up[n] == p,
    ensures
        t.forest(s).pages.contains_key(p),
        t.forest(s).inner(p),
        p != 0,
        table::index_of_rowid(t.forest(s).pages[p], n) matches Some(idx) && 0 <= idx < t.forest(
            s,
        ).pages[p].len() && t.forest(s).pages[p][idx].rowid == n && forall|i: int|
            0 <= i < t.forest(s).pages[p].len() && #[trigger] t.forest(s).pages[p][i].rowid == n
                ==> i == idx,
{
    let f = t.forest(s);
    assert(f.up_ok(open, n));
    f.lemma_node(t.n_dim2 as nat, t.node_count, open, p);
    let k = forest::lemma_place(f.pages[p], n);
    table::lemma_found_by_rowid(f.pages[p], n);
    let idx = table::index_of_rowid(f.pages[p], n)->0;
    reveal(distinct);
    assert forall|i: int| 0 <= i < f.pages[p].len() && #[trigger] f.pages[p][i].rowid == n implies i
        == idx by {
        if i < idx {
            assert(f.pages[p][i].rowid != f.pages[p][idx].rowid);
        } else if idx < i {
            assert(f.pages[p][idx].rowid != f.pages[p][i].rowid);
        }
    }
}

/// What widening or tightening boxes leaves alone.
pub open spec fn only_boxes(t: TableView, s: StoreView, s2: StoreView) -> bool {
    let f = t.forest(s);
    let g = t.forest(s2);
    &&& s2.rowids == s.rowids
    &&& s2.aux == s.aux
    &&& s2.parents == s.parents
    &&& g.rows() == f.rows()
    &&& g.pages.dom() == f.pages.dom()
    &&& g.up == f.up
    &&& forall|m: i64|
        f.pages.contains_key(m) ==> (#[trigger] g.pages[m]).len() == f.pages[m].len()
    &&& forall|m: i64| f.pages.contains_key(m) ==> #[trigger] g.inner(m) == f.inner(m)
    &&& forall|m: i64|
        f.pages.contains_key(m) && !f.inner(m) ==> #[trigger] g.pages[m] == f.pages[m]
    &&& forall|r: i64, home: i64| #[trigger] f.only_in(r, home) ==> g.only_in(r, home)
}

pub(crate) proof fn lemma_only_boxes_twice(t: TableView, s: StoreView, s2: StoreView, s3: StoreView)
    requires
        only_boxes(t, s, s2),
        only_boxes(t, s2, s3),
    ensures
        only_boxes(t, s, s3),
{
    let f = t.forest(s);
    let g = t.forest(s2);
    let h = t.forest(s3);
    assert forall|m: i64| f.pages.contains_key(m) implies #[trigger] h.inner(m) == f.inner(m) by {
        assert(g.pages.contains_key(m));
        assert(g.inner(m) == f.inner(m));
    }
    assert forall|m: i64| f.pages.contains_key(m) implies (#[trigger] h.pages[m]).len()
        == f.pages[m].len() by {
        assert(g.pages.contains_key(m));
        assert(g.pages[m].len() == f.pages[m].len());
    }
    assert forall|m: i64| f.pages.contains_key(m) && !f.inner(m) implies #[trigger] h.pages[m]
        == f.pages[m] by {
        assert(g.pages.contains_key(m));
        assert(g.inner(m) == f.inner(m));
        assert(g.pages[m] == f.pages[m]);
    }
}

/// Another box for a child in its parent.
pub(crate) proof fn lemma_box_written(
    t: TableView,
    s: StoreView,
    open: Open,
    n: i64,
    parent: NodeView,
    idx: int,
    cell: CellView,
)
    requires
        t.grows(s, open),
        is_current(t, s, parent),
        t.forest(s).inner(parent.node_no),
        0 <= idx < t.cells(parent.data).len(),
        t.cells(parent.data)[idx].rowid == n,
        cell.rowid == n,
        cell.kept(t.n_dim2 as nat) == cell,
        geometry::is_box(cell, t.n_dim2 as nat),
        boxed(cell, t.forest(s).pages[n], t.n_dim2 as nat),
    ensures
        ({
            let data = node::with_cell(
                parent.data,
                t.n_dim2 as nat,
                t.n_bytes_per_cell as nat,
                idx,
                cell,
            );
            let w = WriteView::Node { nodeno: parent.node_no, data };
            let after = Open { gap: open.gap.remove(n).insert(parent.node_no), ..open };
            s.issue(w) matches (Ok(()), s2) ==> {
                &&& t.grows(s2, after)
                &&& only_boxes(t, s, s2)
                &&& t.forest(s2).pages == t.forest(s).pages.insert(
                    parent.node_no,
                    t.cells(parent.data).update(idx, cell),
                )
                &&& t.forest(s2).up == t.forest(s).up
            }
        }),
{
    let n_dim2 = t.n_dim2 as nat;
    let p = parent.node_no;
    let f = t.forest(s);
    let data = node::with_cell(parent.data, n_dim2, t.n_bytes_per_cell as nat, idx, cell);
    t.lemma_room();
    t.lemma_set_holds(parent.data, idx, cell);
    page_laws::lemma_set_cell_updates(parent.data, n_dim2, t.n_bytes_per_cell as nat, idx, cell);
    t.lemma_page_written(s, p, data);
    let (r, s2) = s.issue(WriteView::Node { nodeno: p, data });
    if r is Ok {
        let g = t.forest(s2);
        assert(g =~= f.with_page(p, f.pages[p].update(idx, cell)));
        forest::lemma_box_set(f, n_dim2, t.node_count, open, p, idx, cell);
        assert(g.pages.dom() =~= f.pages.dom());
        assert forall|m: i64| f.pages.contains_key(m) && !f.inner(m) implies #[trigger] g.pages[m]
            == f.pages[m] by {}
        forest_rows::lemma_same_leaves(f, g);
    }
}

/// Other boxes leave the leaves as well filled as they were.
pub(crate) proof fn lemma_only_boxes_fill(t: TableView, s: StoreView, s2: StoreView)
    requires
        only_boxes(t, s, s2),
        t.is_filled(s),
    ensures
        t.is_filled(s2),
{
    let f = t.forest(s);
    let g = t.forest(s2);
    assert forall|m: i64| #[trigger] g.pages.contains_key(m) && m != 1 && !g.inner(m) implies
        f.pages.contains_key(m) && !f.inner(m) && g.pages[m] == f.pages[m] by {
        assert(f.pages.dom().contains(m));
        assert(g.inner(m) == f.inner(m));
    }
    forest_fill::lemma_fill_kept(f, g, t.min_cells(), Set::empty(), Set::empty());
}

/// The nodes whose boxes an adjustment from `n` on sees to first.
pub open spec fn near(f: Forest, n: i64) -> Set<i64> {
    if f.up.contains_key(n) {
        Set::empty().insert(n).insert(f.up[n])
    } else {
        Set::empty().insert(n)
    }
}

/// Widening the boxes above a node makes all boxes cover what is below them again.
pub proof fn lemma_adjusted(t: TableView, s: StoreView, open: Open, n: i64, hops: nat)
    requires
        t.grows(s, open),
        open.adrift =~= Set::empty(),
        t.forest(s).pages.contains_key(n),
        t.forest(s).pages[n].len() > 0,
        open.gap.subset_of(near(t.forest(s), n)),
    ensures
        t.adjust(s, n, hops) matches (Ok(()), s2) ==> {
            &&& t.grows(s2, (Open { gap: Set::empty(), ..open }))
            &&& only_boxes(t, s, s2)
        },
    decreases t.max_hops() + 1 - hops,
{
    reveal(TableView::adjust);
    let n_dim2 = t.n_dim2 as nat;
    let f = t.forest(s);
    if t.adjust(s, n, hops).0 is Ok {
        f.lemma_node(n_dim2, t.node_count, open, n);
        t.lemma_read(s, n);
        t.lemma_read_parent(s, n);
        let node = t.read_node(s, n).0->Ok_0->0;
        match t.get_parent_nodeno(s, n).0->Ok_0 {
            None => {
                assert(n == 1);
                forest::lemma_gap_closed(f, n_dim2, t.node_count, open, 1);
                assert(open.gap.remove(1) =~= Set::empty());
            },
            Some(p) => {
                lemma_place_in_parent(t, s, open, n, p);
                t.lemma_read(s, p);
                let parent = t.read_node(s, p).0->Ok_0->0;
                let idx = table::index_of_rowid(t.cells(parent.data), n)->0;
                f.lemma_child(n_dim2, t.node_count, open, p, idx);
                lemma_adjust_step(t, s, open, n, parent, idx);
                let held = t.cells(parent.data)[idx];
                let needed = geometry::union_of_all(t.cells(node.data), n_dim2);
                if geometry::covers(held, needed, n_dim2) {
                    let kept = Open { gap: open.gap.remove(n), ..open };
                    lemma_adjusted(t, s, kept, p, hops + 1);
                    assert((Open { gap: Set::empty(), ..kept }) =~= (Open {
                        gap: Set::empty(),
                        ..open
                    }));
                } else {
                    let moved = Open { gap: open.gap.remove(n).insert(p), ..open };
                    let data = node::with_cell(
                        parent.data,
                        n_dim2,
                        t.n_bytes_per_cell as nat,
                        idx,
                        geometry::union_of(held, needed, n_dim2),
                    );
                    let s4 = s.issue(WriteView::Node { nodeno: p, data }).1;
                    lemma_adjusted(t, s4, moved, p, hops + 1);
                    let s2 = t.adjust(s4, p, hops + 1).1;
                    lemma_only_boxes_twice(t, s, s4, s2);
                    assert((Open { gap: Set::empty(), ..moved }) =~= (Open {
                        gap: Set::empty(),
                        ..open
                    }));
                }
            },
        }
    }
}

/// The box of a node that covers the box around its cells closes the gap.
proof fn lemma_wide_enough(f: Forest, n_dim2: nat, count: i64, open: Open, n: i64, idx: int)
    requires
        f.ok(n_dim2, count, open),
        f.pages.contains_key(n),
        f.pages[n].len() > 0,
        boxes(f.pages[n], n_dim2),
        n_dim2 <= node::RTREE_MAX_COORDS,
        n_dim2 % 2 == 0,
        f.up.contains_key(n),
        f.pages.contains_key(f.up[n]),
        0 <= idx < f.pages[f.up[n]].len(),
        forall|i: int|
            0 <= i < f.pages[f.up[n]].len() && #[trigger] f.pages[f.up[n]][i].rowid == n ==> i
                == idx,
        geometry::covers(
            f.pages[f.up[n]][idx],
            geometry::union_of_all(f.pages[n], n_dim2),
            n_dim2,
        ),
    ensures
        f.ok(n_dim2, count, (Open { gap: open.gap.remove(n), ..open })),
{
    let held = f.pages[f.up[n]][idx];
    lemma_union_boxed(held, f.pages[n], n_dim2);
    assert forall|i: int| 0 <= i < f.pages[f.up[n]].len() && f.pages[f.up[n]][i].rowid
        == n implies boxed(#[trigger] f.pages[f.up[n]][i], f.pages[n], n_dim2) by {
        assert(f.pages[f.up[n]][i].rowid == n);
    }
    forest::lemma_gap_closed(f, n_dim2, count, open, n);
}

/// The union of a box and the box around some cells is a box that covers the cells.
pub(crate) proof fn lemma_widened(held: CellView, cells: Seq<CellView>, n_dim2: nat)
    requires
        cells.len() > 0,
        boxes(cells, n_dim2),
        geometry::is_box(held, n_dim2),
        n_dim2 <= node::RTREE_MAX_COORDS,
        n_dim2 % 2 == 0,
    ensures
        ({
            let merged = geometry::union_of(held, geometry::union_of_all(cells, n_dim2), n_dim2);
            &&& merged.rowid == held.rowid
            &&& merged.kept(n_dim2) == merged
            &&& geometry::is_box(merged, n_dim2)
            &&& boxed(merged, cells, n_dim2)
        }),
{
    let needed = geometry::union_of_all(cells, n_dim2);
    assert(geometry::is_box(needed, n_dim2)) by {
        reveal(boxes);
        geometry::lemma_union_all_is_box(cells, n_dim2);
    }
    let merged = geometry::union_of(held, needed, n_dim2);
    geometry::lemma_union_covers(held, needed, n_dim2);
    geometry::lemma_union_is_box(held, needed, n_dim2);
    lemma_union_boxed(merged, cells, n_dim2);
    lemma_union_kept(held, needed, n_dim2);
}

/// One hop of widening: the box of the node covers its cells, and only that of the parent is open.
pub(crate) proof fn lemma_adjust_step(
    t: TableView,
    s: StoreView,
    open: Open,
    n: i64,
    parent: NodeView,
    idx: int,
)
    requires
        t.grows(s, open),
        open.adrift =~= Set::empty(),
        t.forest(s).pages.contains_key(n),
        t.forest(s).pages[n].len() > 0,
        boxes(t.forest(s).pages[n], t.n_dim2 as nat),
        open.gap.subset_of(near(t.forest(s), n)),
        t.forest(s).up.contains_key(n),
        t.forest(s).up[n] == parent.node_no,
        is_current(t, s, parent),
        t.forest(s).inner(parent.node_no),
        0 <= idx < t.cells(parent.data).len(),
        t.cells(parent.data)[idx].rowid == n,
        geometry::is_box(t.cells(parent.data)[idx], t.n_dim2 as nat),
        forall|i: int|
            0 <= i < t.cells(parent.data).len() && #[trigger] t.cells(parent.data)[i].rowid == n
                ==> i == idx,
    ensures
        ({
            let p = parent.node_no;
            let n_dim2 = t.n_dim2 as nat;
            let held = t.cells(parent.data)[idx];
            let needed = geometry::union_of_all(t.forest(s).pages[n], n_dim2);
            let data = node::with_cell(
                parent.data,
                n_dim2,
                t.n_bytes_per_cell as nat,
                idx,
                geometry::union_of(held, needed, n_dim2),
            );
            let kept = Open { gap: open.gap.remove(n), ..open };
            let moved = Open { gap: open.gap.remove(n).insert(p), ..open };
            &&& geometry::covers(held, needed, n_dim2) ==> t.grows(s, kept) && kept.gap.subset_of(
                near(t.forest(s), p),
            )
            &&& s.issue(WriteView::Node { nodeno: p, data }) matches (Ok(()), s4) ==> {
                &&& t.grows(s4, moved)
                &&& moved.gap.subset_of(near(t.forest(s4), p))
                &&& only_boxes(t, s, s4)
                &&& t.forest(s4).pages[p].len() > 0
            }
        }),
{
    let n_dim2 = t.n_dim2 as nat;
    let f = t.forest(s);
    let p = parent.node_no;
    let held = t.cells(parent.data)[idx];
    let needed = geometry::union_of_all(f.pages[n], n_dim2);
    let merged = geometry::union_of(held, needed, n_dim2);
    if geometry::covers(held, needed, n_dim2) {
        lemma_wide_enough(f, n_dim2, t.node_count, open, n, idx);
    }
    lemma_widened(held, f.pages[n], n_dim2);
    lemma_box_written(t, s, open, n, parent, idx, merged);
}

/// Two lists of changes one after the other.
pub(crate) proof fn lemma_issued_in_turn(s: StoreView, a: Seq<WriteView>, b: Seq<WriteView>)
    ensures
        s.issue_all(a + b) == match s.issue_all(a) {
            (Ok(()), s1) => s1.issue_all(b),
            (Err(stop), s1) => (Err(stop), s1),
        },
    decreases a.len(),
{
    if a.len() == 0 {
        assert(a + b =~= b);
    } else {
        assert((a + b).drop_first() =~= a.drop_first() + b);
        assert((a + b)[0] == a[0]);
        if let (Ok(()), s1) = s.issue(a[0]) {
            lemma_issued_in_turn(s1, a.drop_first(), b);
        }
    }
}

/// Noting another node for the rows of a list.
proof fn lemma_rows_moved(t: TableView, s: StoreView, cells: Seq<CellView>, nodeno: i64)
    ensures
        s.wf(t) ==> s.issue_all(t.moves(cells, nodeno)).1.wf(t),
        s.issue_all(t.moves(cells, nodeno)) matches (Ok(()), s2) ==> {
            &&& t.forest(s2) == (Forest {
                home: t.forest(s).home.map_entries(
                    |r: i64, n: i64|
                        if lists(cells, r) {
                            nodeno
                        } else {
                            n
                        },
                ),
                ..t.forest(s)
            })
            &&& s2.connected == s.connected
            &&& s2.aux == s.aux
        },
    decreases cells.len(),
{
    let f = t.forest(s);
    let ws = t.moves(cells, nodeno);
    let noted = |r: i64, n: i64|
        if lists(cells, r) {
            nodeno
        } else {
            n
        };
    if cells.len() == 0 {
        reveal(lists);
        assert(f.home.map_entries(noted) =~= f.home);
    } else {
        let less = cells.drop_first();
        assert(ws.drop_first() =~= t.moves(less, nodeno));
        let w = WriteView::MoveRow { rowid: cells[0].rowid, nodeno };
        assert(ws[0] == w);
        let (r, s1) = s.issue(w);
        lemma_rows_moved(t, s1, less, nodeno);
        if r is Ok && s1.issue_all(t.moves(less, nodeno)).0 is Ok {
            let s2 = s1.issue_all(t.moves(less, nodeno)).1;
            let g = t.forest(s1);
            assert(g.pages =~= f.pages);
            assert(g.up =~= f.up);
            assert forall|id: i64| #[trigger] lists(cells, id) == (lists(less, id) || id
                == cells[0].rowid) by {
                if lists(cells, id) {
                    let i = forest::lemma_place(cells, id);
                    if i > 0 {
                        forest::lemma_lists(less, i - 1);
                    }
                }
                if lists(less, id) {
                    let i = forest::lemma_place(less, id);
                    forest::lemma_lists(cells, i + 1);
                }
                forest::lemma_lists(cells, 0);
            }
            assert(t.forest(s2).home =~= f.home.map_entries(noted));
        }
    }
}

/// The node that a split leaves behind is a page of the table with the two boxes.
#[verifier::rlimit(40)]
pub(crate) proof fn lemma_promoted(
    t: TableView,
    n: NodeView,
    left: NodeView,
    right: NodeView,
    left_no: i64,
)
    requires
        t.wf(),
        t.holds(n.data),
    ensures
        ({
            let data = t.promoted(n, left, right, left_no).data;
            let n_dim2 = t.n_dim2 as nat;
            &&& t.holds(data)
            &&& t.cells(data) == seq![
                geometry::box_around(t.cells(left.data), left_no, n_dim2),
                geometry::box_around(t.cells(right.data), (left_no + 1) as i64, n_dim2),
            ]
            &&& n.node_no == 1 && n.tree_depth() < 0xffff ==> node::page_depth(data)
                == n.tree_depth() + 1
        }),
{
    let n_dim2 = t.n_dim2 as nat;
    let width = t.n_bytes_per_cell as nat;
    let a = geometry::box_around(t.cells(left.data), left_no, n_dim2);
    let b = geometry::box_around(t.cells(right.data), (left_no + 1) as i64, n_dim2);
    t.lemma_room();
    t.lemma_slot_inside(0);
    t.lemma_slot_inside(1);
    let one = node::with_cell(n.data, n_dim2, width, 0, a);
    let two = node::with_cell(one, n_dim2, width, 1, b);
    let counted = node::with_count(two, 2);
    let data = t.promoted(n, left, right, left_no).data;
    node::lemma_count_round_trip(two, 2);
    assert(data[2] == 0 && data[3] == 2);
    assert(data.len() == t.node_size);
    assert(a.kept(n_dim2).coords =~= a.coords);
    assert(b.kept(n_dim2).coords =~= b.coords);
    node::lemma_cell_round_trip(n.data, n_dim2, width, 0, a);
    node::lemma_set_cell_frame(one, n_dim2, width, 1, b, 0);
    node::lemma_cell_round_trip(one, n_dim2, width, 1, b);
    node::lemma_same_bytes_same_cell(data, two, n_dim2, width, 0, 0);
    node::lemma_same_bytes_same_cell(data, two, n_dim2, width, 1, 1);
    assert(t.cells(data) =~= seq![a, b]);
    if n.node_no == 1 && n.tree_depth() < 0xffff {
        assert(node::page_depth(counted) == node::page_depth(n.data));
        node::lemma_depth_round_trip(counted, n.tree_depth() + 1);
    }
}

/// Asking for ratings changes nothing that is known of the tables.
pub(crate) proof fn lemma_rated(
    t: TableView,
    s: StoreView,
    n: NodeView,
    cell: CellView,
    d: nat,
    known: Seq<RatingView>,
)
    ensures
        t.rate_axes(s, n, cell, d, known) matches (Ok(ratings), s2) ==> {
            &&& s2 == (StoreView { rated: s2.rated, ..s })
            &&& d <= t.n_dim2 as nat / 2 ==> ratings.len() == known.len() + t.n_dim2 as nat / 2 - d
        },
    decreases t.n_dim2 - d,
{
    reveal(TableView::rate_axes);
    let n_dim2 = t.n_dim2 as nat;
    if d < n_dim2 / 2 {
        let cells = split::arranged(split::all_cells(t, n, cell, n_dim2), d as int);
        if let (Ok(rating), s1) = s.rate(split::divisions(cells, t.min_cells(), n_dim2)) {
            lemma_rated(t, s1, n, cell, d + 1, known.push(rating));
        }
    }
}

/// The ratings by which a leaf is split.
pub open spec fn ratings_for(t: TableView, s: StoreView, n: NodeView, cell: CellView) -> Seq<
    RatingView,
> {
    t.rate_axes(s, n, cell, 0, Seq::empty()).0->Ok_0
}

/// The tree behind the changes that split a leaf.
pub(crate) proof fn lemma_split_written(
    t: TableView,
    s: StoreView,
    n: NodeView,
    cell: CellView,
    left_no: i64,
)
    requires
        t.wf(),
        s.wf(t),
        is_current(t, s, n),
        !t.forest(s).inner(n.node_no),
        1 < left_no < i64::MAX,
        n.node_no < left_no,
    ensures
        ({
            let n_dim2 = t.n_dim2 as nat;
            let (left, right) = split::halves(t, n, cell, n_dim2, ratings_for(t, s, n, cell));
            let right_no = (left_no + 1) as i64;
            t.split_leaf(s, n, cell, left_no) matches (Ok(home), s2) ==> {
                &&& t.forest(s2) == t.forest(s).leaf_split(
                    n.node_no,
                    t.cells(left.data),
                    left_no,
                    geometry::box_around(t.cells(left.data), left_no, n_dim2),
                    t.cells(right.data),
                    right_no,
                    geometry::box_around(t.cells(right.data), right_no, n_dim2),
                )
                &&& home == t.half_of(left, cell.rowid, left_no)
                &&& s2.wf(t)
                &&& s2.connected == s.connected
                &&& s2.aux == s.aux
                &&& ratings_for(t, s, n, cell).len() > 0
            }
        }),
{
    reveal(TableView::split_leaf);
    lemma_rated(t, s, n, cell, 0, Seq::empty());
    if t.split_leaf(s, n, cell, left_no).0 is Ok {
        let s1 = t.rate_axes(s, n, cell, 0, Seq::empty()).1;
        let f = t.forest(s);
        assert(t.forest(s1) =~= f) by {
            assert(t.forest(s1).pages =~= f.pages);
            assert(t.forest(s1).up =~= f.up);
            assert(t.forest(s1).home =~= f.home);
        }
        lemma_division_written(t, s1, n, cell, left_no, ratings_for(t, s, n, cell));
    }
}

proof fn lemma_division_written(
    t: TableView,
    s: StoreView,
    n: NodeView,
    cell: CellView,
    left_no: i64,
    ratings: Seq<RatingView>,
)
    requires
        t.wf(),
        s.wf(t),
        is_current(t, s, n),
        !t.forest(s).inner(n.node_no),
        1 < left_no < i64::MAX,
        n.node_no < left_no,
    ensures
        ({
            let n_dim2 = t.n_dim2 as nat;
            let (left, right) = split::halves(t, n, cell, n_dim2, ratings);
            let right_no = (left_no + 1) as i64;
            t.divide_leaf(s, n, cell, left_no, ratings) matches (Ok(home), s2) ==> {
                &&& t.forest(s2) == t.forest(s).leaf_split(
                    n.node_no,
                    t.cells(left.data),
                    left_no,
                    geometry::box_around(t.cells(left.data), left_no, n_dim2),
                    t.cells(right.data),
                    right_no,
                    geometry::box_around(t.cells(right.data), right_no, n_dim2),
                )
                &&& home == t.half_of(left, cell.rowid, left_no)
                &&& s2.wf(t)
                &&& s2.connected == s.connected
                &&& s2.aux == s.aux
            }
        }),
{
    reveal(TableView::divide_leaf);
    let n_dim2 = t.n_dim2 as nat;
    let (left, right) = split::halves(t, n, cell, n_dim2, ratings);
    let right_no = (left_no + 1) as i64;
    split::lemma_split_keeps_cells(t, n, cell, ratings);
    lemma_promoted(t, n, left, right, left_no);
    let ws = seq![
        WriteView::Node { nodeno: left_no, data: left.data },
        WriteView::Node { nodeno: right_no, data: right.data },
        WriteView::Parent { nodeno: left_no, parentnode: n.node_no },
        WriteView::Parent { nodeno: right_no, parentnode: n.node_no },
    ];
    let lc = t.cells(left.data);
    let rc = t.cells(right.data);
    let (r, s4) = t.divide_leaf(s, n, cell, left_no, ratings);
    if r is Ok {
        lemma_four_writes(t, s, left_no, right_no, left.data, right.data, n.node_no);
        let s1 = s.issue_all(ws).1;
        lemma_two_moves(t, s1, lc, left_no, rc, right_no);
        let s2 = s1.issue_all(t.moves(lc, left_no) + t.moves(rc, right_no)).1;
        t.lemma_page_written(s2, n.node_no, t.promoted(n, left, right, left_no).data);
    }
}

/// Noting two lists of rows one after the other.
proof fn lemma_two_moves(
    t: TableView,
    s: StoreView,
    left: Seq<CellView>,
    left_no: i64,
    right: Seq<CellView>,
    right_no: i64,
)
    requires
        s.wf(t),
    ensures
        s.issue_all(t.moves(left, left_no) + t.moves(right, right_no)) matches (Ok(()), s2) ==> {
            &&& t.forest(s2) == (Forest {
                home: forest_split::moved(t.forest(s).home, left, left_no, right, right_no),
                ..t.forest(s)
            })
            &&& s2.wf(t)
            &&& s2.connected == s.connected
            &&& s2.aux == s.aux
        },
{
    let a = t.moves(left, left_no);
    let b = t.moves(right, right_no);
    lemma_issued_in_turn(s, a, b);
    if s.issue_all(a + b).0 is Ok {
        lemma_rows_moved(t, s, left, left_no);
        let s1 = s.issue_all(a).1;
        lemma_rows_moved(t, s1, right, right_no);
        let s2 = s1.issue_all(b).1;
        assert(t.forest(s2).home =~= forest_split::moved(
            t.forest(s).home,
            left,
            left_no,
            right,
            right_no,
        ));
    }
}

/// The tree behind the changes that add two nodes below a third.
proof fn lemma_four_writes(
    t: TableView,
    s: StoreView,
    left_no: i64,
    right_no: i64,
    left: Seq<u8>,
    right: Seq<u8>,
    p: i64,
)
    requires
        t.wf(),
        s.wf(t),
        left_no > 1,
        right_no > 1,
        t.holds(left),
        t.holds(right),
    ensures
        ({
            let f = t.forest(s);
            s.issue_all(
                seq![
                    WriteView::Node { nodeno: left_no, data: left },
                    WriteView::Node { nodeno: right_no, data: right },
                    WriteView::Parent { nodeno: left_no, parentnode: p },
                    WriteView::Parent { nodeno: right_no, parentnode: p },
                ],
            ) matches (Ok(()), s2) ==> {
                &&& t.forest(s2) == (Forest {
                    pages: f.pages.insert(left_no, t.cells(left)).insert(
                        right_no,
                        t.cells(right),
                    ),
                    up: f.up.insert(left_no, p).insert(right_no, p),
                    ..f
                })
                &&& s2.wf(t)
                &&& s2.connected == s.connected
                &&& s2.aux == s.aux
            }
        }),
{
    let ws = seq![
        WriteView::Node { nodeno: left_no, data: left },
        WriteView::Node { nodeno: right_no, data: right },
        WriteView::Parent { nodeno: left_no, parentnode: p },
        WriteView::Parent { nodeno: right_no, parentnode: p },
    ];
    let w1 = ws.drop_first();
    let w2 = w1.drop_first();
    let w3 = w2.drop_first();
    let s1 = s.issue(ws[0]).1;
    let s2 = s1.issue(w1[0]).1;
    let s3 = s2.issue(w2[0]).1;
    let s4 = s3.issue(w3[0]).1;
    if s.issue_all(ws).0 is Ok {
        assert(s.issue_all(ws) == s1.issue_all(w1));
        assert(s1.issue_all(w1) == s2.issue_all(w2));
        assert(s2.issue_all(w2) == s3.issue_all(w3));
        assert(w3.drop_first().len() == 0);
        assert(s3.issue_all(w3) == s4.issue_all(w3.drop_first()));
        assert(s4.issue_all(w3.drop_first()) == (Ok::<(), Stop>(()), s4));
        t.lemma_page_written(s, left_no, left);
        t.lemma_page_written(s1, right_no, right);
        t.lemma_parent_written(s2, left_no, p);
        t.lemma_parent_written(s3, right_no, p);
    }
}

} // verus!
