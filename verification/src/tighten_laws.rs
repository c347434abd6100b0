//! Tightening the boxes above a node keeps the tree a tree.

use vstd::prelude::*;
use crate::forest;
use crate::forest::{boxed, boxes, lists, Forest, Open};
use crate::geometry;
use crate::node;
use crate::node::{CellView, NodeView};
use crate::store::{StoreView, WriteView};
use crate::table;
use crate::table::TableView;
use crate::tree_laws;

verus! {

/// Every node that is adrift is a leaf.
pub open spec fn leaves_adrift(f: Forest, open: Open) -> bool {
    forall|a: i64| #[trigger] open.adrift.contains(a) ==> !f.inner(a)
}

/// Which boxes cover which depends on their coordinates alone.
proof fn lemma_boxed_by_coords(a: CellView, b: CellView, cells: Seq<CellView>, n_dim2: nat)
    requires
        a.coords == b.coords,
        boxed(a, cells, n_dim2),
    ensures
        boxed(b, cells, n_dim2),
{
    reveal(boxed);
    assert forall|i: int| 0 <= i < cells.len() implies geometry::covers(
        b,
        #[trigger] cells[i],
        n_dim2,
    ) by {
        assert(geometry::covers(a, cells[i], n_dim2));
        assert forall|d: int| 0 <= d < n_dim2 / 2 implies !#[trigger] geometry::reaches_out(
            b,
            cells[i],
            d,
        ) by {
            assert(!geometry::reaches_out(a, cells[i], d));
        }
    }
}

/// The union of the cells of a page has no coordinates behind those of the table.
proof fn lemma_union_all_kept(t: TableView, data: Seq<u8>)
    requires
        t.wf(),
        t.cells(data).len() > 0,
    ensures
        geometry::union_of_all(t.cells(data), t.n_dim2 as nat).kept(t.n_dim2 as nat)
            == geometry::union_of_all(t.cells(data), t.n_dim2 as nat),
{
    let u = geometry::union_of_all(t.cells(data), t.n_dim2 as nat);
    assert(u.kept(t.n_dim2 as nat).coords =~= u.coords);
}

/// The tight box of a node: a box, over every cell of the node, and under every box that is.
pub(crate) proof fn lemma_tight_box(t: TableView, data: Seq<u8>, n: i64) -> (tight: CellView)
    requires
        t.wf(),
        t.cells(data).len() > 0,
        boxes(t.cells(data), t.n_dim2 as nat),
    ensures
        tight == (CellView {
            rowid: n,
            coords: geometry::union_of_all(t.cells(data), t.n_dim2 as nat).coords,
        }),
        tight.kept(t.n_dim2 as nat) == tight,
        geometry::is_box(tight, t.n_dim2 as nat),
        boxed(tight, t.cells(data), t.n_dim2 as nat),
        forall|outer: CellView| #[trigger]
            boxed(outer, t.cells(data), t.n_dim2 as nat) ==> geometry::covers(
                outer,
                tight,
                t.n_dim2 as nat,
            ),
{
    let n_dim2 = t.n_dim2 as nat;
    let cells = t.cells(data);
    let u = geometry::union_of_all(cells, n_dim2);
    let tight = CellView { rowid: n, coords: u.coords };
    lemma_union_all_kept(t, data);
    assert(tight.kept(n_dim2).coords =~= u.kept(n_dim2).coords);
    reveal(boxes);
    geometry::lemma_union_all_is_box(cells, n_dim2);
    assert(geometry::is_box(tight, n_dim2)) by {
        assert forall|d: int| 0 <= d < n_dim2 / 2 implies (#[trigger] tight.coords[2
            * d]).at_most(tight.coords[2 * d + 1]) by {
            assert(u.coords[2 * d].at_most(u.coords[2 * d + 1]));
        }
    }
    assert(boxed(u, cells, n_dim2)) by {
        reveal(boxed);
        assert forall|i: int| 0 <= i < cells.len() implies geometry::covers(
            u,
            #[trigger] cells[i],
            n_dim2,
        ) by {
            geometry::lemma_union_all_covers(cells, n_dim2, i);
        }
    }
    lemma_boxed_by_coords(u, tight, cells, n_dim2);
    assert forall|outer: CellView| #[trigger] boxed(outer, cells, n_dim2) implies geometry::covers(
        outer,
        tight,
        n_dim2,
    ) by {
        reveal(boxed);
        assert(forall|i: int|
            0 <= i < cells.len() ==> geometry::covers(outer, #[trigger] cells[i], n_dim2));
        assert(geometry::covers(outer, u, n_dim2));
        assert forall|d: int| 0 <= d < n_dim2 / 2 implies !#[trigger] geometry::reaches_out(
            outer,
            tight,
            d,
        ) by {
            assert(!geometry::reaches_out(outer, u, d));
        }
    }
    tight
}

/// A box that covers a list covers it with one box made smaller.
proof fn lemma_boxed_after_tightening(
    outer: CellView,
    cells: Seq<CellView>,
    i: int,
    tight: CellView,
    n_dim2: nat,
)
    requires
        n_dim2 % 2 == 0,
        0 <= i < cells.len(),
        boxed(outer, cells, n_dim2),
        geometry::is_box(cells[i], n_dim2),
        geometry::covers(cells[i], tight, n_dim2),
    ensures
        boxed(outer, cells.update(i, tight), n_dim2),
{
    reveal(boxed);
    geometry::lemma_box_has_numbers(cells[i], n_dim2);
    assert(geometry::covers(outer, cells[i], n_dim2));
    geometry::lemma_covers_transitive(outer, cells[i], tight, n_dim2);
    let other = cells.update(i, tight);
    assert forall|k: int| 0 <= k < other.len() implies geometry::covers(
        outer,
        #[trigger] other[k],
        n_dim2,
    ) by {
        if k != i {
            assert(geometry::covers(outer, cells[k], n_dim2));
        }
    }
}

/// One hop of tightening keeps the tree a tree.
pub(crate) proof fn lemma_tighten_step(
    t: TableView,
    s: StoreView,
    open: Open,
    n: i64,
    data: Seq<u8>,
    parent: NodeView,
    idx: int,
)
    requires
        t.grows(s, open),
        open.gap =~= Set::empty(),
        leaves_adrift(t.forest(s), open),
        t.forest(s).pages.contains_key(n),
        t.forest(s).pages[n] == t.cells(data),
        t.cells(data).len() > 0,
        tree_laws::is_current(t, s, parent),
        t.forest(s).inner(parent.node_no),
        0 <= idx < t.cells(parent.data).len(),
        t.cells(parent.data)[idx].rowid == n,
    ensures
        ({
            let p = parent.node_no;
            let n_dim2 = t.n_dim2 as nat;
            let tight = CellView {
                rowid: n,
                coords: geometry::union_of_all(t.cells(data), n_dim2).coords,
            };
            let page = node::with_cell(
                parent.data,
                n_dim2,
                t.n_bytes_per_cell as nat,
                idx,
                tight,
            );
            s.issue(WriteView::Node { nodeno: p, data: page }) matches (Ok(()), s4) ==> {
                &&& t.grows(s4, open)
                &&& tree_laws::only_boxes(t, s, s4)
            }
        }),
{
    let n_dim2 = t.n_dim2 as nat;
    let f = t.forest(s);
    let p = parent.node_no;
    f.lemma_node(n_dim2, t.node_count, open, n);
    f.lemma_child(n_dim2, t.node_count, open, p, idx);
    let tight = lemma_tight_box(t, data, n);
    let held = f.pages[p][idx];
    assert(boxed(held, t.cells(data), n_dim2));
    assert(geometry::covers(held, tight, n_dim2));
    tree_laws::lemma_box_written(t, s, open, n, parent, idx, tight);
    let page = node::with_cell(parent.data, n_dim2, t.n_bytes_per_cell as nat, idx, tight);
    if let (Ok(()), s4) = s.issue(WriteView::Node { nodeno: p, data: page }) {
        let moved = Open { gap: open.gap.remove(n).insert(p), ..open };
        let g = t.forest(s4);
        if p != 1 {
            assert(!open.adrift.contains(p));
            assert(f.up.contains_key(p));
            let q = f.up[p];
            assert(f.up_ok(open, p));
            assert forall|i: int| 0 <= i < g.pages[g.up[p]].len() && g.pages[g.up[p]][i].rowid
                == p implies boxed(#[trigger] g.pages[g.up[p]][i], g.pages[p], n_dim2) by {
                f.lemma_node(n_dim2, t.node_count, open, q);
                if q == p {
                    forest::lemma_kids_stay(f, n_dim2, t.node_count, open, p);
                    assert(lists(f.pages[p], p));
                }
                let c = f.pages[q][i];
                f.lemma_child(n_dim2, t.node_count, open, q, i);
                lemma_boxed_after_tightening(c, f.pages[p], idx, tight, n_dim2);
            }
        }
        forest::lemma_gap_closed(g, n_dim2, t.node_count, moved, p);
        assert((Open { gap: moved.gap.remove(p), ..moved }) =~= open);
    }
}

/// Tightening the boxes above a node keeps the tree a tree, and changes nothing but boxes.
pub proof fn lemma_tightened(t: TableView, s: StoreView, open: Open, n: i64, hops: nat)
    requires
        t.grows(s, open),
        open.gap =~= Set::empty(),
        leaves_adrift(t.forest(s), open),
        t.forest(s).pages.contains_key(n),
        !open.adrift.contains(n),
    ensures
        t.tighten(s, n, hops) matches (Ok(()), s2) ==> {
            &&& t.grows(s2, open)
            &&& tree_laws::only_boxes(t, s, s2)
        },
    decreases t.max_hops() + 1 - hops,
{
    reveal(TableView::tighten);
    let n_dim2 = t.n_dim2 as nat;
    let f = t.forest(s);
    if t.tighten(s, n, hops).0 is Ok {
        f.lemma_numbered(n_dim2, t.node_count, open);
        t.lemma_read(s, n);
        let node = t.read_node(s, n).0->Ok_0->0;
        if t.cells(node.data).len() > 0 {
            t.lemma_read_parent(s, n);
            if let Some(p) = t.get_parent_nodeno(s, n).0->Ok_0 {
                tree_laws::lemma_place_in_parent(t, s, open, n, p);
                t.lemma_read(s, p);
                let parent = t.read_node(s, p).0->Ok_0->0;
                let idx = table::index_of_rowid(t.cells(parent.data), n)->0;
                lemma_tighten_step(t, s, open, n, node.data, parent, idx);
                let tight = CellView {
                    rowid: n,
                    coords: geometry::union_of_all(t.cells(node.data), n_dim2).coords,
                };
                let page = node::with_cell(
                    parent.data,
                    n_dim2,
                    t.n_bytes_per_cell as nat,
                    idx,
                    tight,
                );
                let s4 = s.issue(WriteView::Node { nodeno: p, data: page }).1;
                let g = t.forest(s4);
                assert(leaves_adrift(g, open)) by {
                    assert forall|a: i64| #[trigger] open.adrift.contains(a) implies !g.inner(a) by {
                        assert(g.inner(a) == f.inner(a));
                    }
                }
                assert(g.pages.dom().contains(p));
                lemma_tightened(t, s4, open, p, hops + 1);
                tree_laws::lemma_only_boxes_twice(
                    t,
                    s,
                    s4,
                    t.tighten(s4, p, hops + 1).1,
                );
            }
        }
    }
}

} // verus!
