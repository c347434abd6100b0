//! What seeing to the boxes above a node leaves in the nodes above it.

use vstd::prelude::*;
use crate::box_laws;
use crate::box_laws::has_numbers;
use crate::coord_laws;
use crate::forest::{boxes, Forest, Open};
use crate::geometry;
use crate::node;
use crate::node::CellView;
use crate::store::{StoreView, WriteView};
use crate::table;
use crate::table::TableView;
use crate::tighten_laws;
use crate::tighten_laws::leaves_adrift;
use crate::tree_laws;

verus! {

/// A coordinate of a box is that of one of the cells of a list and does not stand inside any other: a
/// lower bound is the lowest, an upper bound the highest.
pub open spec fn is_outermost(c: CellView, cells: Seq<CellView>, k: int) -> bool {
    &&& exists|j: int| 0 <= j < cells.len() && (#[trigger] cells[j]).coords[k] == c.coords[k]
    &&& forall|j: int|
        0 <= j < cells.len() ==> if k % 2 == 0 {
            c.coords[k].number() <= (#[trigger] cells[j]).coords[k].number()
        } else {
            c.coords[k].number() >= cells[j].coords[k].number()
        }
}

/// The box of a node in its parent is the smallest one around the cells of the node.
pub open spec fn is_tight(f: Forest, n_dim2: int, n: i64) -> bool {
    forall|i: int, k: int|
        0 <= i < f.pages[f.up[n]].len() && f.pages[f.up[n]][i].rowid == n && 0 <= k < n_dim2
            ==> #[trigger] is_outermost(f.pages[f.up[n]][i], f.pages[n], k)
}

/// Boxes have numbers as coordinates.
proof fn lemma_numbers_of_box(c: CellView, n_dim2: nat)
    requires
        geometry::is_box(c, n_dim2),
        n_dim2 % 2 == 0,
    ensures
        has_numbers(c, n_dim2 as int),
{
    assert forall|k: int| 0 <= k < n_dim2 implies !(#[trigger] c.coords[k]).is_no_number() by {
        let d = k / 2;
        assert(c.coords[2 * d].at_most(c.coords[2 * d + 1]));
        assert(k == 2 * d || k == 2 * d + 1);
        coord_laws::lemma_coords_compare_as_numbers(c.coords[2 * d], c.coords[2 * d + 1]);
    }
}

/// The union of all cells of a list has outermost coordinates.
proof fn lemma_union_is_outermost(c: CellView, cells: Seq<CellView>, n_dim2: nat)
    requires
        n_dim2 <= 10,
        n_dim2 % 2 == 0,
        cells.len() > 0,
        boxes(cells, n_dim2),
        c.coords == geometry::union_of_all(cells, n_dim2).coords,
    ensures
        forall|k: int| 0 <= k < n_dim2 ==> #[trigger] is_outermost(c, cells, k),
{
    reveal(boxes);
    assert forall|j: int| 0 <= j < cells.len() implies has_numbers(
        #[trigger] cells[j],
        n_dim2 as int,
    ) by {
        lemma_numbers_of_box(cells[j], n_dim2);
    }
    assert forall|k: int| 0 <= k < n_dim2 implies #[trigger] is_outermost(c, cells, k) by {
        let j = box_laws::lemma_union_of_all_by_numbers(cells, n_dim2, k);
        assert(cells[j].coords[k] == c.coords[k]);
    }
}

/// Which nodes are above another depends on the noted parents alone.
proof fn lemma_above_by_parents(f: Forest, g: Forest, m: i64, n: i64)
    requires
        f.up == g.up,
    ensures
        f.below(m, n) == g.below(m, n),
    decreases m - n,
{
    if m > n && f.up.contains_key(m) && n <= f.up[m] < m {
        lemma_above_by_parents(f, g, f.up[m], n);
    }
}

/// Tightening the boxes above a node that is not empty leaves the smallest box around its cells in
/// its parent, the smallest box around the cells of the parent in the parent's parent, and so on up
/// to the root. The node itself and what is below it stay as they are, and so do all rows.
pub proof fn lemma_boxes_above_are_tight(t: TableView, s: StoreView, open: Open, n: i64, hops: nat)
    requires
        t.grows(s, open),
        open.gap =~= Set::empty(),
        leaves_adrift(t.forest(s), open),
        t.forest(s).pages.contains_key(n),
        t.forest(s).pages[n].len() > 0,
        !open.adrift.contains(n),
    ensures
        t.tighten(s, n, hops) matches (Ok(()), s2) ==> {
            let f = t.forest(s);
            let g = t.forest(s2);
            &&& g.rows() == f.rows()
            &&& g.up == f.up
            &&& forall|m: i64| m >= n && f.pages.contains_key(m) ==> #[trigger] g.pages[m]
                == f.pages[m]
            &&& forall|m: i64| #[trigger]
                f.below(n, m) && f.up.contains_key(m) ==> is_tight(g, t.n_dim2 as int, m)
        },
    decreases t.max_hops() + 1 - hops,
{
    reveal(TableView::tighten);
    let n_dim2 = t.n_dim2 as nat;
    let f = t.forest(s);
    if t.tighten(s, n, hops).0 is Ok {
        f.lemma_numbered(n_dim2, t.node_count, open);
        f.lemma_node(n_dim2, t.node_count, open, n);
        t.lemma_read(s, n);
        t.lemma_read_parent(s, n);
        let node = t.read_node(s, n).0->Ok_0->0;
        if let Some(p) = t.get_parent_nodeno(s, n).0->Ok_0 {
            tree_laws::lemma_place_in_parent(t, s, open, n, p);
            t.lemma_read(s, p);
            let parent = t.read_node(s, p).0->Ok_0->0;
            let idx = table::index_of_rowid(t.cells(parent.data), n)->0;
            f.lemma_child(n_dim2, t.node_count, open, p, idx);
            tighten_laws::lemma_tighten_step(t, s, open, n, node.data, parent, idx);
            let tight = tighten_laws::lemma_tight_box(t, node.data, n);
            tree_laws::lemma_box_written(t, s, open, n, parent, idx, tight);
            let page = node::with_cell(parent.data, n_dim2, t.n_bytes_per_cell as nat, idx, tight);
            let s4 = s.issue(WriteView::Node { nodeno: p, data: page }).1;
            let g = t.forest(s4);
            assert(leaves_adrift(g, open)) by {
                assert forall|a: i64| #[trigger] open.adrift.contains(a) implies !g.inner(a) by {
                    assert(g.inner(a) == f.inner(a));
                }
            }
            assert(!open.adrift.contains(p));
            lemma_boxes_above_are_tight(t, s4, open, p, hops + 1);
            let h = t.forest(t.tighten(s4, p, hops + 1).1);
            assert(h.pages[p] == g.pages[p]);
            assert(h.pages[n] == f.pages[n]) by {
                assert(g.pages[n] == f.pages[n]);
            }
            assert forall|m: i64| m >= n && f.pages.contains_key(m) implies #[trigger] h.pages[m]
                == f.pages[m] by {
                assert(g.pages[m] == f.pages[m]);
            }
            lemma_union_is_outermost(tight, f.pages[n], n_dim2);
            assert(is_tight(h, n_dim2 as int, n));
            assert forall|m: i64| #[trigger] f.below(n, m) && f.up.contains_key(m) implies is_tight(
                h,
                n_dim2 as int,
                m,
            ) by {
                if m != n {
                    assert(f.below(p, m));
                    lemma_above_by_parents(f, g, p, m);
                    assert(g.below(p, m));
                }
            }
        } else {
            assert forall|m: i64| #[trigger] f.below(n, m) && f.up.contains_key(m) implies false by {
            }
        }
    }
}

/// Widening the boxes above a node changes the box of the node in its parent only as far as it has
/// to: it stays as it was where it covers the cells of the node, and else each of its bounds is the
/// old one or the outermost of the cells, whichever stands further out. The node itself and what is
/// below it stay as they are, and so do all rows and the other boxes of the parent.
pub proof fn lemma_boxes_above_are_widened(t: TableView, s: StoreView, open: Open, n: i64, hops: nat)
    requires
        t.grows(s, open),
        open.adrift =~= Set::empty(),
        t.forest(s).pages.contains_key(n),
        t.forest(s).pages[n].len() > 0,
        open.gap.subset_of(tree_laws::near(t.forest(s), n)),
    ensures
        t.adjust(s, n, hops) matches (Ok(()), s2) ==> {
            let f = t.forest(s);
            let g = t.forest(s2);
            let p = f.up[n];
            &&& g.rows() == f.rows()
            &&& g.up == f.up
            &&& forall|m: i64| m >= n && f.pages.contains_key(m) ==> #[trigger] g.pages[m]
                == f.pages[m]
            &&& f.up.contains_key(n) ==> {
                &&& g.pages[p].len() == f.pages[p].len()
                &&& forall|i: int|
                    0 <= i < f.pages[p].len() ==> {
                        let held = f.pages[p][i];
                        let kept = #[trigger] g.pages[p][i];
                        let needed = geometry::union_of_all(f.pages[n], t.n_dim2 as nat);
                        if held.rowid != n || geometry::covers(held, needed, t.n_dim2 as nat) {
                            kept == held
                        } else {
                            kept == geometry::union_of(held, needed, t.n_dim2 as nat)
                        }
                    }
            }
        },
    decreases t.max_hops() + 1 - hops,
{
    reveal(TableView::adjust);
    let n_dim2 = t.n_dim2 as nat;
    let f = t.forest(s);
    if t.adjust(s, n, hops).0 is Ok {
        f.lemma_node(n_dim2, t.node_count, open, n);
        t.lemma_read(s, n);
        t.lemma_read_parent(s, n);
        let node = t.read_node(s, n).0->Ok_0->0;
        if let Some(p) = t.get_parent_nodeno(s, n).0->Ok_0 {
            tree_laws::lemma_place_in_parent(t, s, open, n, p);
            t.lemma_read(s, p);
            let parent = t.read_node(s, p).0->Ok_0->0;
            let idx = table::index_of_rowid(t.cells(parent.data), n)->0;
            f.lemma_child(n_dim2, t.node_count, open, p, idx);
            tree_laws::lemma_adjust_step(t, s, open, n, parent, idx);
            let held = t.cells(parent.data)[idx];
            let needed = geometry::union_of_all(t.cells(node.data), n_dim2);
            if geometry::covers(held, needed, n_dim2) {
                let kept = Open { gap: open.gap.remove(n), ..open };
                lemma_boxes_above_are_widened(t, s, kept, p, hops + 1);
                let h = t.forest(t.adjust(s, p, hops + 1).1);
                assert(h.pages[p] == f.pages[p]);
            } else {
                let moved = Open { gap: open.gap.remove(n).insert(p), ..open };
                let wide = geometry::union_of(held, needed, n_dim2);
                tree_laws::lemma_widened(held, f.pages[n], n_dim2);
                tree_laws::lemma_box_written(t, s, open, n, parent, idx, wide);
                let data = node::with_cell(parent.data, n_dim2, t.n_bytes_per_cell as nat, idx, wide);
                let s4 = s.issue(WriteView::Node { nodeno: p, data }).1;
                let g = t.forest(s4);
                lemma_boxes_above_are_widened(t, s4, moved, p, hops + 1);
                let h = t.forest(t.adjust(s4, p, hops + 1).1);
                assert(h.pages[p] == g.pages[p]);
                assert forall|m: i64| m >= n && f.pages.contains_key(m) implies #[trigger] h.pages[m]
                    == f.pages[m] by {
                    assert(g.pages[m] == f.pages[m]);
                }
            }
        }
    }
}

} // verus!
