//! A tree in the middle of a deletion.

use vstd::prelude::*;
use crate::tighten_laws;
use crate::tighten_laws::leaves_adrift;
use crate::forest;
use crate::forest::{boxes, ids, lists, Forest, Open};
use crate::forest_cut;
use crate::forest_rows;
use crate::geometry;
use crate::node;
use crate::node::{CellView, NodeView};
use crate::store::StoreView;
use crate::table::TableView;
use crate::tree_laws;

verus! {

/// What restoring the tree above a node leaves alone.
pub open spec fn is_trimmed(t: TableView, s: StoreView, t2: TableView, s2: StoreView) -> bool {
    let f = t.forest(s);
    let g = t2.forest(s2);
    &&& t2.same_shape(t)
    &&& t2.node_count == t.node_count
    &&& t2.row_count == t.row_count
    &&& s2.rowids == s.rowids
    &&& s2.aux == s.aux
    &&& g.rows() == f.rows()
    &&& g.pages.dom() == f.pages.dom()
    &&& g.up == f.up
    &&& g.inner(1) ==> f.inner(1) && g.pages[1].len() == f.pages[1].len()
    &&& forall|m: i64|
        f.pages.contains_key(m) && m != 1 ==> #[trigger] g.inner(m) == f.inner(m)
    &&& forall|m: i64|
        f.pages.contains_key(m) && !f.inner(m) ==> #[trigger] g.pages[m] == f.pages[m]
    &&& forall|r: i64, home: i64| #[trigger] f.only_in(r, home) ==> g.only_in(r, home)
}

/// Making an empty root a leaf.
pub proof fn lemma_reset(t: TableView, s: StoreView, open: Open, root: NodeView)
    requires
        t.grows(s, open),
        tree_laws::is_current(t, s, root),
        root.node_no == 1,
        t.cells(root.data).len() == 0,
    ensures
        t.reset_root(s, root) matches (Ok(()), t2, s2) ==> {
            &&& t2.grows(s2, open)
            &&& is_trimmed(t, s, t2, s2)
            &&& !t2.forest(s2).inner(1)
        },
{
    let data = root.counted(0).deepened(0).data;
    let f = t.forest(s);
    t.lemma_room();
    node::lemma_count_round_trip(root.data, 0);
    node::lemma_depth_round_trip(node::with_count(root.data, 0), 0);
    t.lemma_page_written(s, 1, data);
    if let (Ok(()), t2, s2) = t.reset_root(s, root) {
        t.lemma_forest_by_shape(t2, s2);
        t.lemma_wf_by_shape(t2, s2);
        let g = t2.forest(s2);
        assert(t.cells(data) =~= Seq::empty());
        assert(f.pages[1] =~= Seq::empty());
        assert(g =~= (Forest { high: false, ..f })) by {
            assert(g.pages =~= f.pages);
        }
        forest_cut::lemma_root_reset(f, t.n_dim2 as nat, t.node_count, open);
        assert forall|m: i64| f.pages.contains_key(m) && m != 1 implies #[trigger] g.inner(m)
            == f.inner(m) by {}
        forest_rows::lemma_same_leaves(f, g);
    }
}

/// Restoring the tree above an inner node, or above a leaf that is large enough.
pub proof fn lemma_fixed_inner(t: TableView, s: StoreView, open: Open, n: i64, guard: nat)
    requires
        t.grows(s, open),
        open.gap =~= Set::empty(),
        leaves_adrift(t.forest(s), open),
        t.forest(s).pages.contains_key(n),
        !open.adrift.contains(n),
    ensures
        t.fix_inner(s, n, guard) matches (Ok(()), t2, s2) ==> {
            &&& t2.grows(s2, open)
            &&& is_trimmed(t, s, t2, s2)
            &&& n == 1 && t.forest(s).pages[1].len() == 0 ==> !t2.forest(s2).inner(1)
        },
{
    reveal(TableView::fix_inner);
    let f = t.forest(s);
    f.lemma_numbered(t.n_dim2 as nat, t.node_count, open);
    t.lemma_read(s, n);
    if t.fix_inner(s, n, guard).0 is Ok {
        let node = t.read_node(s, n).0->Ok_0->0;
        if n == 1 && node::page_count(node.data) == 0 {
            lemma_reset(t, s, open, node);
        } else if !(node::page_count(node.data) == 0 || (n == 1 && node::page_count(node.data)
            < t.min_cells())) {
            tighten_laws::lemma_tightened(t, s, open, n, 0);
            let s2 = t.tighten(s, n, 0).1;
            assert(f.pages.contains_key(1));
            assert(t.forest(s2).inner(1) == f.inner(1));
            assert(t.forest(s2).pages[1].len() == f.pages[1].len());
        }
    }
}

/// The row ids of a set of rows.
pub open spec fn numbers(rows: Set<CellView>) -> Set<i64> {
    Set::new(|id: i64| exists|c: CellView| #[trigger] rows.contains(c) && c.rowid == id)
}

/// No two rows have the same row id.
pub open spec fn unique(rows: Set<CellView>) -> bool {
    forall|c: CellView, d: CellView|
        #[trigger] rows.contains(c) && #[trigger] rows.contains(d) && c.rowid == d.rowid ==> c == d
}

/// In the middle of a deletion: of the rows `all`, those in `out` are off the tree, and those with a
/// row id in `extra` are neither in the tree nor to come back.
pub open spec fn is_torn(
    t: TableView,
    s: StoreView,
    all: Set<CellView>,
    out: Set<CellView>,
    extra: Set<i64>,
    adrift: Set<i64>,
) -> bool {
    let f = t.forest(s);
    &&& t.grows(s, (Open { loose: numbers(out).union(extra), adrift, gap: Set::empty() }))
    &&& f.rows() == all.difference(out)
    &&& unique(all)
    &&& forall|c: CellView| #[trigger] out.contains(c) ==> {
        &&& all.contains(c)
        &&& geometry::is_box(c, t.n_dim2 as nat)
        &&& c.kept(t.n_dim2 as nat) == c
        &&& f.absent(c.rowid)
    }
    &&& forall|r: i64| #[trigger] extra.contains(r) ==> f.absent(r)
}

/// Restoring the tree leaves a deletion where it was.
pub proof fn lemma_trimmed_is_torn(
    t: TableView,
    s: StoreView,
    t2: TableView,
    s2: StoreView,
    all: Set<CellView>,
    out: Set<CellView>,
    extra: Set<i64>,
    adrift: Set<i64>,
)
    requires
        is_torn(t, s, all, out, extra, adrift),
        is_trimmed(t, s, t2, s2),
        t2.grows(s2, (Open { loose: numbers(out).union(extra), adrift, gap: Set::empty() })),
    ensures
        is_torn(t2, s2, all, out, extra, adrift),
{
    let f = t.forest(s);
    let g = t2.forest(s2);
    assert forall|r: i64| #[trigger] f.absent(r) implies g.absent(r) by {
        assert(f.only_in(r, 0));
    }
    assert forall|c: CellView| #[trigger] out.contains(c) implies {
        &&& all.contains(c)
        &&& geometry::is_box(c, t2.n_dim2 as nat)
        &&& c.kept(t2.n_dim2 as nat) == c
        &&& g.absent(c.rowid)
    } by {
        assert(f.absent(c.rowid));
    }
    assert forall|r: i64| #[trigger] extra.contains(r) implies g.absent(r) by {
        assert(f.absent(r));
    }
}

/// Cells of a page have no coordinates behind those of the table.
pub proof fn lemma_page_cells_kept(t: TableView, data: Seq<u8>, i: int)
    requires
        0 <= i < t.cells(data).len(),
    ensures
        t.cells(data)[i].kept(t.n_dim2 as nat) == t.cells(data)[i],
{
    assert(t.cells(data)[i].kept(t.n_dim2 as nat).coords =~= t.cells(data)[i].coords);
}

/// A leaf is dropped: its rows are off the tree.
pub proof fn lemma_leaf_off(
    t: TableView,
    s: StoreView,
    g: Forest,
    t2: TableView,
    s2: StoreView,
    all: Set<CellView>,
    out: Set<CellView>,
    extra: Set<i64>,
    adrift: Set<i64>,
    x: i64,
    data: Seq<u8>,
)
    requires
        is_torn(t, s, all, out, extra, adrift),
        t.forest(s).pages.contains_key(x),
        !t.forest(s).inner(x),
        t.forest(s).pages[x] == t.cells(data),
        t2.same_shape(t),
        t2.node_count == t.node_count,
        t2.wf(),
        s2.wf(t2),
        s2.connected,
        t2.forest(s2) == g,
        g.ok(
            t.n_dim2 as nat,
            t.node_count,
            (Open {
                loose: numbers(out).union(extra).union(ids(t.cells(data))),
                adrift: Set::empty(),
                gap: Set::empty(),
            }),
        ),
        forall|r: i64| #[trigger]
            lists(t.cells(data), r) && t.forest(s).only_in(r, x) ==> g.absent(r),
        forall|r: i64| #[trigger] t.forest(s).absent(r) ==> g.absent(r),
        forall|n: i64| #[trigger]
            t.forest(s).pages.contains_key(n) && !t.forest(s).inner(n) && t.forest(
                s,
            ).pages[n].len() > 0 && n != x ==> g.pages.contains_key(n) && !g.inner(n)
                && g.pages[n] == t.forest(s).pages[n],
        forall|n: i64| #[trigger]
            g.pages.contains_key(n) && !g.inner(n) && g.pages[n].len() > 0 ==> n != x && t.forest(
                s,
            ).pages.contains_key(n) && !t.forest(s).inner(n) && t.forest(s).pages[n] == g.pages[n],
    ensures
        is_torn(t2, s2, all, out.union(t.cells(data).to_set()), extra, Set::empty()),
        forall|c: CellView| #[trigger] t.cells(data).contains(c) ==> !out.contains(c),
{
    let f = t.forest(s);
    let n_dim2 = t.n_dim2 as nat;
    let cells = t.cells(data);
    let open = Open { loose: numbers(out).union(extra), adrift, gap: Set::empty() };
    let more = out.union(cells.to_set());
    // No row of the leaf is loose.
    assert forall|r: i64| #[trigger] lists(cells, r) implies !open.loose.contains(r)
        && f.only_in(r, x) by {
        f.lemma_numbered(n_dim2, t.node_count, open);
        if open.loose.contains(r) {
            if extra.contains(r) {
                assert(f.absent(r));
            } else {
                let c = choose|c: CellView| #[trigger] out.contains(c) && c.rowid == r;
                assert(f.absent(c.rowid));
            }
            assert(!lists(f.pages[x], r));
        }
        forest_rows::lemma_noted_row_is_unique(f, n_dim2, t.node_count, open, x, r);
    }
    forest_rows::lemma_rows_without_leaf(f, g, x);
    assert(g.rows() =~= all.difference(more));
    f.lemma_node(n_dim2, t.node_count, open, x);
    assert forall|c: CellView| #[trigger] cells.contains(c) implies !out.contains(c) && f.holds(c) by {
        forest::lemma_lists(cells, cells.index_of(c));
        if out.contains(c) {
            assert(open.loose.contains(c.rowid));
        }
        assert(f.pages.contains_key(x) && !f.inner(x) && f.pages[x].contains(c));
    }
    assert forall|c: CellView| #[trigger] more.contains(c) implies {
        &&& all.contains(c)
        &&& geometry::is_box(c, t2.n_dim2 as nat)
        &&& c.kept(t2.n_dim2 as nat) == c
        &&& g.absent(c.rowid)
    } by {
        if cells.contains(c) {
            let i = cells.index_of(c);
            lemma_page_cells_kept(t, data, i);
            reveal(boxes);
            assert(geometry::is_box(cells[i], n_dim2));
            forest::lemma_lists(cells, i);
            assert(f.rows().contains(c));
        } else {
            assert(f.absent(c.rowid));
        }
    }
    assert forall|r: i64| #[trigger] extra.contains(r) implies g.absent(r) by {
        assert(f.absent(r));
    }
    assert(numbers(more) =~= numbers(out).union(ids(cells))) by {
        assert forall|id: i64| numbers(more).contains(id) == numbers(out).union(
            ids(cells),
        ).contains(id) by {
            if numbers(more).contains(id) {
                let c = choose|c: CellView| #[trigger] more.contains(c) && c.rowid == id;
                if cells.contains(c) {
                    forest::lemma_lists(cells, cells.index_of(c));
                } else {
                    assert(out.contains(c));
                }
            }
            if ids(cells).contains(id) {
                let i = forest::lemma_place(cells, id);
                assert(more.contains(cells[i]));
            }
            if numbers(out).contains(id) {
                let c = choose|c: CellView| #[trigger] out.contains(c) && c.rowid == id;
                assert(more.contains(c));
            }
        }
    }
    assert(numbers(out).union(extra).union(ids(cells)) =~= numbers(more).union(extra));
}

} // verus!
