//! A deletion from a tree ends well, or it waits for something that it was not told yet.

use vstd::prelude::*;
use crate::detach_laws;
use crate::detach_laws::{cells_of_all, without_id};
use crate::forest;
use crate::forest::{boxed, distinct, ids, Forest, Open};
use crate::forest_rows;
use crate::geometry;
use crate::insert_outcome;
use crate::lookup_laws;
use crate::node;
use crate::node::{CellView, NodeView};
use crate::outcome;
use crate::outcome::{fares, is_sound};
use crate::removal_laws;
use crate::removal_laws::root_depth;
use crate::store::{Stop, StoreView, WriteView};
use crate::table;
use crate::table::TableView;
use crate::tighten_laws;
use crate::tighten_laws::leaves_adrift;
use crate::torn_tree::{is_torn, numbers};
use crate::tree_delete;
use crate::tree_delete::DetachedView;
use crate::tree_laws;
use crate::value::{ArgView, ResultCode};

verus! {

/// Tightening the boxes above a node. Node numbers go down on the way, so it has fewer steps than
/// there are nodes.
proof fn lemma_tightening_fares(t: TableView, s: StoreView, open: Open, n: i64, hops: nat)
    requires
        t.grows(s, open),
        open.gap =~= Set::empty(),
        leaves_adrift(t.forest(s), open),
        t.forest(s).pages.contains_key(n),
        !open.adrift.contains(n),
        is_sound(t, s),
        hops <= t.node_count - n,
    ensures
        fares(t, s, t.tighten(s, n, hops).0, t.tighten(s, n, hops).1),
    decreases t.max_hops() + 1 - hops,
{
    reveal(TableView::tighten);
    outcome::lemma_goes_nowhere(s);
    insert_outcome::lemma_hop_fares(t, s, open, n);
    let n_dim2 = t.n_dim2 as nat;
    let f = t.forest(s);
    assert(hops <= t.max_hops());
    if let (Ok(Some(node)), Ok(Some(p))) = (t.read_node(s, n).0, t.get_parent_nodeno(s, n).0) {
        if t.cells(node.data).len() > 0 {
            if let Ok(Some(parent)) = t.read_node(s, p).0 {
                let idx = table::index_of_rowid(t.cells(parent.data), n)->0;
                tighten_laws::lemma_tighten_step(t, s, open, n, node.data, parent, idx);
                let tight = CellView {
                    rowid: n,
                    coords: geometry::union_of_all(t.cells(node.data), n_dim2).coords,
                };
                let page = node::with_cell(
                    parent.data,
                    n_dim2,
                    t.n_bytes_per_cell as nat,
                    idx,
                    tight,
                );
                let w = WriteView::Node { nodeno: p, data: page };
                outcome::lemma_change_fares(t, s, w);
                let (r4, s4) = s.issue(w);
                if r4 is Ok {
                    let g = t.forest(s4);
                    assert(leaves_adrift(g, open)) by {
                        assert forall|a: i64| #[trigger] open.adrift.contains(a) implies !g.inner(
                            a,
                        ) by {
                            assert(g.inner(a) == f.inner(a));
                        }
                    }
                    assert(g.pages.dom().contains(p));
                    assert(!open.adrift.contains(p));
                    lemma_tightening_fares(t, s4, open, p, hops + 1);
                    let (r5, s5) = t.tighten(s4, p, hops + 1);
                    outcome::lemma_then(t, s, s4, r5, s5);
                }
            }
        }
    }
}

/// Restoring the tree above an inner node, or above a leaf that is large enough.
proof fn lemma_mending_fares(t: TableView, s: StoreView, open: Open, n: i64, guard: nat)
    requires
        t.grows(s, open),
        open.gap =~= Set::empty(),
        leaves_adrift(t.forest(s), open),
        t.forest(s).pages.contains_key(n),
        !open.adrift.contains(n),
        is_sound(t, s),
        guard < t.max_fixes(),
    ensures
        ({
            let (r, t2, s2) = t.fix_inner(s, n, guard);
            fares(t, s, r, s2)
        }),
{
    reveal(TableView::fix_inner);
    outcome::lemma_goes_nowhere(s);
    insert_outcome::lemma_hop_fares(t, s, open, n);
    t.forest(s).lemma_node(t.n_dim2 as nat, t.node_count, open, n);
    if let Ok(Some(node)) = t.read_node(s, n).0 {
        if n == 1 && node::page_count(node.data) == 0 {
            let data = node.counted(0).deepened(0).data;
            outcome::lemma_change_fares(t, s, WriteView::Node { nodeno: 1, data });
        } else if !(node::page_count(node.data) == 0 || (n == 1 && node::page_count(node.data)
            < t.min_cells())) {
            lemma_tightening_fares(t, s, open, n, 0);
        }
    }
}

/// Dropping a node.
proof fn lemma_dropping_fares(t: TableView, s: StoreView, x: i64)
    requires
        is_sound(t, s),
    ensures
        ({
            let (r, s2) = s.issue_all(TableView::drop_writes(x));
            fares(t, s, r, s2)
        }),
{
    outcome::lemma_changes_fare(t, s, TableView::drop_writes(x));
}

/// Mending the parent of a leaf that is adrift, and dropping the leaf.
proof fn lemma_mend_and_drop_fares(
    t: TableView,
    s: StoreView,
    all: Set<CellView>,
    out: Set<CellView>,
    extra: Set<i64>,
    x: i64,
    p: i64,
    guard: nat,
)
    requires
        is_torn(t, s, all, out, extra, Set::empty().insert(x)),
        t.forest(s).pages.contains_key(p),
        !t.forest(s).inner(x),
        x != p,
        is_sound(t, s),
        guard < t.max_fixes(),
    ensures
        ({
            let (r4, t4, s4) = t.fix_inner(s, p, guard);
            let (r5, s5) = s4.issue_all(TableView::drop_writes(x));
            &&& fares(t, s, r4, s4)
            &&& r4 is Ok ==> fares(t, s, r5, s5)
        }),
{
    let adrift = Set::<i64>::empty().insert(x);
    let open = Open { loose: numbers(out).union(extra), adrift, gap: Set::empty() };
    lemma_mending_fares(t, s, open, p, guard);
    let (r4, t4, s4) = t.fix_inner(s, p, guard);
    if r4 is Ok {
        lemma_dropping_fares(t, s4, x);
        let (r5, s5) = s4.issue_all(TableView::drop_writes(x));
        outcome::lemma_then(t, s, s4, r5, s5);
    }
}

/// Taking a leaf out of its parent. Node numbers go down on the way up, so fewer nodes are looked
/// after than there are.
proof fn lemma_detaching_fares(
    t: TableView,
    s: StoreView,
    all: Set<CellView>,
    out: Set<CellView>,
    extra: Set<i64>,
    n: NodeView,
    guard: nat,
)
    requires
        is_torn(t, s, all, out, extra, Set::empty()),
        tree_laws::is_current(t, s, n),
        !t.forest(s).inner(n.node_no),
        n.node_no != 1,
        t.forest(s).filled_but(t.min_cells(), Set::empty().insert(n.node_no)),
        is_sound(t, s),
        guard <= t.node_count - n.node_no + 1,
    ensures
        ({
            let (r, t2, s2) = t.detach(s, n.node_no, guard);
            fares(t, s, r, s2)
        }),
    decreases t.max_fixes() + 1 - guard,
{
    reveal(TableView::detach);
    let f = t.forest(s);
    let x = n.node_no;
    let open = Open { loose: numbers(out).union(extra), adrift: Set::empty(), gap: Set::empty() };
    f.lemma_node(t.n_dim2 as nat, t.node_count, open, x);
    assert(f.up.contains_key(x));
    detach_laws::lemma_parent_at_hand(t, s, all, out, extra, x);
    outcome::lemma_parent_fares(t, s, x);
    if let Ok(Some(p)) = t.get_parent_nodeno(s, x).0 {
        outcome::lemma_node_fares(t, s, p);
        if let Ok(Some(parent)) = t.read_node(s, p).0 {
            let idx = table::index_of_rowid(t.cells(parent.data), x)->0;
            detach_laws::lemma_unlinked(t, s, all, out, extra, parent, idx);
            let data = node::without_cell(parent.data, t.n_bytes_per_cell as nat, idx);
            let w = WriteView::Node { nodeno: p, data };
            outcome::lemma_change_fares(t, s, w);
            let (r3, s3) = s.issue(w);
            if r3 is Ok {
                lemma_detaching_on(t, s, s3, all, out, extra, n, NodeView { data, ..parent }, guard);
            }
        }
    }
}

/// Detaching goes on at the parent, which has one cell less.
proof fn lemma_detaching_on(
    t: TableView,
    s: StoreView,
    s3: StoreView,
    all: Set<CellView>,
    out: Set<CellView>,
    extra: Set<i64>,
    n: NodeView,
    above: NodeView,
    guard: nat,
)
    requires
        outcome::goes_on(s, s3),
        is_torn(t, s3, all, out, extra, Set::empty().insert(n.node_no)),
        t.holds(above.data),
        t.forest(s3).pages.contains_key(n.node_no),
        t.forest(s3).pages.contains_key(above.node_no),
        t.forest(s3).pages[above.node_no] == t.cells(above.data),
        t.forest(s3).pages[n.node_no] == t.cells(n.data),
        !t.forest(s3).inner(n.node_no),
        n.node_no > above.node_no >= 1,
        t.forest(s3).inner(1) ==> t.forest(s3).pages[1].len() > 0 || above.node_no == 1,
        above.node_no != 1 && t.forest(s3).pages[above.node_no].len() == 0 ==> !t.forest(s3).inner(
            above.node_no,
        ),
        t.forest(s3).filled_but(
            t.min_cells(),
            Set::empty().insert(n.node_no).insert(above.node_no),
        ),
        is_sound(t, s3),
        guard <= t.node_count - n.node_no + 1,
    ensures
        ({
            let p = above.node_no;
            let (r4, s4) = s3.issue_all(TableView::drop_writes(n.node_no));
            let (r5, t5, s5) = t.detach(s4, p, guard + 1);
            let (r6, t6, s6) = t.fix_inner(s3, p, guard);
            let (r7, s7) = s6.issue_all(TableView::drop_writes(n.node_no));
            &&& fares(t, s, r4, s4)
            &&& guard + 1 <= t.max_fixes()
            &&& r4 is Ok && p != 1 && node::page_count(above.data) == 0 ==> fares(t, s, r5, s5)
            &&& fares(t, s, r6, s6)
            &&& r6 is Ok ==> fares(t, s, r7, s7)
        }),
    decreases t.max_fixes() + 1 - guard, 0int,
{
    let x = n.node_no;
    let p = above.node_no;
    assert(guard < t.max_fixes());
    lemma_dropping_fares(t, s3, x);
    let (r4, s4) = s3.issue_all(TableView::drop_writes(x));
    outcome::lemma_then(t, s, s3, r4, s4);
    if r4 is Ok && p != 1 && node::page_count(above.data) == 0 {
        detach_laws::lemma_dropped_below(t, s3, all, out, extra, x, above, n.data);
        let more = out.union(t.cells(n.data).to_set());
        lemma_detaching_fares(t, s4, all, more, extra, above, guard + 1);
        let (r5, t5, s5) = t.detach(s4, p, guard + 1);
        outcome::lemma_then(t, s, s4, r5, s5);
    }
    lemma_mend_and_drop_fares(t, s3, all, out, extra, x, p, guard);
    let (r6, t6, s6) = t.fix_inner(s3, p, guard);
    outcome::lemma_then(t, s, s3, r6, s6);
    if r6 is Ok {
        let (r7, s7) = s6.issue_all(TableView::drop_writes(x));
        outcome::lemma_then(t, s, s3, r7, s7);
    }
}

/// Restoring the tree after a row was taken out of a leaf.
proof fn lemma_fixing_fares(
    t: TableView,
    s: StoreView,
    all: Set<CellView>,
    extra: Set<i64>,
    n: i64,
)
    requires
        is_torn(t, s, all, Set::empty(), extra, Set::empty()),
        t.forest(s).pages.contains_key(n),
        !t.forest(s).inner(n),
        t.forest(s).filled_but(t.min_cells(), Set::empty().insert(n)),
        is_sound(t, s),
    ensures
        ({
            let (r, t2, s2, p2) = t.fix(s, n, 0, Seq::empty(), 0);
            fares(t, s, r, s2)
        }),
{
    reveal(TableView::fix);
    let none = Set::<CellView>::empty();
    let open = Open { loose: numbers(none).union(extra), adrift: Set::empty(), gap: Set::empty() };
    let f = t.forest(s);
    f.lemma_numbered(t.n_dim2 as nat, t.node_count, open);
    f.lemma_node(t.n_dim2 as nat, t.node_count, open, n);
    t.lemma_read(s, n);
    outcome::lemma_node_fares(t, s, n);
    lemma_mending_fares(t, s, open, n, 0);
    if let Ok(Some(node)) = t.read_node(s, n).0 {
        if n != 1 && node::page_count(node.data) < t.min_cells() {
            lemma_detaching_fares(t, s, all, none, extra, node, 1);
        }
    }
}

/// Taking a row out of the tree.
proof fn lemma_taking_out_fares(t: TableView, s: StoreView, rowid: i64)
    requires
        t.is_tree(s),
        t.node_count > 0,
        is_sound(t, s),
    ensures
        ({
            let (r, t2, s2, p2) = t.take_out(s, rowid);
            fares(t, s, r, s2)
        }),
{
    reveal(TableView::take_out);
    let f = t.forest(s);
    let n_dim2 = t.n_dim2 as nat;
    outcome::lemma_goes_nowhere(s);
    t.lemma_read_home(s, rowid);
    outcome::lemma_home_fares(t, s, rowid);
    if let Ok(Some(n)) = t.get_rowid_nodeno(s, rowid).0 {
        forest_rows::lemma_rows_by_id(f, n_dim2, t.node_count, rowid);
        f.lemma_numbered(n_dim2, t.node_count, Open::nothing());
        t.lemma_read(s, n);
        outcome::lemma_node_fares(t, s, n);
        if let Ok(Some(node)) = t.read_node(s, n).0 {
            table::lemma_found_by_rowid(t.cells(node.data), rowid);
            let k = forest::lemma_place(f.pages[n], rowid);
            let idx = table::index_of_rowid(t.cells(node.data), rowid)->0;
            detach_laws::lemma_cell_out(t, s, node, idx);
            let data = node::without_cell(node.data, t.n_bytes_per_cell as nat, idx);
            let w = WriteView::Node { nodeno: n, data };
            outcome::lemma_change_fares(t, s, w);
            let (r3, s3) = s.issue(w);
            if r3 is Ok {
                let all = without_id(t.rows(s), rowid);
                let extra = Set::<i64>::empty().insert(rowid);
                lemma_fixing_fares(t, s3, all, extra, n);
                let (r4, t4, s4, p4) = t.fix(s3, n, 0, Seq::empty(), 0);
                outcome::lemma_then(t, s, s3, r4, s4);
            }
        }
    }
}

/// Lowering the tree where it can be.
proof fn lemma_collapsing_fares(
    t: TableView,
    s: StoreView,
    all: Set<CellView>,
    out: Set<CellView>,
    pending: Seq<DetachedView>,
)
    requires
        is_torn(t, s, all, out, Set::empty(), Set::empty()),
        is_sound(t, s),
    ensures
        ({
            let (r, t2, s2, p2) = t.collapse(s, pending);
            fares(t, s, r, s2)
        }),
{
    reveal(TableView::collapse);
    let none = Set::<i64>::empty();
    let open = Open { loose: numbers(out).union(none), adrift: none, gap: Set::empty() };
    let f = t.forest(s);
    outcome::lemma_goes_nowhere(s);
    t.lemma_read(s, 1);
    outcome::lemma_node_fares(t, s, 1);
    if let Ok(Some(root)) = t.read_node(s, 1).0 {
        if root.tree_depth() != 0 && node::page_count(root.data) == 1 {
            let x = t.cells(root.data)[0].rowid;
            f.lemma_child(t.n_dim2 as nat, t.node_count, open, 1, 0);
            t.lemma_read(s, x);
            outcome::lemma_node_fares(t, s, x);
            if let Ok(Some(child)) = t.read_node(s, x).0 {
                t.lemma_told_leaf(s, child);
                outcome::lemma_leaf_check_fares(t, s, child);
                if let Ok(leaf) = t.is_leaf(s, child).0 {
                    let depth = TableView::lowered_depth(root.tree_depth(), leaf);
                    let data = root.counted(0).deepened(depth).data;
                    let w = WriteView::Node { nodeno: 1, data };
                    outcome::lemma_change_fares(t, s, w);
                    let (r1, s1) = s.issue(w);
                    if r1 is Ok {
                        lemma_dropping_fares(t, s1, x);
                        let (r2, s2) = s1.issue_all(TableView::drop_writes(x));
                        outcome::lemma_then(t, s, s1, r2, s2);
                    }
                }
            }
        }
    }
}

/// Inserting a row of a pending list again.
proof fn lemma_row_back_fares(
    t: TableView,
    s: StoreView,
    all: Set<CellView>,
    out: Set<CellView>,
    cell: CellView,
)
    requires
        is_torn(t, s, all, out, Set::empty(), Set::empty()),
        out.contains(cell),
        0 < t.node_count <= i64::MAX - 2,
        is_sound(t, s),
    ensures
        ({
            let (r, t2, s2) = t.reinsert_cell(s, cell, 0);
            fares(t, s, r, s2)
        }),
{
    reveal(TableView::reinsert_cell);
    let none = Set::<i64>::empty();
    let open = Open { loose: numbers(out).union(none), adrift: none, gap: Set::empty() };
    outcome::lemma_aux_fares(t, s, cell.rowid);
    assert(open.loose.contains(cell.rowid));
    match t.read_rowid_aux_values(s, cell.rowid).0 {
        Ok(aux) => {
            insert_outcome::lemma_leaf_row_fares(t, s, open, cell, aux);
        },
        Err(Stop::Code(ResultCode::NotFound)) => {
            let aux = tree_delete::nulls(t.aux_columns.len());
            insert_outcome::lemma_leaf_row_fares(t, s, open, cell, aux);
        },
        Err(stop) => {},
    }
}

/// Inserting the rows of a leaf on the pending list again.
proof fn lemma_rows_back_fare(
    t: TableView,
    s: StoreView,
    all: Set<CellView>,
    out: Set<CellView>,
    node: DetachedView,
    j: int,
)
    requires
        t.is_filled(s),
        is_torn(t, s, all, out, Set::empty(), Set::empty()),
        node.height == 0,
        0 <= j <= node.cells.len(),
        forall|i: int| j <= i < node.cells.len() ==> out.contains(#[trigger] node.cells[i]),
        distinct(node.cells),
        0 < t.node_count,
        t.node_count + 2 * (node.cells.len() - j) <= i64::MAX,
        is_sound(t, s),
    ensures
        ({
            let (r, t2, s2) = t.reinsert_cells(s, node, j);
            fares(t, s, r, s2)
        }),
    decreases node.cells.len() - j,
{
    reveal(TableView::reinsert_cells);
    outcome::lemma_goes_nowhere(s);
    if j < node.cells.len() {
        let cell = node.cells[j];
        lemma_row_back_fares(t, s, all, out, cell);
        removal_laws::lemma_row_back(t, s, all, out, cell);
        let (r1, t1, s1) = t.reinsert_cell(s, cell, node.height);
        if r1 is Ok {
            assert forall|i: int| j + 1 <= i < node.cells.len() implies out.remove(cell).contains(
                #[trigger] node.cells[i],
            ) by {
                reveal(distinct);
                assert(node.cells[j].rowid != node.cells[i].rowid);
            }
            outcome::lemma_sound_by_shape(t, t1, s1);
            lemma_rows_back_fare(t1, s1, all, out.remove(cell), node, j + 1);
            let (r2, t2, s2) = t1.reinsert_cells(s1, node, j + 1);
            outcome::lemma_sound_by_shape(t, t1, s2);
            outcome::lemma_then(t, s, s1, r2, s2);
        }
    }
}

/// Putting a node of a pending list below the root again.
proof fn lemma_node_back_fares(
    t: TableView,
    s: StoreView,
    all: Set<CellView>,
    out: Set<CellView>,
    adrift: Set<i64>,
    cell: CellView,
    height: usize,
)
    requires
        is_torn(t, s, all, out, Set::empty(), adrift),
        adrift.contains(cell.rowid),
        height > 0,
        root_depth(t, s) == height,
        t.forest(s).high,
        t.forest(s).pages[1].len() < t.max_cells(),
        is_sound(t, s),
    ensures
        ({
            let (r, t2, s2) = t.reinsert_cell(s, cell, height);
            fares(t, s, r, s2)
        }),
{
    reveal(TableView::reinsert_cell);
    reveal(TableView::insert_internal);
    reveal(TableView::descend);
    reveal(TableView::adjust);
    let n_dim2 = t.n_dim2 as nat;
    t.lemma_read(s, 1);
    outcome::lemma_root_fares(t, s);
    if let Ok(root) = t.load_root_node(s).0 {
        assert(t.read_node(s, 1) == (Ok::<Option<NodeView>, Stop>(Some(root)), s));
        let count = node::page_count(root.data);
        t.lemma_append_holds(root.data, cell);
        t.lemma_room();
        let data = root.placed(n_dim2, t.n_bytes_per_cell as nat, count as int, cell).counted(
            count + 1,
        ).data;
        t.lemma_page_written(s, 1, data);
        let w = WriteView::Node { nodeno: 1, data };
        outcome::lemma_change_fares(t, s, w);
        let (r3, s3) = s.issue(w);
        if r3 is Ok {
            t.lemma_read(s3, 1);
            outcome::lemma_node_fares(t, s3, 1);
            outcome::lemma_goes_nowhere(s3);
            let (r4, s4) = t.adjust(s3, 1, 0);
            assert(fares(t, s3, r4, s4));
            outcome::lemma_then(t, s, s3, r4, s4);
            if r4 is Ok {
                let v = WriteView::Parent { nodeno: cell.rowid, parentnode: 1 };
                outcome::lemma_change_fares(t, s4, v);
                outcome::lemma_then(t, s, s4, s4.issue(v).0, s4.issue(v).1);
            }
        }
    }
}

/// Putting the nodes of a pending list below the root again.
proof fn lemma_nodes_back_fare(
    t: TableView,
    s: StoreView,
    all: Set<CellView>,
    out: Set<CellView>,
    node: DetachedView,
    j: int,
)
    requires
        t.is_filled(s),
        0 <= j <= node.cells.len() <= t.max_cells(),
        is_torn(t, s, all, out, Set::empty(), ids(node.cells.skip(j))),
        node.height > 0,
        root_depth(t, s) == node.height,
        t.forest(s).high,
        t.forest(s).pages[1].len() == j,
        distinct(node.cells),
        forall|i: int| j <= i < node.cells.len() ==> {
            let c = #[trigger] node.cells[i];
            &&& c.rowid != 1
            &&& geometry::is_box(c, t.n_dim2 as nat)
            &&& c.kept(t.n_dim2 as nat) == c
            &&& boxed(c, t.forest(s).pages[c.rowid], t.n_dim2 as nat)
        },
        is_sound(t, s),
    ensures
        ({
            let (r, t2, s2) = t.reinsert_cells(s, node, j);
            fares(t, s, r, s2)
        }),
    decreases node.cells.len() - j,
{
    reveal(TableView::reinsert_cells);
    outcome::lemma_goes_nowhere(s);
    let drifting = node.cells.skip(j);
    if j < node.cells.len() {
        let cell = node.cells[j];
        assert(drifting[0] == cell);
        forest::lemma_lists(drifting, 0);
        lemma_node_back_fares(t, s, all, out, ids(drifting), cell, node.height);
        removal_laws::lemma_node_back(t, s, all, out, ids(drifting), cell, node.height);
        let (r1, t1, s1) = t.reinsert_cell(s, cell, node.height);
        if r1 is Ok {
            let rest = node.cells.skip(j + 1);
            assert(ids(rest) =~= ids(drifting).remove(cell.rowid)) by {
                assert(distinct(drifting)) by {
                    reveal(distinct);
                    assert forall|a: int, b: int| 0 <= a < b < drifting.len() implies
                        #[trigger] drifting[a].rowid != #[trigger] drifting[b].rowid by {
                        assert(node.cells[a + j].rowid != node.cells[b + j].rowid);
                    }
                }
                assert(rest =~= drifting.remove(0));
                forest::lemma_remove(drifting, 0, 0);
            }
            lemma_nodes_back_fare(t, s1, all, out, node, j + 1);
            let (r2, t2, s2) = t.reinsert_cells(s1, node, j + 1);
            outcome::lemma_then(t, s, s1, r2, s2);
        }
    }
}

/// Inserting the rows of the leaf that a deletion detached again.
proof fn lemma_list_back_fares(
    t: TableView,
    s: StoreView,
    all: Set<CellView>,
    pending: Seq<DetachedView>,
)
    requires
        t.is_filled(s),
        is_torn(t, s, all, cells_of_all(pending), Set::empty(), Set::empty()),
        pending.len() <= 1,
        pending.len() == 1 ==> pending[0].height == 0 && distinct(pending[0].cells)
            && pending[0].cells.len() <= t.max_cells(),
        0 < t.node_count,
        t.node_count + 2 * t.max_cells() <= i64::MAX,
        is_sound(t, s),
    ensures
        ({
            let (r, t2, s2) = t.reinsert_all(s, pending);
            fares(t, s, r, s2)
        }),
{
    reveal_with_fuel(TableView::reinsert_all, 3);
    let out = cells_of_all(pending);
    outcome::lemma_goes_nowhere(s);
    if pending.len() == 1 {
        let node = pending[0];
        assert forall|i: int| 0 <= i < node.cells.len() implies out.contains(
            #[trigger] node.cells[i],
        ) by {
            assert(pending[0].cells.contains(node.cells[i]));
        }
        lemma_rows_back_fare(t, s, all, out, node, 0);
        assert(pending.drop_last() =~= Seq::empty());
    }
}

/// Putting back all that came off the tree.
proof fn lemma_all_back_fares(
    t: TableView,
    s: StoreView,
    all: Set<CellView>,
    first: Seq<DetachedView>,
    pending: Seq<DetachedView>,
)
    requires
        t.is_filled(s),
        first.len() <= 1,
        first.len() == 1 ==> first[0].height == 0 && distinct(first[0].cells)
            && first[0].cells.len() <= t.max_cells(),
        pending == first || (pending.len() == first.len() + 1 && pending.drop_last() == first),
        pending == first ==> is_torn(t, s, all, cells_of_all(first), Set::empty(), Set::empty()),
        pending != first ==> {
            let node = pending.last();
            if node.cells.len() == 0 {
                node.height == 0 && is_torn(
                    t,
                    s,
                    all,
                    cells_of_all(first),
                    Set::empty(),
                    Set::empty(),
                )
            } else {
                removal_laws::is_lowered(t, s, all, cells_of_all(first), node)
            }
        },
        0 < t.node_count,
        t.node_count + 4 * t.max_cells() <= i64::MAX,
        is_sound(t, s),
    ensures
        ({
            let (r, t2, s2) = t.reinsert_all(s, pending);
            fares(t, s, r, s2)
        }),
{
    let out = cells_of_all(first);
    if pending == first {
        lemma_list_back_fares(t, s, all, first);
    } else {
        reveal(TableView::reinsert_all);
        outcome::lemma_goes_nowhere(s);
        let node = pending.last();
        let (r1, t1, s1) = t.reinsert_cells(s, node, 0);
        assert(node.cells.skip(0) =~= node.cells);
        if node.cells.len() == 0 {
            reveal(TableView::reinsert_cells);
        } else if node.height == 0 {
            let more = out.union(node.cells.to_set());
            assert forall|i: int| 0 <= i < node.cells.len() implies more.contains(
                #[trigger] node.cells[i],
            ) by {
                assert(node.cells.contains(node.cells[i]));
            }
            lemma_rows_back_fare(t, s, all, more, node, 0);
            removal_laws::lemma_rows_back(t, s, all, more, node, 0);
            assert(more.difference(node.cells.to_set()) =~= out) by {
                assert forall|c: CellView| out.contains(c) implies !node.cells.to_set().contains(
                    c,
                ) by {
                    if node.cells.contains(c) {
                    }
                }
            }
        } else {
            lemma_nodes_back_fare(t, s, all, out, node, 0);
            removal_laws::lemma_nodes_back(t, s, all, out, node, 0);
        }
        if r1 is Ok {
            outcome::lemma_sound_by_shape(t, t1, s1);
            lemma_list_back_fares(t1, s1, all, first);
            let (r2, t2, s2) = t1.reinsert_all(s1, first);
            outcome::lemma_sound_by_shape(t, t1, s2);
            outcome::lemma_then(t, s, s1, r2, s2);
        }
    }
}

/// Deleting a row from a tree ends well as soon as it is told all that it asks for, given that no
/// read and no change fails: until then it waits for something that it was not told.
pub proof fn lemma_delete_ends_well(t: TableView, s: StoreView, rowid: i64)
    requires
        t.is_tree(s),
        t.numbers_left((2 * t.max_cells()) as int),
        is_sound(t, s),
    ensures
        ({
            let (r, t2, s2) = t.delete(s, rowid);
            fares(t, s, r, s2)
        }),
{
    reveal(TableView::unlink);
    let w = WriteView::DeleteRowid { rowid };
    if t.node_count == 0 {
        reveal(TableView::take_out);
        reveal(TableView::collapse);
        reveal(TableView::reinsert_all);
        t.lemma_read_home(s, rowid);
        outcome::lemma_home_fares(t, s, rowid);
        if t.get_rowid_nodeno(s, rowid).0 is Ok {
            t.lemma_row_deleted(s, rowid);
            outcome::lemma_change_fares(t, s, w);
            let (r1, s1) = s.issue(w);
            if r1 is Ok {
                t.lemma_read(s1, 1);
                outcome::lemma_node_fares(t, s1, 1);
                assert(t.forest(s1) =~= Forest::bare());
                let (r2, s2) = t.read_node(s1, 1);
                outcome::lemma_then(t, s, s1, r2, s2);
            }
        }
    } else {
        let all = without_id(t.rows(s), rowid);
        lemma_taking_out_fares(t, s, rowid);
        detach_laws::lemma_taken_out(t, s, rowid);
        let (r1, t1, s1, p1) = t.take_out(s, rowid);
        if r1 is Ok {
            removal_laws::lemma_note_dropped(t1, s1, all, cells_of_all(p1), rowid);
            outcome::lemma_change_fares(t, s1, w);
            let (r3, s3) = s1.issue(w);
            outcome::lemma_then(t, s, s1, r3, s3);
            if r3 is Ok {
                outcome::lemma_sound_by_shape(t, t1, s3);
                lemma_collapsing_fares(t1, s3, all, cells_of_all(p1), p1);
                removal_laws::lemma_collapsed(t1, s3, all, cells_of_all(p1), p1);
                let (r4, t4, s4, p4) = t1.collapse(s3, p1);
                outcome::lemma_sound_by_shape(t, t1, s4);
                outcome::lemma_then(t, s, s3, r4, s4);
                if r4 is Ok {
                    outcome::lemma_sound_by_shape(t, t4, s4);
                    lemma_all_back_fares(t4, s4, all, p1, p4);
                    let (r5, t5, s5) = t4.reinsert_all(s4, p4);
                    outcome::lemma_sound_by_shape(t, t4, s5);
                    outcome::lemma_then(t, s, s4, r5, s5);
                }
            }
        }
    }
}

/// Deleting a row from a tree succeeds where the store holds the answer to everything that the
/// deletion asks for: pages, areas, ratings, and that no read and no change failed.
pub proof fn lemma_delete_succeeds(t: TableView, s: StoreView, rowid: i64)
    requires
        t.is_tree(s),
        t.numbers_left((2 * t.max_cells()) as int),
        is_sound(t, s),
        !outcome::lacks(t.delete(s, rowid).2),
    ensures
        t.delete(s, rowid).0 is Ok,
{
    lemma_delete_ends_well(t, s, rowid);
}

/// Updating a row of a tree ends well as soon as it is told all that it asks for, given that no read
/// and no change fails, that what is stored of the row was read, and that the new row is not refused.
pub proof fn lemma_update_ends_well(
    t: TableView,
    s: StoreView,
    old_rowid: i64,
    args: Seq<ArgView>,
)
    requires
        t.is_tree(s),
        t.numbers_left((2 * t.max_cells()) as int),
        is_sound(t, s),
        args.len() >= t.row_width(),
        t.update_args(s, old_rowid, args).0 is Ok,
        t.update_args(s, old_rowid, args).0->Ok_0[0].integer is Some,
        t.check_update(s, old_rowid, t.update_args(s, old_rowid, args).0->Ok_0).0 is Ok,
    ensures
        ({
            let (r, t2, s2) = t.update(s, old_rowid, args);
            fares(t, s, r, s2)
        }),
{
    let (row_r, s0) = t.update_args(s, old_rowid, args);
    let row = row_r->Ok_0;
    assert(s0 == s);
    assert(row.len() == args.len());
    assert(t.check_update(s, old_rowid, row).1 == s);
    lemma_delete_ends_well(t, s, old_rowid);
    let (r3, t3, s3) = t.delete(s, old_rowid);
    if r3 is Ok {
        removal_laws::lemma_delete_keeps_tree(t, s, old_rowid);
        lookup_laws::lemma_update_is_refused_first(t, s, old_rowid, args);
        outcome::lemma_sound_by_shape(t, t3, s3);
        insert_outcome::lemma_insert_ends_well(t3, s3, row);
        let (r4, t4, s4) = t3.insert(s3, row);
        outcome::lemma_sound_by_shape(t, t3, s4);
        outcome::lemma_then(t, s, s3, r4, s4);
    }
}

} // verus!
