//! Deleting a row takes it out of the tree, and nothing else changes.

use vstd::prelude::*;
use crate::bytes;
use crate::detach_laws;
use crate::detach_laws::{cells_of_all, without_id};
use crate::forest;
use crate::forest::{boxed, distinct, ids, lists, Forest, Open};
use crate::forest_cut;
use crate::forest_fill;
use crate::forest_rows;
use crate::geometry;
use crate::insert_laws;
use crate::node;
use crate::node::{CellView, NodeView};
use crate::page_laws;
use crate::store::{AuxRowView, NodeRowView, StoreView, WriteView};
use crate::table::TableView;
use crate::torn_tree::{is_torn, lemma_leaf_off, numbers};
use crate::tree_delete;
use crate::tree_delete::DetachedView;
use crate::tree_laws;
use crate::value;
use crate::value::{ArgView, ValueView};

verus! {

impl TableView {
    /// The auxiliary columns of a row, as far as they are known: NULL where none are stored.
    pub open spec fn aux_of(self, s: StoreView, rowid: i64) -> Option<Seq<ValueView>> {
        let n = self.aux_columns.len();
        if n == 0 {
            Some(Seq::empty())
        } else if !s.aux.contains_key(rowid) {
            None
        } else {
            match s.aux[rowid] {
                AuxRowView::Failed => None,
                AuxRowView::Missing => Some(tree_delete::nulls(n)),
                AuxRowView::Values(values) => if values.len() < n {
                    None
                } else {
                    Some(value::owned_all(values.take(n as int)))
                },
            }
        }
    }
}

/// The highest counted row id of a table is that from before, or that of one of the rows above it.
pub open spec fn counts_on(t: TableView, t2: TableView, rows: Set<CellView>) -> bool {
    &&& t2.row_count >= t.row_count
    &&& t2.row_count == t.row_count || exists|c: CellView| #[trigger]
        rows.contains(c) && c.rowid == t2.row_count
}

/// A row of a pending list is inserted again.
pub(crate) proof fn lemma_row_back(
    t: TableView,
    s: StoreView,
    all: Set<CellView>,
    out: Set<CellView>,
    cell: CellView,
)
    requires
        t.is_filled(s),
        is_torn(t, s, all, out, Set::empty(), Set::empty()),
        out.contains(cell),
        0 < t.node_count <= i64::MAX - 2,
    ensures
        ({
            let (r, t2, s2) = t.reinsert_cell(s, cell, 0);
            r is Ok ==> {
                &&& is_torn(t2, s2, all, out.remove(cell), Set::empty(), Set::empty())
                &&& t2.same_shape(t)
                &&& t2.is_filled(s2)
                &&& t.node_count <= t2.node_count <= t.node_count + 2
                &&& counts_on(t, t2, all)
                &&& forall|x: i64| #[trigger] t2.aux_of(s2, x) == t.aux_of(s, x)
            }
        }),
{
    reveal(TableView::reinsert_cell);
    let n_dim2 = t.n_dim2 as nat;
    let f = t.forest(s);
    let none = Set::<i64>::empty();
    let open = Open { loose: numbers(out).union(none), adrift: none, gap: Set::empty() };
    let n = t.aux_columns.len();
    let (read, s1) = t.read_rowid_aux_values(s, cell.rowid);
    let aux = if read is Ok {
        read->Ok_0
    } else {
        tree_delete::nulls(n)
    };
    let (r, t2, s2) = t.reinsert_cell(s, cell, 0);
    if r is Ok {
        assert(s1 == s);
        assert(open.loose.contains(cell.rowid));
        insert_laws::lemma_leaf_row_inserted(t, s, open, cell, aux);
        let less = out.remove(cell);
        assert(numbers(less).union(none) =~= open.loose.remove(cell.rowid)) by {
            assert forall|id: i64| #[trigger] numbers(less).contains(id) == open.loose.remove(
                cell.rowid,
            ).contains(id) by {
                if numbers(less).contains(id) {
                    let c = choose|c: CellView| #[trigger] less.contains(c) && c.rowid == id;
                    assert(out.contains(c));
                    assert(all.contains(c) && all.contains(cell));
                }
                if open.loose.remove(cell.rowid).contains(id) {
                    let c = choose|c: CellView| #[trigger] out.contains(c) && c.rowid == id;
                    assert(less.contains(c));
                }
            }
        }
        assert(t2.rows(s2) =~= all.difference(less));
        assert forall|c: CellView| #[trigger] less.contains(c) implies {
            &&& all.contains(c)
            &&& geometry::is_box(c, t2.n_dim2 as nat)
            &&& c.kept(t2.n_dim2 as nat) == c
            &&& t2.forest(s2).absent(c.rowid)
        } by {
            assert(out.contains(c));
            assert(all.contains(c) && all.contains(cell));
            assert(f.absent(c.rowid));
        }
        assert forall|x: i64| #[trigger] t2.aux_of(s2, x) == t.aux_of(s, x) by {
            if x == cell.rowid && n > 0 {
                assert(value::owned_all(aux).take(n as int) =~= value::owned_all(aux));
                assert(value::owned_all(value::owned_all(aux)) =~= aux);
            }
        }
    }
}

/// The rows of a leaf on the pending list are inserted again.
pub(crate) proof fn lemma_rows_back(
    t: TableView,
    s: StoreView,
    all: Set<CellView>,
    out: Set<CellView>,
    node: DetachedView,
    j: int,
)
    requires
        t.is_filled(s),
        is_torn(t, s, all, out, Set::empty(), Set::empty()),
        node.height == 0,
        0 <= j <= node.cells.len(),
        forall|i: int| j <= i < node.cells.len() ==> out.contains(#[trigger] node.cells[i]),
        distinct(node.cells),
        0 < t.node_count,
        t.node_count + 2 * (node.cells.len() - j) <= i64::MAX,
    ensures
        ({
            let (r, t2, s2) = t.reinsert_cells(s, node, j);
            r is Ok ==> {
                &&& is_torn(
                    t2,
                    s2,
                    all,
                    out.difference(node.cells.skip(j).to_set()),
                    Set::empty(),
                    Set::empty(),
                )
                &&& t2.same_shape(t)
                &&& t2.is_filled(s2)
                &&& t.node_count <= t2.node_count <= t.node_count + 2 * (node.cells.len() - j)
                &&& counts_on(t, t2, all)
                &&& forall|x: i64| #[trigger] t2.aux_of(s2, x) == t.aux_of(s, x)
            }
        }),
    decreases node.cells.len() - j,
{
    reveal(TableView::reinsert_cells);
    if j >= node.cells.len() {
        assert(out.difference(node.cells.skip(j).to_set()) =~= out) by {
            assert(node.cells.skip(j) =~= Seq::empty());
        }
    } else if t.reinsert_cells(s, node, j).0 is Ok {
        let cell = node.cells[j];
        lemma_row_back(t, s, all, out, cell);
        let (r1, t1, s1) = t.reinsert_cell(s, cell, node.height);
        assert forall|i: int| j + 1 <= i < node.cells.len() implies out.remove(cell).contains(
            #[trigger] node.cells[i],
        ) by {
            reveal(distinct);
            assert(node.cells[j].rowid != node.cells[i].rowid);
        }
        lemma_rows_back(t1, s1, all, out.remove(cell), node, j + 1);
        let (r2, t2, s2) = t1.reinsert_cells(s1, node, j + 1);
        assert forall|x: i64| #[trigger] t2.aux_of(s2, x) == t.aux_of(s, x) by {
            assert(t1.aux_of(s1, x) == t.aux_of(s, x));
        }
        let rest = node.cells.skip(j + 1);
        assert(node.cells.skip(j) =~= seq![cell] + rest);
        let here = node.cells.skip(j);
        assert forall|c: CellView| #[trigger] here.to_set().contains(c) == (c == cell
            || rest.to_set().contains(c)) by {
            if rest.contains(c) {
                assert(here[rest.index_of(c) + 1] == c);
            }
            if c == cell {
                assert(here[0] == c);
            }
            if here.contains(c) && c != cell {
                assert(rest[here.index_of(c) - 1] == c);
            }
        }
        assert(out.difference(here.to_set()) =~= out.remove(cell).difference(rest.to_set()));
    }
}

/// The depth that the root holds, as far as it is known.
pub open spec fn root_depth(t: TableView, s: StoreView) -> nat {
    node::page_depth(bytes::fitted(s.nodes[1]->Blob_0, t.node_size as nat))
}

/// A node of a pending list is put below the root again.
pub(crate) proof fn lemma_node_back(
    t: TableView,
    s: StoreView,
    all: Set<CellView>,
    out: Set<CellView>,
    adrift: Set<i64>,
    cell: CellView,
    height: usize,
)
    requires
        t.is_filled(s),
        is_torn(t, s, all, out, Set::empty(), adrift),
        adrift.contains(cell.rowid),
        height > 0,
        root_depth(t, s) == height,
        t.forest(s).high,
        t.forest(s).pages[1].len() < t.max_cells(),
        geometry::is_box(cell, t.n_dim2 as nat),
        cell.kept(t.n_dim2 as nat) == cell,
        boxed(cell, t.forest(s).pages[cell.rowid], t.n_dim2 as nat),
    ensures
        ({
            let (r, t2, s2) = t.reinsert_cell(s, cell, height);
            r is Ok ==> {
                &&& t2 == t
                &&& is_torn(t, s2, all, out, Set::empty(), adrift.remove(cell.rowid))
                &&& root_depth(t, s2) == height
                &&& t.forest(s2).high
                &&& t.forest(s2).pages == t.forest(s).pages.insert(
                    1,
                    t.forest(s).pages[1].push(cell),
                )
                &&& s2.aux == s.aux
                &&& t.is_filled(s2)
            }
        }),
{
    reveal(TableView::reinsert_cell);
    reveal(TableView::insert_internal);
    let n_dim2 = t.n_dim2 as nat;
    let f = t.forest(s);
    let none = Set::<i64>::empty();
    let open = Open { loose: numbers(out).union(none), adrift, gap: Set::empty() };
    let (r, t2, s2) = t.reinsert_cell(s, cell, height);
    assert(open.adrift.contains(cell.rowid));
    if r is Ok {
        t.lemma_read(s, 1);
        let root = t.load_root_node(s).0->Ok_0;
        assert(t.read_node(s, 1) == (Ok::<Option<NodeView>, crate::store::Stop>(Some(root)), s));
        reveal(TableView::descend);
        let count = node::page_count(root.data);
        t.lemma_append_holds(root.data, cell);
        t.lemma_slot_inside(count as int);
        t.lemma_room();
        let data = root.placed(n_dim2, t.n_bytes_per_cell as nat, count as int, cell).counted(
            count + 1,
        ).data;
        page_laws::lemma_append_cell(root.data, n_dim2, t.n_bytes_per_cell as nat, cell);
        t.lemma_page_written(s, 1, data);
        t.lemma_sound_page(1, data);
        let s3 = s.issue(WriteView::Node { nodeno: 1, data }).1;
        assert(s3.nodes[1] == NodeRowView::Blob(data));
        t.lemma_read(s3, 1);
        t.lemma_read_parent(s3, 1);
        reveal(TableView::adjust);
        assert(t.adjust(s3, 1, 0).1 == s3);
        t.lemma_parent_written(s3, cell.rowid, 1);
        forest_cut::lemma_node_linked(f, n_dim2, t.node_count, open, cell);
        let g = t.forest(s2);
        assert(g =~= (Forest {
            pages: f.pages.insert(1, f.pages[1].push(cell)),
            up: f.up.insert(cell.rowid, 1),
            ..f
        }));
        assert forall|m: i64| #[trigger] f.pages.contains_key(m) implies g.inner(m) == f.inner(
            m,
        ) by {}
        forest_rows::lemma_same_leaves(f, g);
        forest_fill::lemma_fill_kept(f, g, t.min_cells(), Set::empty(), Set::empty());
        assert forall|c: CellView| #[trigger] out.contains(c) implies g.absent(c.rowid) by {
            assert(f.absent(c.rowid));
        }
    }
}

/// The nodes of a pending list are put below the root again.
pub(crate) proof fn lemma_nodes_back(
    t: TableView,
    s: StoreView,
    all: Set<CellView>,
    out: Set<CellView>,
    node: DetachedView,
    j: int,
)
    requires
        t.is_filled(s),
        0 <= j <= node.cells.len() <= t.max_cells(),
        is_torn(t, s, all, out, Set::empty(), ids(node.cells.skip(j))),
        node.height > 0,
        root_depth(t, s) == node.height,
        t.forest(s).high,
        t.forest(s).pages[1].len() == j,
        distinct(node.cells),
        forall|i: int| j <= i < node.cells.len() ==> {
            let c = #[trigger] node.cells[i];
            &&& c.rowid != 1
            &&& geometry::is_box(c, t.n_dim2 as nat)
            &&& c.kept(t.n_dim2 as nat) == c
            &&& boxed(c, t.forest(s).pages[c.rowid], t.n_dim2 as nat)
        },
    ensures
        ({
            let (r, t2, s2) = t.reinsert_cells(s, node, j);
            r is Ok ==> {
                &&& t2 == t
                &&& is_torn(t, s2, all, out, Set::empty(), Set::empty())
                &&& s2.aux == s.aux
                &&& t.is_filled(s2)
            }
        }),
    decreases node.cells.len() - j,
{
    reveal(TableView::reinsert_cells);
    let drifting = node.cells.skip(j);
    if j >= node.cells.len() {
        assert(ids(drifting) =~= Set::empty()) by {
            reveal(lists);
        }
    } else if t.reinsert_cells(s, node, j).0 is Ok {
        let cell = node.cells[j];
        assert(drifting[0] == cell);
        forest::lemma_lists(drifting, 0);
        lemma_node_back(t, s, all, out, ids(drifting), cell, node.height);
        let s1 = t.reinsert_cell(s, cell, node.height).2;
        let rest = node.cells.skip(j + 1);
        assert(ids(rest) =~= ids(drifting).remove(cell.rowid)) by {
            assert(distinct(drifting)) by {
                reveal(distinct);
                assert forall|a: int, b: int| 0 <= a < b < drifting.len() implies
                    #[trigger] drifting[a].rowid != #[trigger] drifting[b].rowid by {
                    assert(node.cells[a + j].rowid != node.cells[b + j].rowid);
                }
            }
            assert(rest =~= drifting.remove(0));
            forest::lemma_remove(drifting, 0, 0);
        }
        lemma_nodes_back(t, s1, all, out, node, j + 1);
    }
}

/// What a deletion leaves to be put back, where the tree was lowered.
pub open spec fn is_lowered(
    t: TableView,
    s: StoreView,
    all: Set<CellView>,
    out: Set<CellView>,
    node: DetachedView,
) -> bool {
    &&& 0 < node.cells.len() <= t.max_cells()
    &&& distinct(node.cells)
    &&& if node.height == 0 {
        &&& is_torn(t, s, all, out.union(node.cells.to_set()), Set::empty(), Set::empty())
        &&& forall|c: CellView| #[trigger] node.cells.contains(c) ==> !out.contains(c)
    } else {
        &&& is_torn(t, s, all, out, Set::empty(), ids(node.cells))
        &&& root_depth(t, s) == node.height
        &&& t.forest(s).high
        &&& t.forest(s).pages[1].len() == 0
        &&& forall|i: int| 0 <= i < node.cells.len() ==> {
            let c = #[trigger] node.cells[i];
            &&& c.rowid != 1
            &&& geometry::is_box(c, t.n_dim2 as nat)
            &&& c.kept(t.n_dim2 as nat) == c
            &&& boxed(c, t.forest(s).pages[c.rowid], t.n_dim2 as nat)
        }
    }
}

/// The root loses its only child.
proof fn lemma_root_lowered(
    t: TableView,
    s: StoreView,
    all: Set<CellView>,
    out: Set<CellView>,
    root: NodeView,
    child: NodeView,
    pending: Seq<DetachedView>,
)
    requires
        t.is_filled(s),
        is_torn(t, s, all, out, Set::empty(), Set::empty()),
        tree_laws::is_current(t, s, root),
        tree_laws::is_current(t, s, child),
        root.node_no == 1,
        root.tree_depth() > 0,
        t.cells(root.data).len() == 1,
        child.node_no == t.cells(root.data)[0].rowid,
    ensures
        ({
            let leaf = !t.forest(s).inner(child.node_no);
            let depth = TableView::lowered_depth(root.tree_depth(), leaf);
            let (r, t2, s2, p2) = t.lower_root(s, root, child, depth, pending);
            r is Ok ==> {
                let node = DetachedView { cells: t.cells(child.data), height: depth as usize };
                &&& p2 == pending.push(node)
                &&& t2.same_shape(t)
                &&& t2.node_count == t.node_count
                &&& t2.row_count == t.row_count
                &&& s2.aux == s.aux
                &&& t2.is_filled(s2)
                &&& node.cells.len() > 0 ==> is_lowered(t2, s2, all, out, node)
                &&& node.cells.len() == 0 ==> node.height == 0 && is_torn(
                    t2,
                    s2,
                    all,
                    out,
                    Set::empty(),
                    Set::empty(),
                )
            }
        }),
{
    let n_dim2 = t.n_dim2 as nat;
    let f = t.forest(s);
    let none = Set::<i64>::empty();
    let open = Open { loose: numbers(out).union(none), adrift: none, gap: Set::empty() };
    let x = child.node_no;
    let leaf = !f.inner(x);
    let depth = TableView::lowered_depth(root.tree_depth(), leaf);
    let data = root.counted(0).deepened(depth).data;
    t.lemma_room();
    node::lemma_count_round_trip(root.data, 0);
    node::lemma_depth_round_trip(node::with_count(root.data, 0), depth);
    t.lemma_page_written(s, 1, data);
    t.lemma_sound_page(1, data);
    assert(t.cells(data) =~= Seq::empty());
    f.lemma_child(n_dim2, t.node_count, open, 1, 0);
    f.lemma_node(n_dim2, t.node_count, open, x);
    let (r, t2, s2, p2) = t.lower_root(s, root, child, depth, pending);
    if r is Ok {
        let s1 = s.issue(WriteView::Node { nodeno: 1, data }).1;
        t.lemma_node_dropped(s1, x);
        t.lemma_forest_by_shape(t2, s2);
        t.lemma_wf_by_shape(t2, s2);
        let g = t2.forest(s2);
        assert(g =~= f.lowered(x, depth > 0)) by {
            assert(g.pages =~= f.lowered(x, depth > 0).pages);
        }
        assert(s2.nodes[1] == NodeRowView::Blob(data)) by {
            reveal_with_fuel(StoreView::issue_all, 3);
        }
        if leaf {
            lemma_lowered_leaf_off(t, s, all, out, x, child.data, t2, s2);
            forest_fill::lemma_fill_kept(f, g, t.min_cells(), Set::empty(), Set::empty());
            if t.cells(child.data).len() == 0 {
                assert(out.union(t.cells(child.data).to_set()) =~= out);
            }
        } else {
            forest_cut::lemma_root_lowered(f, n_dim2, t.node_count, open);
            assert forall|m: i64| #[trigger] g.pages.contains_key(m) implies g.inner(m) == f.inner(
                m,
            ) by {}
            assert forall|m: i64| #[trigger]
                f.pages.contains_key(m) && !f.inner(m) && f.pages[m].len() > 0 implies {
                &&& g.pages.contains_key(m)
                &&& !g.inner(m)
                &&& g.pages[m] == f.pages[m]
            } by {
                assert(g.pages.contains_key(m));
            }
            forest_rows::lemma_same_leaves(f, g);
            forest_fill::lemma_fill_kept(f, g, t.min_cells(), Set::empty(), Set::empty());
            let cells = t.cells(child.data);
            assert forall|i: int| 0 <= i < cells.len() implies {
                let c = #[trigger] cells[i];
                &&& c.rowid != 1
                &&& geometry::is_box(c, t2.n_dim2 as nat)
                &&& c.kept(t2.n_dim2 as nat) == c
                &&& boxed(c, g.pages[c.rowid], t2.n_dim2 as nat)
            } by {
                f.lemma_child(n_dim2, t.node_count, open, x, i);
                crate::torn_tree::lemma_page_cells_kept(t, child.data, i);
            }
            assert forall|c: CellView| #[trigger] out.contains(c) implies g.absent(c.rowid) by {
                assert(f.absent(c.rowid));
            }
        }
    }
}

/// The only child of the root is a leaf and is dropped.
proof fn lemma_lowered_leaf_off(
    t: TableView,
    s: StoreView,
    all: Set<CellView>,
    out: Set<CellView>,
    x: i64,
    data: Seq<u8>,
    t2: TableView,
    s2: StoreView,
)
    requires
        is_torn(t, s, all, out, Set::empty(), Set::empty()),
        t.forest(s).high,
        t.forest(s).pages[1].len() == 1,
        t.forest(s).pages[1][0].rowid == x,
        !t.forest(s).inner(x),
        t.forest(s).pages[x] == t.cells(data),
        t2.forest(s2) == t.forest(s).lowered(x, false),
        t2.same_shape(t),
        t2.node_count == t.node_count,
        t2.wf(),
        s2.wf(t2),
        s2.connected,
    ensures
        is_torn(t2, s2, all, out.union(t.cells(data).to_set()), Set::empty(), Set::empty()),
        forall|c: CellView| #[trigger] t.cells(data).contains(c) ==> !out.contains(c),
        forall|m: i64| #[trigger]
            t2.forest(s2).pages.contains_key(m) && m != 1 ==> t2.forest(s2).inner(m) == t.forest(
                s,
            ).inner(m),
{
    let n_dim2 = t.n_dim2 as nat;
    let f = t.forest(s);
    let none = Set::<i64>::empty();
    let open = Open { loose: numbers(out).union(none), adrift: none, gap: Set::empty() };
    let g = t2.forest(s2);
    forest_cut::lemma_root_lowered_to_leaf(f, n_dim2, t.node_count, open);
    f.lemma_child(n_dim2, t.node_count, open, 1, 0);
    assert forall|m: i64| #[trigger] g.pages.contains_key(m) && m != 1 implies g.inner(m)
        == f.inner(m) by {
        forest::lemma_kids_stay(f, n_dim2, t.node_count, open, m);
        if f.pages[m].len() > 0 {
            forest::lemma_lists(f.pages[m], 0);
            if f.pages[m][0].rowid == x {
                assert(f.up[x] == 1);
            }
        }
    }
    assert forall|m: i64| #[trigger]
        f.pages.contains_key(m) && !f.inner(m) && f.pages[m].len() > 0 && m != x implies {
        &&& g.pages.contains_key(m)
        &&& !g.inner(m)
        &&& g.pages[m] == f.pages[m]
    } by {
        assert(m != 1);
        assert(g.pages.contains_key(m));
    }
    lemma_leaf_off(t, s, g, t2, s2, all, out, none, none, x, data);
}

/// Lowering the tree where it can be.
pub(crate) proof fn lemma_collapsed(
    t: TableView,
    s: StoreView,
    all: Set<CellView>,
    out: Set<CellView>,
    pending: Seq<DetachedView>,
)
    requires
        t.is_filled(s),
        is_torn(t, s, all, out, Set::empty(), Set::empty()),
    ensures
        ({
            let (r, t2, s2, p2) = t.collapse(s, pending);
            r is Ok ==> {
                &&& t2.same_shape(t)
                &&& t2.node_count == t.node_count
                &&& t2.row_count == t.row_count
                &&& s2.aux == s.aux
                &&& t2.is_filled(s2)
                &&& p2 == pending || (p2.len() == pending.len() + 1 && p2.drop_last() == pending)
                &&& p2 == pending ==> is_torn(t2, s2, all, out, Set::empty(), Set::empty())
                &&& p2 != pending ==> {
                    let node = p2.last();
                    if node.cells.len() == 0 {
                        node.height == 0 && is_torn(t2, s2, all, out, Set::empty(), Set::empty())
                    } else {
                        is_lowered(t2, s2, all, out, node)
                    }
                }
            }
        }),
{
    reveal(TableView::collapse);
    let f = t.forest(s);
    let (r, t2, s2, p2) = t.collapse(s, pending);
    if r is Ok {
        t.lemma_read(s, 1);
        let root = t.read_node(s, 1).0->Ok_0->0;
        if t.read_node(s, 1).0->Ok_0 is Some && root.tree_depth() != 0 && node::page_count(
            root.data,
        ) == 1 {
            let x = t.cells(root.data)[0].rowid;
            t.lemma_read(s, x);
            let child = t.read_node(s, x).0->Ok_0->0;
            t.lemma_told_leaf(s, child);
            lemma_root_lowered(t, s, all, out, root, child, pending);
            assert(p2.drop_last() =~= pending);
        }
    }
}

/// The rows of the leaf that a deletion detached are inserted again.
proof fn lemma_list_back(t: TableView, s: StoreView, all: Set<CellView>, pending: Seq<DetachedView>)
    requires
        t.is_filled(s),
        is_torn(t, s, all, cells_of_all(pending), Set::empty(), Set::empty()),
        pending.len() <= 1,
        pending.len() == 1 ==> pending[0].height == 0 && distinct(pending[0].cells)
            && pending[0].cells.len() <= t.max_cells(),
        0 < t.node_count,
        t.node_count + 2 * t.max_cells() <= i64::MAX,
    ensures
        ({
            let (r, t2, s2) = t.reinsert_all(s, pending);
            r is Ok ==> {
                &&& is_torn(t2, s2, all, Set::empty(), Set::empty(), Set::empty())
                &&& t2.same_shape(t)
                &&& t2.is_filled(s2)
                &&& t.node_count <= t2.node_count <= t.node_count + 2 * t.max_cells()
                &&& counts_on(t, t2, all)
                &&& forall|x: i64| #[trigger] t2.aux_of(s2, x) == t.aux_of(s, x)
            }
        }),
{
    reveal_with_fuel(TableView::reinsert_all, 3);
    let out = cells_of_all(pending);
    if pending.len() == 0 {
        assert(out =~= Set::empty());
    } else {
        let node = pending[0];
        assert forall|i: int| 0 <= i < node.cells.len() implies out.contains(
            #[trigger] node.cells[i],
        ) by {
            assert(pending[0].cells.contains(node.cells[i]));
        }
        lemma_rows_back(t, s, all, out, node, 0);
        assert(node.cells.skip(0) =~= node.cells);
        assert(pending.drop_last() =~= Seq::empty());
        assert(out.difference(node.cells.to_set()) =~= Set::empty());
    }
}

/// All that came off the tree is put back.
proof fn lemma_all_back(
    t: TableView,
    s: StoreView,
    all: Set<CellView>,
    first: Seq<DetachedView>,
    pending: Seq<DetachedView>,
)
    requires
        t.is_filled(s),
        first.len() <= 1,
        first.len() == 1 ==> first[0].height == 0 && distinct(first[0].cells)
            && first[0].cells.len() <= t.max_cells(),
        pending == first || (pending.len() == first.len() + 1 && pending.drop_last() == first),
        pending == first ==> is_torn(t, s, all, cells_of_all(first), Set::empty(), Set::empty()),
        pending != first ==> {
            let node = pending.last();
            if node.cells.len() == 0 {
                node.height == 0 && is_torn(
                    t,
                    s,
                    all,
                    cells_of_all(first),
                    Set::empty(),
                    Set::empty(),
                )
            } else {
                is_lowered(t, s, all, cells_of_all(first), node)
            }
        },
        0 < t.node_count,
        t.node_count + 4 * t.max_cells() <= i64::MAX,
    ensures
        ({
            let (r, t2, s2) = t.reinsert_all(s, pending);
            r is Ok ==> {
                &&& is_torn(t2, s2, all, Set::empty(), Set::empty(), Set::empty())
                &&& t2.same_shape(t)
                &&& t2.is_filled(s2)
                &&& t.node_count <= t2.node_count <= t.node_count + 4 * t.max_cells()
                &&& counts_on(t, t2, all)
                &&& forall|x: i64| #[trigger] t2.aux_of(s2, x) == t.aux_of(s, x)
            }
        }),
{
    let out = cells_of_all(first);
    if pending == first {
        lemma_list_back(t, s, all, first);
    } else {
        reveal(TableView::reinsert_all);
        let (r, t2, s2) = t.reinsert_all(s, pending);
        let node = pending.last();
        let (r1, t1, s1) = t.reinsert_cells(s, node, 0);
        if r is Ok {
            assert(node.cells.skip(0) =~= node.cells);
            if node.cells.len() == 0 {
                reveal(TableView::reinsert_cells);
            } else if node.height == 0 {
                let more = out.union(node.cells.to_set());
                assert forall|i: int| 0 <= i < node.cells.len() implies more.contains(
                    #[trigger] node.cells[i],
                ) by {
                    assert(node.cells.contains(node.cells[i]));
                }
                lemma_rows_back(t, s, all, more, node, 0);
                assert(more.difference(node.cells.to_set()) =~= out) by {
                    assert forall|c: CellView| out.contains(c) implies !node.cells.to_set().contains(
                        c,
                    ) by {
                        if node.cells.contains(c) {
                        }
                    }
                }
            } else {
                lemma_nodes_back(t, s, all, out, node, 0);
            }
            assert forall|x: i64| #[trigger] t1.aux_of(s1, x) == t.aux_of(s, x) by {}
            lemma_list_back(t1, s1, all, first);
            assert forall|x: i64| #[trigger] t2.aux_of(s2, x) == t.aux_of(s, x) by {
                assert(t1.aux_of(s1, x) == t.aux_of(s, x));
            }
        }
    }
}

/// The note of a row that was taken out is dropped.
pub(crate) proof fn lemma_note_dropped(
    t: TableView,
    s: StoreView,
    all: Set<CellView>,
    out: Set<CellView>,
    rowid: i64,
)
    requires
        t.is_filled(s),
        is_torn(t, s, all, out, Set::empty().insert(rowid), Set::empty()),
        forall|c: CellView| #[trigger] all.contains(c) ==> c.rowid != rowid,
    ensures
        ({
            let (r, s2) = s.issue(WriteView::DeleteRowid { rowid });
            r is Ok ==> is_torn(t, s2, all, out, Set::empty(), Set::empty()) && t.is_filled(s2)
        }),
{
    let f = t.forest(s);
    let extra = Set::<i64>::empty().insert(rowid);
    let none = Set::<i64>::empty();
    let open = Open { loose: numbers(out).union(extra), adrift: none, gap: Set::empty() };
    let (r, s2) = s.issue(WriteView::DeleteRowid { rowid });
    if r is Ok {
        t.lemma_row_deleted(s, rowid);
        assert(extra.contains(rowid));
        forest_cut::lemma_row_forgotten(f, t.n_dim2 as nat, t.node_count, open, rowid);
        let g = t.forest(s2);
        assert forall|m: i64| #[trigger] f.pages.contains_key(m) implies g.inner(m) == f.inner(
            m,
        ) by {}
        forest_rows::lemma_same_leaves(f, g);
        forest_fill::lemma_fill_kept(f, g, t.min_cells(), Set::empty(), Set::empty());
        assert(open.loose.remove(rowid) =~= numbers(out).union(none)) by {
            if numbers(out).contains(rowid) {
                let c = choose|c: CellView| #[trigger] out.contains(c) && c.rowid == rowid;
                assert(all.contains(c));
            }
        }
        assert forall|c: CellView| #[trigger] out.contains(c) implies g.absent(c.rowid) by {
            assert(f.absent(c.rowid));
        }
    }
}

/// Deleting a row keeps the tree a tree: no row with that row id is in it any more, and every other
/// row is in it as before, with its box and its auxiliary columns. The highest counted row id is not
/// lower than before.
pub proof fn lemma_delete_keeps_tree(t: TableView, s: StoreView, rowid: i64)
    requires
        t.is_tree(s),
        t.numbers_left((2 * t.max_cells()) as int),
    ensures
        ({
            let (r, t2, s2) = t.delete(s, rowid);
            r is Ok ==> {
                &&& t2.is_tree(s2)
                &&& t2.same_shape(t)
                &&& t2.rows(s2) == without_id(t.rows(s), rowid)
                &&& forall|x: i64| x != rowid ==> #[trigger] t2.aux_of(s2, x) == t.aux_of(s, x)
                &&& t.node_count <= t2.node_count <= t.node_count + 4 * t.max_cells()
                &&& counts_on(t, t2, t.rows(s))
            }
        }),
{
    reveal(TableView::unlink);
    let (r, t2, s2) = t.delete(s, rowid);
    if r is Ok {
        if t.node_count == 0 {
            reveal(TableView::take_out);
            reveal(TableView::collapse);
            reveal(TableView::reinsert_all);
            t.lemma_read_home(s, rowid);
            t.lemma_row_deleted(s, rowid);
            let s1 = s.issue(WriteView::DeleteRowid { rowid }).1;
            t.lemma_read(s1, 1);
            assert(t.forest(s1) =~= Forest::bare());
            assert(t.rows(s2) =~= without_id(t.rows(s), rowid));
        } else {
            let all = without_id(t.rows(s), rowid);
            detach_laws::lemma_taken_out(t, s, rowid);
            let (r1, t1, s1, p1) = t.take_out(s, rowid);
            lemma_note_dropped(t1, s1, all, cells_of_all(p1), rowid);
            t1.lemma_row_deleted(s1, rowid);
            let s3 = s1.issue(WriteView::DeleteRowid { rowid }).1;
            lemma_collapsed(t1, s3, all, cells_of_all(p1), p1);
            let (r4, t4, s4, p4) = t1.collapse(s3, p1);
            lemma_all_back(t4, s4, all, p1, p4);
            assert forall|x: i64| x != rowid implies #[trigger] t2.aux_of(s2, x) == t.aux_of(
                s,
                x,
            ) by {
                assert(t2.aux_of(s2, x) == t4.aux_of(s4, x));
            }
            assert((Open {
                loose: numbers(Set::<CellView>::empty()).union(Set::empty()),
                adrift: Set::empty(),
                gap: Set::empty(),
            }) =~= Open::nothing());
            assert(t2.rows(s2) =~= all);
            assert(counts_on(t4, t2, all));
            assert(all.subset_of(t.rows(s)));
        }
    }
}

/// Every leaf of a tree but the root holds at least the least number of rows.
pub proof fn lemma_leaves_are_filled(t: TableView, s: StoreView, n: i64)
    requires
        t.is_tree(s),
        t.forest(s).pages.contains_key(n),
        !t.forest(s).inner(n),
        n != 1,
    ensures
        t.forest(s).pages[n].len() >= t.min_cells(),
{
    reveal(Forest::filled_but);
}

/// After an insertion that ended well every leaf but the root holds at least the least number of
/// rows.
pub proof fn lemma_insert_fills_leaves(t: TableView, s: StoreView, args: Seq<ArgView>, n: i64)
    requires
        t.is_tree(s),
        t.node_count <= i64::MAX - 2,
        t.insert(s, args).0 is Ok,
        ({
            let f = t.forest(t.insert(s, args).2);
            f.pages.contains_key(n) && !f.inner(n) && n != 1
        }),
    ensures
        t.forest(t.insert(s, args).2).pages[n].len() >= t.min_cells(),
{
    insert_laws::lemma_insert_keeps_tree(t, s, args);
    let (r, t2, s2) = t.insert(s, args);
    t.lemma_forest_by_shape(t2, s2);
    lemma_leaves_are_filled(t2, s2, n);
}

/// After a deletion that ended well every leaf but the root holds at least the least number of rows.
pub proof fn lemma_delete_fills_leaves(t: TableView, s: StoreView, rowid: i64, n: i64)
    requires
        t.is_tree(s),
        t.numbers_left((2 * t.max_cells()) as int),
        t.delete(s, rowid).0 is Ok,
        ({
            let f = t.forest(t.delete(s, rowid).2);
            f.pages.contains_key(n) && !f.inner(n) && n != 1
        }),
    ensures
        t.forest(t.delete(s, rowid).2).pages[n].len() >= t.min_cells(),
{
    lemma_delete_keeps_tree(t, s, rowid);
    let (r, t2, s2) = t.delete(s, rowid);
    t.lemma_forest_by_shape(t2, s2);
    lemma_leaves_are_filled(t2, s2, n);
}

} // verus!
