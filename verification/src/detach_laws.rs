//! Taking a row out of its leaf, and a leaf with too few rows out of the tree.

use vstd::prelude::*;
use crate::forest;
use crate::forest::{distinct, lists, Forest, Open};
use crate::forest_cut;
use crate::forest_fill;
use crate::forest_rows;
use crate::node;
use crate::node::{CellView, NodeView};
use crate::page_laws;
use crate::store::{StoreView, WriteView};
use crate::table;
use crate::table::TableView;
use crate::torn_tree::{
    is_torn, is_trimmed, lemma_fixed_inner, lemma_leaf_off, lemma_trimmed_is_torn, numbers, unique,
};
use crate::tree_delete::DetachedView;
use crate::tree_laws;

verus! {

/// A leaf that its parent does not point to any more keeps its rows.
pub proof fn lemma_rows_unlinked(f: Forest, n_dim2: nat, count: i64, open: Open, p: i64, i: int)
    requires
        f.ok(n_dim2, count, open),
        open.adrift =~= Set::empty(),
        open.gap =~= Set::empty(),
        f.pages.contains_key(p),
        f.inner(p),
        0 <= i < f.pages[p].len(),
        !f.inner(f.pages[p][i].rowid),
    ensures
        ({
            let g = f.with_page(p, f.pages[p].remove(i));
            &&& g.rows() == f.rows()
            &&& forall|r: i64| #[trigger] f.absent(r) ==> g.absent(r)
        }),
{
    let g = f.with_page(p, f.pages[p].remove(i));
    forest_cut::lemma_leaf_unlinked(f, n_dim2, count, open, p, i);
    assert forall|m: i64| f.pages.contains_key(m) && !f.inner(m) implies {
        &&& #[trigger] g.pages.contains_key(m)
        &&& !g.inner(m)
        &&& g.pages[m] == f.pages[m]
    } by {
        assert(g.inner(m) == f.inner(m));
    }
    assert forall|m: i64| #[trigger]
        g.pages.contains_key(m) && !g.inner(m) && g.pages[m].len() > 0 implies {
        &&& f.pages.contains_key(m)
        &&& !f.inner(m)
        &&& f.pages[m] == g.pages[m]
    } by {
        if m != p {
            assert(g.inner(m) == f.inner(m));
        }
    }
    forest_rows::lemma_same_leaves(f, g);
    assert forall|r: i64| #[trigger] f.absent(r) implies g.absent(r) by {
        assert forall|m: i64| #[trigger]
            g.pages.contains_key(m) && !g.inner(m) && m != 0 implies !lists(g.pages[m], r) by {
            if g.pages[m].len() > 0 {
                assert(f.pages.contains_key(m) && !f.inner(m));
            } else {
                reveal(lists);
            }
        }
    }
}

/// A leaf that its parent does not point to any more.
pub proof fn lemma_unlinked(
    t: TableView,
    s: StoreView,
    all: Set<CellView>,
    out: Set<CellView>,
    extra: Set<i64>,
    parent: NodeView,
    idx: int,
)
    requires
        is_torn(t, s, all, out, extra, Set::empty()),
        tree_laws::is_current(t, s, parent),
        t.forest(s).inner(parent.node_no),
        0 <= idx < t.cells(parent.data).len(),
        !t.forest(s).inner(t.cells(parent.data)[idx].rowid),
        t.forest(s).filled_but(
            t.min_cells(),
            Set::empty().insert(t.cells(parent.data)[idx].rowid),
        ),
    ensures
        ({
            let x = t.cells(parent.data)[idx].rowid;
            let p = parent.node_no;
            let data = node::without_cell(parent.data, t.n_bytes_per_cell as nat, idx);
            s.issue(WriteView::Node { nodeno: p, data }) matches (Ok(()), s3) ==> {
                let g = t.forest(s3);
                &&& is_torn(t, s3, all, out, extra, Set::empty().insert(x))
                &&& t.holds(data)
                &&& g.pages[p] == t.cells(data)
                &&& s3.aux == s.aux
                &&& g.pages.contains_key(x)
                &&& g.pages.contains_key(p)
                &&& !g.inner(x)
                &&& x > p >= 1
                &&& g.pages[x] == t.forest(s).pages[x]
                &&& g.inner(1) ==> g.pages[1].len() > 0 || p == 1
                &&& p != 1 && g.pages[p].len() == 0 ==> !g.inner(p)
                &&& g.filled_but(t.min_cells(), Set::empty().insert(x).insert(p))
                &&& p == 1 || g.pages[p].len() > 0 ==> g.filled_but(
                    t.min_cells(),
                    Set::empty().insert(x),
                )
            }
        }),
{
    let n_dim2 = t.n_dim2 as nat;
    let p = parent.node_no;
    let f = t.forest(s);
    let open = Open { loose: numbers(out).union(extra), adrift: Set::empty(), gap: Set::empty() };
    let x = f.pages[p][idx].rowid;
    let data = node::without_cell(parent.data, t.n_bytes_per_cell as nat, idx);
    t.lemma_room();
    t.lemma_without_holds(parent.data, idx);
    page_laws::lemma_delete_cell(parent.data, n_dim2, t.n_bytes_per_cell as nat, idx);
    t.lemma_page_written(s, p, data);
    f.lemma_child(n_dim2, t.node_count, open, p, idx);
    f.lemma_node(n_dim2, t.node_count, open, 1);
    f.lemma_node(n_dim2, t.node_count, open, p);
    forest_cut::lemma_leaf_unlinked(f, n_dim2, t.node_count, open, p, idx);
    lemma_rows_unlinked(f, n_dim2, t.node_count, open, p, idx);
    if let (Ok(()), s3) = s.issue(WriteView::Node { nodeno: p, data }) {
        let g = t.forest(s3);
        assert(g =~= f.with_page(p, f.pages[p].remove(idx)));
        assert(open.adrift.insert(x) =~= Set::empty().insert(x));
        let skip = Set::<i64>::empty().insert(x);
        assert forall|m: i64| #[trigger] g.pages.contains_key(m) && m != 1 && m != x && m != p
            && !g.inner(m) implies f.pages.contains_key(m) && !f.inner(m) && g.pages[m]
            == f.pages[m] by {
            assert(g.inner(m) == f.inner(m));
        }
        forest_fill::lemma_fill_kept(f, g, t.min_cells(), skip, skip.insert(p));
        if p == 1 || g.pages[p].len() > 0 {
            forest_fill::lemma_fill_kept(f, g, t.min_cells(), skip, skip);
        }
    }
}

/// Dropping a leaf that is adrift: its rows are off the tree.
pub proof fn lemma_dropped(
    t: TableView,
    s: StoreView,
    all: Set<CellView>,
    out: Set<CellView>,
    extra: Set<i64>,
    x: i64,
    data: Seq<u8>,
    skip: Set<i64>,
)
    requires
        is_torn(t, s, all, out, extra, Set::empty().insert(x)),
        t.forest(s).pages.contains_key(x),
        !t.forest(s).inner(x),
        t.forest(s).inner(1) ==> t.forest(s).pages[1].len() > 0,
        t.forest(s).pages[x] == t.cells(data),
        t.forest(s).filled_but(t.min_cells(), skip.insert(x)),
    ensures
        ({
            let (r, s2) = s.issue_all(TableView::drop_writes(x));
            let f = t.forest(s);
            r is Ok ==> {
                &&& is_torn(t, s2, all, out.union(t.cells(data).to_set()), extra, Set::empty())
                &&& s2.aux == s.aux
                &&& distinct(t.cells(data))
                &&& forall|c: CellView| #[trigger] t.cells(data).contains(c) ==> !out.contains(c)
                &&& t.forest(s2).pages == f.pages.remove(x)
                &&& forall|m: i64| #[trigger]
                    f.pages.contains_key(m) && m != x ==> t.forest(s2).inner(m) == f.inner(m)
                &&& t.forest(s2).filled_but(t.min_cells(), skip)
            }
        }),
{
    let n_dim2 = t.n_dim2 as nat;
    let f = t.forest(s);
    let adrift = Set::<i64>::empty().insert(x);
    let open = Open { loose: numbers(out).union(extra), adrift, gap: Set::empty() };
    assert(open.adrift.contains(x));
    f.lemma_node(n_dim2, t.node_count, open, x);
    forest_cut::lemma_leaf_dropped(f, n_dim2, t.node_count, open, x);
    t.lemma_node_dropped(s, x);
    let (r, s2) = s.issue_all(TableView::drop_writes(x));
    if r is Ok {
        let g = t.forest(s2);
        assert forall|m: i64| #[trigger] f.pages.contains_key(m) && m != x implies g.inner(m)
            == f.inner(m) by {
            lemma_inner_without(f, n_dim2, t.node_count, open, x, m);
        }
        assert forall|m: i64| #[trigger] g.pages.contains_key(m) implies f.pages.contains_key(m)
            && m != x && g.inner(m) == f.inner(m) by {}
        lemma_leaf_off(t, s, g, t, s2, all, out, extra, adrift, x, data);
        forest_fill::lemma_fill_kept(f, g, t.min_cells(), skip.insert(x), skip);
    }
}

/// A leaf that is taken out of its parent: its rows are off the tree.
pub proof fn lemma_detached(
    t: TableView,
    s: StoreView,
    all: Set<CellView>,
    out: Set<CellView>,
    extra: Set<i64>,
    n: NodeView,
    guard: nat,
)
    requires
        is_torn(t, s, all, out, extra, Set::empty()),
        tree_laws::is_current(t, s, n),
        !t.forest(s).inner(n.node_no),
        t.forest(s).filled_but(t.min_cells(), Set::empty().insert(n.node_no)),
    ensures
        ({
            let (r, t2, s2) = t.detach(s, n.node_no, guard);
            r is Ok ==> {
                &&& is_torn(t2, s2, all, out.union(t.cells(n.data).to_set()), extra, Set::empty())
                &&& t2.same_shape(t)
                &&& t2.node_count == t.node_count
                &&& t2.row_count == t.row_count
                &&& s2.aux == s.aux
                &&& distinct(t.cells(n.data))
                &&& t2.forest(s2).filled(t.min_cells())
            }
        }),
    decreases t.max_fixes() + 1 - guard,
{
    reveal(TableView::detach);
    let x = n.node_no;
    if t.detach(s, x, guard).0 is Ok {
        let p = t.get_parent_nodeno(s, x).0->Ok_0->0;
        let parent = t.read_node(s, p).0->Ok_0->0;
        let idx = table::index_of_rowid(t.cells(parent.data), x)->0;
        lemma_parent_at_hand(t, s, all, out, extra, x);
        lemma_unlinked(t, s, all, out, extra, parent, idx);
        let data = node::without_cell(parent.data, t.n_bytes_per_cell as nat, idx);
        let s3 = s.issue(WriteView::Node { nodeno: p, data }).1;
        if p != 1 && node::page_count(data) == 0 {
            let above = NodeView { data, ..parent };
            lemma_dropped_below(t, s3, all, out, extra, x, above, n.data);
            let s4 = s3.issue_all(TableView::drop_writes(x)).1;
            let more = out.union(t.cells(n.data).to_set());
            lemma_detached(t, s4, all, more, extra, above, guard + 1);
            assert(more.union(t.cells(data).to_set()) =~= more) by {
                assert(t.cells(data).len() == 0);
            }
        } else {
            lemma_detached_leaf_dropped(t, s3, all, out, extra, x, p, n.data, guard);
        }
    }
}

/// The parent of a node that was read points to it.
pub proof fn lemma_parent_at_hand(
    t: TableView,
    s: StoreView,
    all: Set<CellView>,
    out: Set<CellView>,
    extra: Set<i64>,
    x: i64,
)
    requires
        is_torn(t, s, all, out, extra, Set::empty()),
    ensures
        t.get_parent_nodeno(s, x).0 is Ok ==> t.get_parent_nodeno(s, x).1 == s,
        t.get_parent_nodeno(s, x).0 matches Ok(Some(p)) ==> {
            &&& t.forest(s).up.contains_key(x)
            &&& t.forest(s).up[x] == p
            &&& t.forest(s).pages.contains_key(p)
            &&& t.forest(s).inner(p)
            &&& 1 <= p < x
            &&& t.read_node(s, p).0 is Ok ==> t.read_node(s, p).1 == s
            &&& t.read_node(s, p).0 matches Ok(found) ==> {
                let parent = found->0;
                let idx = table::index_of_rowid(t.cells(parent.data), x)->0;
                &&& found is Some
                &&& tree_laws::is_current(t, s, parent)
                &&& parent.node_no == p
                &&& table::index_of_rowid(t.cells(parent.data), x) is Some
                &&& 0 <= idx < t.cells(parent.data).len()
                &&& t.cells(parent.data)[idx].rowid == x
            }
        },
{
    let f = t.forest(s);
    let open = Open { loose: numbers(out).union(extra), adrift: Set::empty(), gap: Set::empty() };
    t.lemma_read_parent(s, x);
    if let Ok(Some(p)) = t.get_parent_nodeno(s, x).0 {
        t.lemma_read(s, p);
        assert(f.up_ok(open, x));
        f.lemma_numbered(t.n_dim2 as nat, t.node_count, open);
        f.lemma_node(t.n_dim2 as nat, t.node_count, open, p);
        forest::lemma_kids_stay(f, t.n_dim2 as nat, t.node_count, open, p);
        if let Ok(Some(parent)) = t.read_node(s, p).0 {
            table::lemma_found_by_rowid(t.cells(parent.data), x);
            let k = forest::lemma_place(f.pages[p], x);
        }
    }
}

/// A leaf is dropped whose parent has no cells left.
pub(crate) proof fn lemma_dropped_below(
    t: TableView,
    s: StoreView,
    all: Set<CellView>,
    out: Set<CellView>,
    extra: Set<i64>,
    x: i64,
    above: NodeView,
    data: Seq<u8>,
)
    requires
        is_torn(t, s, all, out, extra, Set::empty().insert(x)),
        t.forest(s).pages.contains_key(x),
        t.forest(s).pages.contains_key(above.node_no),
        t.forest(s).pages[above.node_no] == t.cells(above.data),
        t.holds(above.data),
        above.node_no != 1,
        !t.forest(s).inner(above.node_no),
        !t.forest(s).inner(x),
        x != above.node_no,
        t.forest(s).inner(1) ==> t.forest(s).pages[1].len() > 0,
        t.forest(s).pages[x] == t.cells(data),
        t.forest(s).filled_but(t.min_cells(), Set::empty().insert(x).insert(above.node_no)),
    ensures
        ({
            let (r, s2) = s.issue_all(TableView::drop_writes(x));
            r is Ok ==> {
                &&& is_torn(t, s2, all, out.union(t.cells(data).to_set()), extra, Set::empty())
                &&& tree_laws::is_current(t, s2, above)
                &&& !t.forest(s2).inner(above.node_no)
                &&& t.forest(s2).filled_but(t.min_cells(), Set::empty().insert(above.node_no))
                &&& s2.aux == s.aux
                &&& distinct(t.cells(data))
            }
        }),
{
    let p = above.node_no;
    let skip = Set::<i64>::empty().insert(p);
    assert(Set::<i64>::empty().insert(x).insert(p) =~= skip.insert(x));
    lemma_dropped(t, s, all, out, extra, x, data, skip);
    assert(t.forest(s).pages.contains_key(p) && p != x);
}

/// The parent of a leaf that is adrift is mended and the leaf is dropped.
pub proof fn lemma_detached_leaf_dropped(
    t: TableView,
    s: StoreView,
    all: Set<CellView>,
    out: Set<CellView>,
    extra: Set<i64>,
    x: i64,
    p: i64,
    data: Seq<u8>,
    guard: nat,
)
    requires
        is_torn(t, s, all, out, extra, Set::empty().insert(x)),
        t.forest(s).pages.contains_key(x),
        t.forest(s).pages.contains_key(p),
        !t.forest(s).inner(x),
        x != p,
        t.forest(s).inner(1) ==> t.forest(s).pages[1].len() > 0 || p == 1,
        t.forest(s).pages[x] == t.cells(data),
        t.forest(s).filled_but(t.min_cells(), Set::empty().insert(x)),
    ensures
        ({
            let (r, t2, s2) = t.fix_inner(s, p, guard);
            let (r2, s3) = s2.issue_all(TableView::drop_writes(x));
            r is Ok && r2 is Ok ==> {
                &&& is_torn(t2, s3, all, out.union(t.cells(data).to_set()), extra, Set::empty())
                &&& t2.same_shape(t)
                &&& t2.node_count == t.node_count
                &&& t2.row_count == t.row_count
                &&& s3.aux == s.aux
                &&& distinct(t.cells(data))
                &&& t2.forest(s3).filled(t.min_cells())
            }
        }),
{
    let f = t.forest(s);
    let adrift = Set::<i64>::empty().insert(x);
    let open = Open { loose: numbers(out).union(extra), adrift, gap: Set::empty() };
    lemma_fixed_inner(t, s, open, p, guard);
    let (r, t2, s2) = t.fix_inner(s, p, guard);
    if r is Ok {
        lemma_trimmed_is_torn(t, s, t2, s2, all, out, extra, adrift);
        let g = t2.forest(s2);
        assert(g.pages.dom().contains(x));
        assert(open.adrift.contains(x));
        assert(x != 1);
        assert(g.inner(x) == f.inner(x));
        assert(g.pages[x] == f.pages[x]);
        assert(t2.cells(data) == t.cells(data));
        lemma_trimmed_fill(t, s, t2, s2, adrift);
        assert(Set::<i64>::empty().insert(x) =~= adrift);
        lemma_dropped(t2, s2, all, out, extra, x, data, Set::empty());
    }
}

/// Restoring the tree leaves the leaves as well filled as they were.
pub proof fn lemma_trimmed_fill(
    t: TableView,
    s: StoreView,
    t2: TableView,
    s2: StoreView,
    skip: Set<i64>,
)
    requires
        is_trimmed(t, s, t2, s2),
        t.forest(s).filled_but(t.min_cells(), skip),
    ensures
        t2.forest(s2).filled_but(t.min_cells(), skip),
{
    let f = t.forest(s);
    let g = t2.forest(s2);
    assert forall|m: i64| #[trigger] g.pages.contains_key(m) && m != 1 && !g.inner(m) implies
        f.pages.contains_key(m) && !f.inner(m) && g.pages[m] == f.pages[m] by {
        assert(f.pages.dom().contains(m));
        assert(g.inner(m) == f.inner(m));
    }
    forest_fill::lemma_fill_kept(f, g, t.min_cells(), skip, skip);
}

/// Dropping a leaf that is adrift leaves the other nodes what they are.
pub proof fn lemma_inner_without(f: Forest, n_dim2: nat, count: i64, open: Open, x: i64, m: i64)
    requires
        f.ok(n_dim2, count, open),
        open.adrift.contains(x),
        f.pages.contains_key(m),
        m != x,
    ensures
        (Forest { pages: f.pages.remove(x), up: f.up.remove(x), ..f }).inner(m) == f.inner(m),
{
    forest::lemma_kids_stay(f, n_dim2, count, open, m);
    if m != 1 && f.pages[m].len() > 0 {
        forest::lemma_lists(f.pages[m], 0);
    }
}

/// Restoring the tree after a row was taken out of a leaf.
pub proof fn lemma_fixed(
    t: TableView,
    s: StoreView,
    all: Set<CellView>,
    extra: Set<i64>,
    n: i64,
)
    requires
        is_torn(t, s, all, Set::empty(), extra, Set::empty()),
        t.forest(s).pages.contains_key(n),
        !t.forest(s).inner(n),
        t.forest(s).filled_but(t.min_cells(), Set::empty().insert(n)),
    ensures
        t.fix(s, n, 0, Seq::empty(), 0) matches (Ok(()), t2, s2, p2) ==> {
            &&& is_torn(t2, s2, all, cells_of_all(p2), extra, Set::empty())
            &&& p2.len() <= 1
            &&& p2.len() == 1 ==> p2[0].height == 0 && distinct(p2[0].cells)
                && p2[0].cells.len() <= t.max_cells()
            &&& t2.same_shape(t)
            &&& t2.node_count == t.node_count
            &&& t2.row_count == t.row_count
            &&& s2.aux == s.aux
            &&& t2.forest(s2).filled(t.min_cells())
        },
{
    reveal(TableView::fix);
    let f = t.forest(s);
    let none = Set::<CellView>::empty();
    let open = Open { loose: numbers(none).union(extra), adrift: Set::empty(), gap: Set::empty() };
    f.lemma_numbered(t.n_dim2 as nat, t.node_count, open);
    t.lemma_read(s, n);
    lemma_fixed_inner(t, s, open, n, 0);
    let (r, t2, s2, p2) = t.fix(s, n, 0, Seq::empty(), 0);
    if r is Ok {
        let node = t.read_node(s, n).0->Ok_0->0;
        if n != 1 && node::page_count(node.data) < t.min_cells() {
            lemma_detached(t, s, all, none, extra, node, 1);
            assert(none.union(t.cells(node.data).to_set()) =~= t.cells(node.data).to_set());
            assert(cells_of_all(p2) =~= t.cells(node.data).to_set()) by {
                lemma_cells_of_one(t.cells(node.data), p2);
            }
        } else {
            lemma_trimmed_is_torn(t, s, t2, s2, all, none, extra, Set::empty());
            assert(cells_of_all(p2) =~= none);
            lemma_trimmed_fill(t, s, t2, s2, Set::empty().insert(n));
            let g = t2.forest(s2);
            assert(n != 1 ==> g.pages[n] == f.pages[n]);
            forest_fill::lemma_fill_settled(g, t.min_cells(), n);
        }
    }
}

/// The cells of a list of detached nodes.
pub open spec fn cells_of_all(pending: Seq<DetachedView>) -> Set<CellView> {
    Set::new(
        |c: CellView|
            exists|i: int|
                0 <= i < pending.len() && #[trigger] pending[i].cells.contains(c),
    )
}

pub proof fn lemma_cells_of_one(cells: Seq<CellView>, pending: Seq<DetachedView>)
    requires
        pending.len() == 1,
        pending[0].cells == cells,
    ensures
        cells_of_all(pending) =~= cells.to_set(),
{
    assert forall|c: CellView| cells_of_all(pending).contains(c) == cells.to_set().contains(c) by {
        if cells.contains(c) {
            assert(pending[0].cells.contains(c));
        }
    }
}

/// Taking a row out of the tree: what comes off the tree with it is on the pending list.
pub proof fn lemma_taken_out(t: TableView, s: StoreView, rowid: i64)
    requires
        t.is_tree(s),
        t.node_count > 0,
    ensures
        t.take_out(s, rowid) matches (Ok(()), t2, s2, p2) ==> {
            &&& is_torn(
                t2,
                s2,
                without_id(t.rows(s), rowid),
                cells_of_all(p2),
                Set::empty().insert(rowid),
                Set::empty(),
            )
            &&& p2.len() <= 1
            &&& p2.len() == 1 ==> p2[0].height == 0 && distinct(p2[0].cells)
                && p2[0].cells.len() <= t.max_cells()
            &&& t2.same_shape(t)
            &&& t2.node_count == t.node_count
            &&& t2.row_count == t.row_count
            &&& s2.aux == s.aux
            &&& t2.forest(s2).filled(t.min_cells())
        },
{
    reveal(TableView::take_out);
    let n_dim2 = t.n_dim2 as nat;
    let f = t.forest(s);
    let none = Set::<CellView>::empty();
    let extra = Set::<i64>::empty().insert(rowid);
    let all = without_id(t.rows(s), rowid);
    t.lemma_read_home(s, rowid);
    assert(unique(all)) by {
        assert forall|c: CellView, d: CellView|
            #[trigger] all.contains(c) && #[trigger] all.contains(d) && c.rowid
                == d.rowid implies c == d by {
            forest_rows::lemma_rows_by_id(f, n_dim2, t.node_count, c.rowid);
            assert(f.holds(c) && f.holds(d));
        }
    }
    assert(numbers(none) =~= Set::empty());
    let (r, t2, s2, p2) = t.take_out(s, rowid);
    if r is Ok {
        forest_rows::lemma_rows_by_id(f, n_dim2, t.node_count, rowid);
        match t.get_rowid_nodeno(s, rowid).0->Ok_0 {
            None => {
                forest::lemma_unnoted_is_absent(
                    f,
                    n_dim2,
                    t.node_count,
                    Open::nothing(),
                    rowid,
                );
                forest::lemma_less_asked(
                    f,
                    n_dim2,
                    t.node_count,
                    t.node_count,
                    Open::nothing(),
                    extra,
                );
                assert(cells_of_all(p2) =~= none);
                assert((Open { loose: extra, ..Open::nothing() }) =~= (Open {
                    loose: numbers(none).union(extra),
                    adrift: Set::empty(),
                    gap: Set::empty(),
                }));
                assert(f.rows() =~= all) by {
                    assert forall|c: CellView| f.rows().contains(c) implies c.rowid != rowid by {
                        assert(f.holds(c));
                    }
                }
                assert(all.difference(none) =~= all);
            },
            Some(n) => {
                f.lemma_numbered(n_dim2, t.node_count, Open::nothing());
                t.lemma_read(s, n);
                let node = t.read_node(s, n).0->Ok_0->0;
                table::lemma_found_by_rowid(t.cells(node.data), rowid);
                let k = forest::lemma_place(f.pages[n], rowid);
                let idx = table::index_of_rowid(t.cells(node.data), rowid)->0;
                lemma_cell_out(t, s, node, idx);
                let data = node::without_cell(node.data, t.n_bytes_per_cell as nat, idx);
                let s3 = s.issue(WriteView::Node { nodeno: n, data }).1;
                lemma_fixed(t, s3, all, extra, n);
            },
        }
    }
}

/// The rows without the one with the given row id.
pub open spec fn without_id(rows: Set<CellView>, rowid: i64) -> Set<CellView> {
    Set::new(|c: CellView| rows.contains(c) && c.rowid != rowid)
}

/// The cell of a row is taken out of its leaf.
#[verifier::rlimit(30)]
pub proof fn lemma_cell_out(t: TableView, s: StoreView, n: NodeView, idx: int)
    requires
        t.grows(s, Open::nothing()),
        tree_laws::is_current(t, s, n),
        !t.forest(s).inner(n.node_no),
        0 <= idx < t.cells(n.data).len(),
        t.forest(s).filled(t.min_cells()),
    ensures
        ({
            let rowid = t.cells(n.data)[idx].rowid;
            let data = node::without_cell(n.data, t.n_bytes_per_cell as nat, idx);
            s.issue(WriteView::Node { nodeno: n.node_no, data }) matches (Ok(()), s3) ==> {
                &&& is_torn(
                    t,
                    s3,
                    without_id(t.rows(s), rowid),
                    Set::empty(),
                    Set::empty().insert(rowid),
                    Set::empty(),
                )
                &&& t.forest(s3).pages.contains_key(n.node_no)
                &&& !t.forest(s3).inner(n.node_no)
                &&& s3.aux == s.aux
                &&& t.forest(s3).filled_but(t.min_cells(), Set::empty().insert(n.node_no))
            }
        }),
{
    let n_dim2 = t.n_dim2 as nat;
    let f = t.forest(s);
    let cell = t.cells(n.data)[idx];
    let rowid = cell.rowid;
    let none = Set::<CellView>::empty();
    let extra = Set::<i64>::empty().insert(rowid);
    let all = without_id(t.rows(s), rowid);
    let data = node::without_cell(n.data, t.n_bytes_per_cell as nat, idx);
    t.lemma_room();
    t.lemma_without_holds(n.data, idx);
    page_laws::lemma_delete_cell(n.data, n_dim2, t.n_bytes_per_cell as nat, idx);
    t.lemma_page_written(s, n.node_no, data);
    if let (Ok(()), s3) = s.issue(WriteView::Node { nodeno: n.node_no, data }) {
        let g = t.forest(s3);
        f.lemma_node(n_dim2, t.node_count, Open::nothing(), n.node_no);
        forest::lemma_lists(f.pages[n.node_no], idx);
        forest_rows::lemma_noted_row_is_unique(
            f,
            n_dim2,
            t.node_count,
            Open::nothing(),
            n.node_no,
            rowid,
        );
        forest_cut::lemma_row_removed(f, n_dim2, t.node_count, Open::nothing(), n.node_no, idx);
        assert(g =~= f.with_page(n.node_no, f.pages[n.node_no].remove(idx)));
        forest_rows::lemma_rows_with_one_less(f, n.node_no, idx);
        let skip = Set::<i64>::empty().insert(n.node_no);
        assert forall|m: i64| #[trigger] g.pages.contains_key(m) && m != 1 && !skip.contains(m)
            && !g.inner(m) implies f.pages.contains_key(m) && !f.inner(m) && g.pages[m]
            == f.pages[m] by {
            assert(g.inner(m) == f.inner(m));
        }
        forest_fill::lemma_fill_kept(f, g, t.min_cells(), Set::empty(), skip);
        forest_rows::lemma_rows_by_id(f, n_dim2, t.node_count, rowid);
        assert(f.pages[n.node_no].contains(cell));
        assert(f.holds(cell));
        assert(g.rows() =~= all) by {
            assert forall|c: CellView| f.rows().remove(cell).contains(c) implies c.rowid
                != rowid by {
                assert(f.holds(c));
            }
        }
        assert(all.difference(none) =~= all);
        assert(unique(all)) by {
            assert forall|c: CellView, d: CellView|
                #[trigger] all.contains(c) && #[trigger] all.contains(d) && c.rowid
                    == d.rowid implies c == d by {
                forest_rows::lemma_rows_by_id(f, n_dim2, t.node_count, c.rowid);
                assert(f.holds(c) && f.holds(d));
            }
        }
        assert(numbers(none) =~= Set::empty());
        assert((Open { loose: Set::<i64>::empty().insert(rowid), ..Open::nothing() }) =~= (Open {
            loose: numbers(none).union(extra),
            adrift: Set::empty(),
            gap: Set::empty(),
        }));
    }
}

} // verus!
