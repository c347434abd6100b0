//! Taking rows and nodes off the tree, and putting nodes back.

use vstd::prelude::*;
use crate::forest::{
    boxed, boxes, distinct, ids, lemma_kids_stay, lemma_lists, lemma_place, lemma_push,
    lemma_remove, lists, Forest, Open,
};
use crate::geometry;
use crate::node::CellView;

verus! {

/// A row taken out of its leaf is loose, and the rest is as it was.
pub proof fn lemma_row_removed(f: Forest, n_dim2: nat, count: i64, open: Open, n: i64, i: int)
    requires
        f.ok(n_dim2, count, open),
        open.adrift =~= Set::empty(),
        f.pages.contains_key(n),
        !f.inner(n),
        0 <= i < f.pages[n].len(),
        f.only_in(f.pages[n][i].rowid, n),
    ensures
        ({
            let r = f.pages[n][i].rowid;
            let g = f.with_page(n, f.pages[n].remove(i));
            &&& g.ok(n_dim2, count, (Open { loose: open.loose.insert(r), ..open }))
            &&& g.absent(r)
            &&& !g.inner(n)
            &&& forall|m: i64| f.pages.contains_key(m) ==> #[trigger] g.inner(m) == f.inner(m)
        }),
{
    let cells = f.pages[n].remove(i);
    let r = f.pages[n][i].rowid;
    let g = f.with_page(n, cells);
    let after = Open { loose: open.loose.insert(r), ..open };
    f.lemma_node(n_dim2, count, open, n);
    lemma_remove(f.pages[n], i, n_dim2);
    assert(!g.inner(n)) by {
        if n != 1 && cells.len() > 0 && f.up.contains_key(cells[0].rowid) && f.up[cells[0].rowid]
            == n {
            assert(f.up_ok(open, cells[0].rowid));
        }
    }
    assert forall|m: i64| f.pages.contains_key(m) implies #[trigger] g.inner(m) == f.inner(m) by {}
    assert forall|m: i64| #[trigger] g.pages.contains_key(m) implies g.node_ok(
        n_dim2,
        count,
        after,
        m,
    ) by {
        assert(f.pages.contains_key(m));
        assert(f.node_ok(n_dim2, count, open, m));
        assert(g.inner(m) == f.inner(m));
        if m == n {
            reveal(Forest::node_ok);
            reveal(Forest::rows_ok);
        } else if f.inner(m) {
            reveal(Forest::node_ok);
            reveal(Forest::kids_ok);
            assert(f.kids_ok(n_dim2, open, m));
            assert forall|k: int| 0 <= k < g.pages[m].len() implies g.child_ok(
                n_dim2,
                after,
                m,
                #[trigger] g.pages[m][k],
            ) by {
                let c = f.pages[m][k];
                assert(f.child_ok(n_dim2, open, m, c));
                assert(boxed(c, f.pages[n], n_dim2) ==> boxed(c, cells, n_dim2));
            }
        } else {
            lemma_kids_stay(f, n_dim2, count, open, m);
            f.lemma_frame(g, n_dim2, count, count, open, after, m);
        }
    }
    assert forall|c: i64| #[trigger] g.up.contains_key(c) implies g.up_ok(after, c) by {
        assert(f.up_ok(open, c));
        assert(g.inner(f.up[c]) == f.inner(f.up[c]));
    }
    assert forall|x: i64| #[trigger] g.home.contains_key(x) implies g.home_ok(after, x) by {
        assert(f.home_ok(open, x));
        assert(f.pages.contains_key(f.home[x]) ==> g.inner(f.home[x]) == f.inner(f.home[x]));
    }
    assert forall|m: i64| #[trigger]
        g.pages.contains_key(m) && !g.inner(m) && m != 0 implies !lists(g.pages[m], r) by {
        assert(f.pages.contains_key(m) && g.inner(m) == f.inner(m));
    }
}

/// Forgetting the node of a row that is in no leaf mends the row.
pub proof fn lemma_row_forgotten(f: Forest, n_dim2: nat, count: i64, open: Open, r: i64)
    requires
        f.ok(n_dim2, count, open),
        f.absent(r),
    ensures
        (Forest { home: f.home.remove(r), ..f }).ok(
            n_dim2,
            count,
            (Open { loose: open.loose.remove(r), ..open }),
        ),
{
    let g = Forest { home: f.home.remove(r), ..f };
    let after = Open { loose: open.loose.remove(r), ..open };
    assert forall|m: i64| #[trigger] g.pages.contains_key(m) implies g.node_ok(
        n_dim2,
        count,
        after,
        m,
    ) by {
        assert(f.node_ok(n_dim2, count, open, m));
        f.lemma_node(n_dim2, count, open, m);
        assert(g.inner(m) == f.inner(m));
        reveal(Forest::node_ok);
        reveal(Forest::kids_ok);
        reveal(Forest::rows_ok);
        if f.inner(m) {
            assert forall|k: int| 0 <= k < g.pages[m].len() implies g.child_ok(
                n_dim2,
                after,
                m,
                #[trigger] g.pages[m][k],
            ) by {
                assert(f.child_ok(n_dim2, open, m, f.pages[m][k]));
            }
        } else {
            assert(!lists(f.pages[m], r));
            assert forall|x: i64| #[trigger] lists(g.pages[m], x) implies g.row_ok(after, m, x) by {
                assert(f.row_ok(open, m, x));
            }
        }
    }
    assert forall|c: i64| #[trigger] g.up.contains_key(c) implies g.up_ok(after, c) by {
        assert(f.up_ok(open, c));
        assert(g.inner(f.up[c]) == f.inner(f.up[c]));
    }
    assert forall|x: i64| #[trigger] g.home.contains_key(x) implies g.home_ok(after, x) by {
        assert(f.home_ok(open, x));
        assert(g.inner(f.home[x]) == f.inner(f.home[x]));
    }
}

/// A leaf that its parent does not point to any more is adrift, and the rest is as it was. A parent
/// other than the root that has no cells left is a leaf itself.
pub proof fn lemma_leaf_unlinked(f: Forest, n_dim2: nat, count: i64, open: Open, p: i64, i: int)
    requires
        f.ok(n_dim2, count, open),
        open.adrift =~= Set::empty(),
        open.gap =~= Set::empty(),
        f.pages.contains_key(p),
        f.inner(p),
        0 <= i < f.pages[p].len(),
        !f.inner(f.pages[p][i].rowid),
    ensures
        ({
            let x = f.pages[p][i].rowid;
            let g = f.with_page(p, f.pages[p].remove(i));
            &&& g.ok(n_dim2, count, (Open { adrift: open.adrift.insert(x), ..open }))
            &&& g.pages.contains_key(x)
            &&& !g.inner(x)
            &&& x != p && x != 1
            &&& g.pages[x] == f.pages[x]
            &&& f.pages[p].len() > 1 ==> g.inner(p)
            &&& forall|m: i64|
                f.pages.contains_key(m) && m != p ==> #[trigger] g.inner(m) == f.inner(m)
            &&& forall|c: i64| #[trigger]
                g.up.contains_key(c) && g.up[c] == p && c != x ==> lists(g.pages[p], c)
        }),
{
    let x = f.pages[p][i].rowid;
    let cells = f.pages[p].remove(i);
    let g = f.with_page(p, cells);
    let after = Open { adrift: open.adrift.insert(x), ..open };
    f.lemma_node(n_dim2, count, open, p);
    f.lemma_child(n_dim2, count, open, p, i);
    lemma_remove(f.pages[p], i, n_dim2);
    lemma_kids_stay(f, n_dim2, count, open, p);
    assert(after.adrift.contains(x));
    if f.pages[p].len() > 1 {
        lemma_lists(cells, 0);
        assert(lists(f.pages[p], cells[0].rowid));
        assert(g.inner(p));
    }
    assert forall|c: i64| #[trigger] g.up.contains_key(c) && g.up[c] == p && c != x implies lists(
        g.pages[p],
        c,
    ) by {
        assert(f.up_ok(open, c));
    }
    assert forall|m: i64| f.pages.contains_key(m) && m != p implies #[trigger] g.inner(m)
        == f.inner(m) by {}
    assert forall|m: i64| #[trigger] g.pages.contains_key(m) implies g.node_ok(
        n_dim2,
        count,
        after,
        m,
    ) by {
        assert(f.pages.contains_key(m));
        assert(f.node_ok(n_dim2, count, open, m));
        if m == p {
            reveal(Forest::node_ok);
            reveal(Forest::kids_ok);
            reveal(Forest::rows_ok);
            reveal(lists);
            if g.inner(p) {
                assert forall|k: int| 0 <= k < cells.len() implies g.child_ok(
                    n_dim2,
                    after,
                    p,
                    #[trigger] g.pages[p][k],
                ) by {
                    let at = if k < i {
                        k
                    } else {
                        k + 1
                    };
                    assert(f.child_ok(n_dim2, open, p, f.pages[p][at]));
                    lemma_lists(cells, k);
                }
            }
        } else {
            assert(g.inner(m) == f.inner(m));
            lemma_kids_stay(f, n_dim2, count, open, m);
            if f.inner(m) {
                reveal(Forest::node_ok);
                reveal(Forest::kids_ok);
                assert(f.kids_ok(n_dim2, open, m));
                assert forall|k: int| 0 <= k < g.pages[m].len() implies g.child_ok(
                    n_dim2,
                    after,
                    m,
                    #[trigger] g.pages[m][k],
                ) by {
                    let c = f.pages[m][k];
                    assert(f.child_ok(n_dim2, open, m, c));
                    lemma_lists(f.pages[m], k);
                    assert(boxed(c, f.pages[p], n_dim2) ==> boxed(c, cells, n_dim2));
                }
            } else {
                f.lemma_frame(g, n_dim2, count, count, open, after, m);
            }
        }
    }
    assert forall|c: i64| #[trigger] g.up.contains_key(c) implies g.up_ok(after, c) by {
        assert(f.up_ok(open, c));
        if c != x && f.up[c] == p {
            assert(lists(cells, c));
            let k = lemma_place(cells, c);
            assert(f.pages[p].len() > 1);
        }
    }
    assert forall|r: i64| #[trigger] g.home.contains_key(r) implies g.home_ok(after, r) by {
        assert(f.home_ok(open, r));
    }
}

/// Dropping a leaf that is adrift makes its rows loose.
pub proof fn lemma_leaf_dropped(f: Forest, n_dim2: nat, count: i64, open: Open, x: i64)
    requires
        f.ok(n_dim2, count, open),
        open.adrift =~= Set::empty().insert(x),
        f.pages.contains_key(x),
        !f.inner(x),
        f.inner(1) ==> f.pages[1].len() > 0,
    ensures
        ({
            let g = Forest { pages: f.pages.remove(x), up: f.up.remove(x), ..f };
            let loose = open.loose.union(ids(f.pages[x]));
            &&& g.ok(n_dim2, count, (Open { loose, adrift: Set::empty(), ..open }))
            &&& forall|r: i64| #[trigger]
                lists(f.pages[x], r) && f.only_in(r, x) ==> g.absent(r)
            &&& forall|r: i64| #[trigger] f.absent(r) ==> g.absent(r)
        }),
{
    let g = Forest { pages: f.pages.remove(x), up: f.up.remove(x), ..f };
    let loose = open.loose.union(ids(f.pages[x]));
    let after = Open { loose, adrift: Set::empty(), ..open };
    assert(open.adrift.contains(x));
    assert forall|m: i64| g.pages.contains_key(m) implies #[trigger] g.inner(m) == f.inner(m) by {
        lemma_kids_stay(f, n_dim2, count, open, m);
        if m != 1 && f.pages[m].len() > 0 {
            lemma_lists(f.pages[m], 0);
        }
    }
    assert forall|m: i64| #[trigger] g.pages.contains_key(m) implies g.node_ok(
        n_dim2,
        count,
        after,
        m,
    ) by {
        assert(f.pages.contains_key(m) && m != x);
        assert(f.node_ok(n_dim2, count, open, m));
        assert(g.inner(m) == f.inner(m));
        lemma_kids_stay(f, n_dim2, count, open, m);
        if f.inner(m) {
            assert forall|c: i64| lists(f.pages[m], c) implies {
                &&& #[trigger] g.pages.contains_key(c)
                &&& g.up.contains_key(c)
                &&& g.up[c] == f.up[c]
                &&& !after.adrift.contains(c)
                &&& after.gap.contains(c) || (!open.gap.contains(c) && g.pages[c] == f.pages[c])
            } by {
                assert(!open.adrift.contains(c));
            }
        }
        f.lemma_frame(g, n_dim2, count, count, open, after, m);
    }
    assert forall|c: i64| #[trigger] g.up.contains_key(c) implies g.up_ok(after, c) by {
        assert(f.up.contains_key(c) && c != x);
        assert(f.up_ok(open, c));
        assert(!open.adrift.contains(c));
        assert(g.inner(f.up[c]) == f.inner(f.up[c]));
    }
    assert forall|r: i64| #[trigger] g.home.contains_key(r) implies g.home_ok(after, r) by {
        assert(f.home_ok(open, r));
        if !open.loose.contains(r) && f.home[r] != x {
            assert(g.inner(f.home[r]) == f.inner(f.home[r]));
        }
    }
    assert forall|n: i64| #[trigger] g.pages.contains_key(n) && n != 1 implies g.up.contains_key(
        n,
    ) by {
        assert(f.pages.contains_key(n) && !open.adrift.contains(n));
    }
    assert forall|r: i64| #[trigger] lists(f.pages[x], r) && f.only_in(r, x) implies g.absent(
        r,
    ) by {
        assert forall|m: i64| #[trigger]
            g.pages.contains_key(m) && !g.inner(m) && m != 0 implies !lists(g.pages[m], r) by {
            assert(f.pages.contains_key(m) && m != x && g.inner(m) == f.inner(m));
        }
    }
    assert forall|r: i64| #[trigger] f.absent(r) implies g.absent(r) by {
        assert forall|m: i64| #[trigger]
            g.pages.contains_key(m) && !g.inner(m) && m != 0 implies !lists(g.pages[m], r) by {
            assert(f.pages.contains_key(m) && m != x && g.inner(m) == f.inner(m));
        }
    }
}

/// A root without cells may be called a leaf.
pub proof fn lemma_root_reset(f: Forest, n_dim2: nat, count: i64, open: Open)
    requires
        f.ok(n_dim2, count, open),
        f.pages[1].len() == 0,
    ensures
        (Forest { high: false, ..f }).ok(n_dim2, count, open),
        forall|m: i64| m != 1 ==> #[trigger] (Forest { high: false, ..f }).inner(m) == f.inner(m),
        forall|r: i64, home: i64| #[trigger]
            f.only_in(r, home) ==> (Forest { high: false, ..f }).only_in(r, home),
{
    let g = Forest { high: false, ..f };
    reveal(lists);
    assert forall|m: i64| #[trigger] g.pages.contains_key(m) implies g.node_ok(
        n_dim2,
        count,
        open,
        m,
    ) by {
        assert(f.node_ok(n_dim2, count, open, m));
        reveal(Forest::node_ok);
        reveal(Forest::rows_ok);
        if m != 1 {
            lemma_kids_stay(f, n_dim2, count, open, m);
            f.lemma_frame(g, n_dim2, count, count, open, open, m);
        }
    }
    assert forall|c: i64| #[trigger] g.up.contains_key(c) implies g.up_ok(open, c) by {
        assert(f.up_ok(open, c));
    }
    assert forall|r: i64| #[trigger] g.home.contains_key(r) implies g.home_ok(open, r) by {
        assert(f.home_ok(open, r));
    }
    assert forall|r: i64, home: i64| #[trigger] f.only_in(r, home) implies g.only_in(r, home) by {
        assert forall|m: i64| #[trigger]
            g.pages.contains_key(m) && !g.inner(m) && m != home implies !lists(g.pages[m], r) by {
            assert(f.pages.contains_key(m));
        }
    }
}

impl Forest {
    /// The forest with an empty root, whose only child is dropped.
    pub open spec fn lowered(self, child: i64, high: bool) -> Forest {
        Forest {
            pages: self.pages.insert(1, Seq::empty()).remove(child),
            up: self.up.remove(child),
            home: self.home,
            high,
        }
    }
}

/// Dropping the only child of the root, a leaf, makes its rows loose and the root a leaf.
pub proof fn lemma_root_lowered_to_leaf(f: Forest, n_dim2: nat, count: i64, open: Open)
    requires
        f.ok(n_dim2, count, open),
        open.adrift =~= Set::empty(),
        open.gap =~= Set::empty(),
        f.high,
        f.pages[1].len() == 1,
        !f.inner(f.pages[1][0].rowid),
    ensures
        ({
            let child = f.pages[1][0].rowid;
            let g = f.lowered(child, false);
            &&& f.pages.contains_key(child)
            &&& g.ok(
                n_dim2,
                count,
                (Open { loose: open.loose.union(ids(f.pages[child])), ..open }),
            )
            &&& forall|r: i64| #[trigger]
                lists(f.pages[child], r) && f.only_in(r, child) ==> g.absent(r)
            &&& forall|r: i64| #[trigger] f.absent(r) ==> g.absent(r)
        }),
{
    let child = f.pages[1][0].rowid;
    f.lemma_child(n_dim2, count, open, 1, 0);
    lemma_leaf_unlinked(f, n_dim2, count, open, 1, 0);
    let unlinked = f.with_page(1, f.pages[1].remove(0));
    let drifting = Open { adrift: open.adrift.insert(child), ..open };
    lemma_root_reset(unlinked, n_dim2, count, drifting);
    let reset = Forest { high: false, ..unlinked };
    assert(reset.inner(child) == unlinked.inner(child));
    lemma_leaf_dropped(reset, n_dim2, count, drifting, child);
    let g = f.lowered(child, false);
    assert(f.pages[1].remove(0) =~= Seq::empty());
    assert(g =~= (Forest {
        pages: reset.pages.remove(child),
        up: reset.up.remove(child),
        ..reset
    }));
    let loose = open.loose.union(ids(f.pages[child]));
    assert((Open { loose, adrift: Set::empty(), ..drifting }) =~= (Open { loose, ..open }));
    assert forall|r: i64, home: i64| #[trigger] f.only_in(r, home) implies reset.only_in(
        r,
        home,
    ) by {
        assert(unlinked.only_in(r, home)) by {
            assert forall|m: i64| #[trigger]
                unlinked.pages.contains_key(m) && !unlinked.inner(m) && m != home implies !lists(
                unlinked.pages[m],
                r,
            ) by {
                assert(f.pages.contains_key(m));
                if m == 1 {
                    reveal(lists);
                } else {
                    assert(unlinked.inner(m) == f.inner(m));
                }
            }
        }
    }
    assert forall|r: i64| #[trigger] lists(f.pages[child], r) && f.only_in(r, child) implies g.absent(
        r,
    ) by {
        assert(reset.only_in(r, child));
        assert(lists(reset.pages[child], r));
    }
    assert forall|r: i64| #[trigger] f.absent(r) implies g.absent(r) by {
        assert(f.only_in(r, 0));
        assert(reset.absent(r));
    }
}

/// Dropping the only child of the root, an inner node, sets the children of that node adrift.
pub proof fn lemma_root_lowered(f: Forest, n_dim2: nat, count: i64, open: Open)
    requires
        f.ok(n_dim2, count, open),
        open.adrift =~= Set::empty(),
        open.gap =~= Set::empty(),
        f.high,
        f.pages[1].len() == 1,
        f.inner(f.pages[1][0].rowid),
    ensures
        ({
            let child = f.pages[1][0].rowid;
            let g = f.lowered(child, true);
            &&& f.pages.contains_key(child)
            &&& g.ok(n_dim2, count, (Open { adrift: ids(f.pages[child]), ..open }))
            &&& forall|m: i64| g.pages.contains_key(m) ==> #[trigger] g.inner(m) == f.inner(m)
            &&& forall|r: i64| #[trigger] f.absent(r) ==> g.absent(r)
        }),
{
    let child = f.pages[1][0].rowid;
    let g = f.lowered(child, true);
    let after = Open { adrift: ids(f.pages[child]), ..open };
    f.lemma_child(n_dim2, count, open, 1, 0);
    f.lemma_node(n_dim2, count, open, child);
    lemma_kids_stay(f, n_dim2, count, open, child);
    lemma_lists(f.pages[child], 0);
    assert(after.adrift.contains(f.pages[child][0].rowid));
    assert(!lists(f.pages[child], child));
    // Only the child has the root as its parent.
    assert forall|c: i64| #[trigger] f.up.contains_key(c) && f.up[c] == 1 implies c == child by {
        assert(f.up_ok(open, c));
        let k = lemma_place(f.pages[1], c);
    }
    assert forall|m: i64| g.pages.contains_key(m) implies #[trigger] g.inner(m) == f.inner(m) by {
        if m != 1 {
            assert(f.pages.contains_key(m));
            lemma_kids_stay(f, n_dim2, count, open, m);
            if f.pages[m].len() > 0 {
                lemma_lists(f.pages[m], 0);
            }
        }
    }
    assert forall|m: i64| #[trigger] g.pages.contains_key(m) implies g.node_ok(
        n_dim2,
        count,
        after,
        m,
    ) by {
        if m == 1 {
            f.lemma_node(n_dim2, count, open, 1);
            reveal(Forest::node_ok);
            reveal(Forest::kids_ok);
            reveal(distinct);
            reveal(boxes);
        } else {
            assert(f.pages.contains_key(m));
            assert(f.node_ok(n_dim2, count, open, m));
            assert(g.inner(m) == f.inner(m));
            lemma_kids_stay(f, n_dim2, count, open, m);
            if f.inner(m) {
                assert forall|c: i64| lists(f.pages[m], c) implies {
                    &&& #[trigger] g.pages.contains_key(c)
                    &&& g.up.contains_key(c)
                    &&& g.up[c] == f.up[c]
                    &&& !after.adrift.contains(c)
                    &&& after.gap.contains(c) || (!open.gap.contains(c) && g.pages[c]
                        == f.pages[c])
                } by {
                    assert(f.up[c] == m);
                }
            }
            f.lemma_frame(g, n_dim2, count, count, open, after, m);
        }
    }
    assert forall|c: i64| #[trigger] g.up.contains_key(c) implies g.up_ok(after, c) by {
        assert(f.up_ok(open, c));
        if f.up[c] != child {
            assert(f.up[c] != 1);
            assert(g.inner(f.up[c]) == f.inner(f.up[c]));
        }
    }
    assert forall|r: i64| #[trigger] g.home.contains_key(r) implies g.home_ok(after, r) by {
        assert(f.home_ok(open, r));
        if !open.loose.contains(r) {
            assert(g.inner(f.home[r]) == f.inner(f.home[r]));
        }
    }
    assert forall|n: i64| #[trigger] g.pages.contains_key(n) && n != 1 implies after.adrift.contains(
        n,
    ) || g.up.contains_key(n) by {
        assert(f.pages.contains_key(n));
    }
    assert forall|r: i64| #[trigger] f.absent(r) implies g.absent(r) by {
        assert forall|m: i64| #[trigger]
            g.pages.contains_key(m) && !g.inner(m) && m != 0 implies !lists(g.pages[m], r) by {
            assert(f.pages.contains_key(m));
            assert(g.inner(m) == f.inner(m));
        }
    }
}

/// A node that is adrift is put below the root.
pub proof fn lemma_node_linked(f: Forest, n_dim2: nat, count: i64, open: Open, cell: CellView)
    requires
        f.ok(n_dim2, count, open),
        f.high,
        open.adrift.contains(cell.rowid),
        open.gap =~= Set::empty(),
        geometry::is_box(cell, n_dim2),
        boxed(cell, f.pages[cell.rowid], n_dim2),
    ensures
        ({
            let g = Forest {
                pages: f.pages.insert(1, f.pages[1].push(cell)),
                up: f.up.insert(cell.rowid, 1),
                ..f
            };
            &&& g.ok(n_dim2, count, (Open { adrift: open.adrift.remove(cell.rowid), ..open }))
            &&& forall|m: i64| f.pages.contains_key(m) ==> #[trigger] g.inner(m) == f.inner(m)
            &&& forall|r: i64| #[trigger] f.absent(r) ==> g.absent(r)
        }),
{
    let c = cell.rowid;
    let cells = f.pages[1].push(cell);
    let g = Forest { pages: f.pages.insert(1, cells), up: f.up.insert(c, 1), ..f };
    let after = Open { adrift: open.adrift.remove(c), ..open };
    f.lemma_node(n_dim2, count, open, 1);
    lemma_kids_stay(f, n_dim2, count, open, 1);
    lemma_push(f.pages[1], cell, n_dim2);
    assert(c > 1);
    assert forall|m: i64| f.pages.contains_key(m) implies #[trigger] g.inner(m) == f.inner(m) by {
        if m != 1 {
            lemma_kids_stay(f, n_dim2, count, open, m);
            if f.pages[m].len() > 0 {
                lemma_lists(f.pages[m], 0);
            }
        }
    }
    assert forall|m: i64| #[trigger] g.pages.contains_key(m) implies g.node_ok(
        n_dim2,
        count,
        after,
        m,
    ) by {
        assert(f.pages.contains_key(m));
        assert(f.node_ok(n_dim2, count, open, m));
        assert(g.inner(m) == f.inner(m));
        if m == 1 {
            reveal(Forest::node_ok);
            reveal(Forest::kids_ok);
            assert(f.kids_ok(n_dim2, open, 1));
            assert forall|k: int| 0 <= k < cells.len() implies g.child_ok(
                n_dim2,
                after,
                1,
                #[trigger] g.pages[1][k],
            ) by {
                if k < f.pages[1].len() {
                    assert(f.child_ok(n_dim2, open, 1, f.pages[1][k]));
                }
            }
        } else {
            lemma_kids_stay(f, n_dim2, count, open, m);
            if f.inner(m) {
                assert forall|x: i64| lists(f.pages[m], x) implies {
                    &&& #[trigger] g.pages.contains_key(x)
                    &&& g.up.contains_key(x)
                    &&& g.up[x] == f.up[x]
                    &&& !after.adrift.contains(x)
                    &&& after.gap.contains(x) || (!open.gap.contains(x) && g.pages[x]
                        == f.pages[x])
                } by {}
            }
            f.lemma_frame(g, n_dim2, count, count, open, after, m);
        }
    }
    assert forall|x: i64| #[trigger] g.up.contains_key(x) implies g.up_ok(after, x) by {
        if x == c {
            assert(g.inner(1));
            assert(lists(cells, c));
        } else {
            assert(f.up_ok(open, x));
            if !open.adrift.contains(x) {
                assert(g.inner(f.up[x]) == f.inner(f.up[x]));
            }
        }
    }
    assert forall|r: i64| #[trigger] g.home.contains_key(r) implies g.home_ok(after, r) by {
        assert(f.home_ok(open, r));
        if !open.loose.contains(r) {
            assert(g.inner(f.home[r]) == f.inner(f.home[r]));
        }
    }
    assert forall|r: i64| #[trigger] f.absent(r) implies g.absent(r) by {
        assert forall|m: i64| #[trigger]
            g.pages.contains_key(m) && !g.inner(m) && m != 0 implies !lists(g.pages[m], r) by {
            assert(f.pages.contains_key(m));
            assert(g.inner(m) == f.inner(m));
        }
    }
}

} // verus!
