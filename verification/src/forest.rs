//! The tree that the shadow tables hold, and what every step of an operation keeps of it.

use vstd::prelude::*;
use crate::geometry;
use crate::node::CellView;

verus! {

/// The contents of the shadow tables without their bytes.
#[verifier::ext_equal]
pub struct Forest {
    /// The cells of each node.
    pub pages: Map<i64, Seq<CellView>>,
    /// The parent of each node.
    pub up: Map<i64, i64>,
    /// The node of each row.
    pub home: Map<i64, i64>,
    /// Whether the root is above the leaves.
    pub high: bool,
}

/// What is left to be mended in the middle of an operation.
#[verifier::ext_equal]
pub struct Open {
    /// Rows whose node is not noted, or that are in no leaf.
    pub loose: Set<i64>,
    /// Nodes that no other node points to.
    pub adrift: Set<i64>,
    /// Nodes that the box in their parent need not cover.
    pub gap: Set<i64>,
}

impl Open {
    /// Nothing is left to be mended.
    pub open spec fn nothing() -> Open {
        Open { loose: Set::empty(), adrift: Set::empty(), gap: Set::empty() }
    }
}

/// Some cell of a list has the given row id or node number.
#[verifier::opaque]
pub open spec fn lists(cells: Seq<CellView>, id: i64) -> bool {
    exists|i: int| 0 <= i < cells.len() && #[trigger] cells[i].rowid == id
}

/// The row ids or node numbers of a list.
pub open spec fn ids(cells: Seq<CellView>) -> Set<i64> {
    Set::new(|id: i64| lists(cells, id))
}

/// No two cells of a list have the same row id or node number.
#[verifier::opaque]
pub open spec fn distinct(cells: Seq<CellView>) -> bool {
    forall|i: int, j: int|
        0 <= i < j < cells.len() ==> #[trigger] cells[i].rowid != #[trigger] cells[j].rowid
}

/// Every cell of a list is a box.
#[verifier::opaque]
pub open spec fn boxes(cells: Seq<CellView>, n_dim2: nat) -> bool {
    forall|i: int| 0 <= i < cells.len() ==> geometry::is_box(#[trigger] cells[i], n_dim2)
}

/// A box covers every cell of a list.
#[verifier::opaque]
pub open spec fn boxed(outer: CellView, cells: Seq<CellView>, n_dim2: nat) -> bool {
    forall|i: int| 0 <= i < cells.len() ==> geometry::covers(outer, #[trigger] cells[i], n_dim2)
}

pub proof fn lemma_lists(cells: Seq<CellView>, i: int)
    requires
        0 <= i < cells.len(),
    ensures
        lists(cells, cells[i].rowid),
{
    reveal(lists);
}

/// The place of a cell in a list.
pub proof fn lemma_place(cells: Seq<CellView>, id: i64) -> (i: int)
    requires
        lists(cells, id),
    ensures
        0 <= i < cells.len(),
        cells[i].rowid == id,
{
    reveal(lists);
    choose|i: int| 0 <= i < cells.len() && #[trigger] cells[i].rowid == id
}

/// A list with one more cell.
pub proof fn lemma_push(cells: Seq<CellView>, cell: CellView, n_dim2: nat)
    ensures
        forall|id: i64| #[trigger]
            lists(cells.push(cell), id) == (lists(cells, id) || id == cell.rowid),
        distinct(cells) && !lists(cells, cell.rowid) ==> distinct(cells.push(cell)),
        boxes(cells, n_dim2) && geometry::is_box(cell, n_dim2) ==> boxes(cells.push(cell), n_dim2),
{
    let more = cells.push(cell);
    assert forall|id: i64| #[trigger] lists(more, id) == (lists(cells, id) || id == cell.rowid) by {
        reveal(lists);
        if lists(cells, id) {
            let i = lemma_place(cells, id);
            assert(more[i].rowid == id);
        }
        assert(more[cells.len() as int] == cell);
        if lists(more, id) && id != cell.rowid {
            let i = lemma_place(more, id);
            assert(cells[i].rowid == id);
        }
    }
    if distinct(cells) && !lists(cells, cell.rowid) {
        reveal(distinct);
        assert forall|i: int, j: int| 0 <= i < j < more.len() implies #[trigger] more[i].rowid
            != #[trigger] more[j].rowid by {
            lemma_lists(cells, i);
            if j < cells.len() {
                assert(cells[i].rowid != cells[j].rowid);
            }
        }
    }
    if boxes(cells, n_dim2) && geometry::is_box(cell, n_dim2) {
        reveal(boxes);
        assert forall|i: int| 0 <= i < more.len() implies geometry::is_box(
            #[trigger] more[i],
            n_dim2,
        ) by {
            if i < cells.len() {
                assert(geometry::is_box(cells[i], n_dim2));
            }
        }
    }
}

/// A list with one cell less.
pub proof fn lemma_remove(cells: Seq<CellView>, i: int, n_dim2: nat)
    requires
        0 <= i < cells.len(),
    ensures
        distinct(cells) ==> distinct(cells.remove(i)) && forall|id: i64| #[trigger]
            lists(cells.remove(i), id) == (lists(cells, id) && id != cells[i].rowid),
        boxes(cells, n_dim2) ==> boxes(cells.remove(i), n_dim2),
        forall|outer: CellView| #[trigger]
            boxed(outer, cells, n_dim2) ==> boxed(outer, cells.remove(i), n_dim2),
        forall|id: i64| #[trigger] lists(cells.remove(i), id) ==> lists(cells, id),
{
    let less = cells.remove(i);
    assert forall|id: i64| #[trigger] lists(less, id) implies lists(cells, id) by {
        let k = lemma_place(less, id);
        lemma_lists(cells, if k < i { k } else { k + 1 });
    }
    if distinct(cells) {
        reveal(distinct);
        assert forall|id: i64| #[trigger]
            lists(less, id) == (lists(cells, id) && id != cells[i].rowid) by {
            if lists(less, id) {
                let k = lemma_place(less, id);
                let at = if k < i { k } else { k + 1 };
                lemma_lists(cells, at);
                assert(cells[at].rowid == id);
            }
            if lists(cells, id) && id != cells[i].rowid {
                let k = lemma_place(cells, id);
                lemma_lists(less, if k < i { k } else { k - 1 });
            }
        }
        assert forall|a: int, b: int| 0 <= a < b < less.len() implies #[trigger] less[a].rowid
            != #[trigger] less[b].rowid by {
            let x = if a < i { a } else { a + 1 };
            let y = if b < i { b } else { b + 1 };
            assert(cells[x].rowid != cells[y].rowid);
        }
    }
    if boxes(cells, n_dim2) {
        reveal(boxes);
        assert forall|k: int| 0 <= k < less.len() implies geometry::is_box(
            #[trigger] less[k],
            n_dim2,
        ) by {
            assert(geometry::is_box(cells[if k < i { k } else { k + 1 }], n_dim2));
        }
    }
    assert forall|outer: CellView| #[trigger] boxed(outer, cells, n_dim2) implies boxed(
        outer,
        less,
        n_dim2,
    ) by {
        reveal(boxed);
        assert forall|k: int| 0 <= k < less.len() implies geometry::covers(
            outer,
            #[trigger] less[k],
            n_dim2,
        ) by {
            assert(geometry::covers(outer, cells[if k < i { k } else { k + 1 }], n_dim2));
        }
    }
}

/// A list with another cell of the same row id or node number in one place.
pub proof fn lemma_update(cells: Seq<CellView>, i: int, cell: CellView, n_dim2: nat)
    requires
        0 <= i < cells.len(),
        cell.rowid == cells[i].rowid,
    ensures
        forall|id: i64| #[trigger] lists(cells.update(i, cell), id) == lists(cells, id),
        distinct(cells) ==> distinct(cells.update(i, cell)),
        boxes(cells, n_dim2) && geometry::is_box(cell, n_dim2) ==> boxes(
            cells.update(i, cell),
            n_dim2,
        ),
{
    let other = cells.update(i, cell);
    assert forall|id: i64| #[trigger] lists(other, id) == lists(cells, id) by {
        if lists(other, id) {
            let k = lemma_place(other, id);
            lemma_lists(cells, k);
        }
        if lists(cells, id) {
            let k = lemma_place(cells, id);
            lemma_lists(other, k);
        }
    }
    if distinct(cells) {
        reveal(distinct);
        assert forall|a: int, b: int| 0 <= a < b < other.len() implies #[trigger] other[a].rowid
            != #[trigger] other[b].rowid by {
            assert(cells[a].rowid != cells[b].rowid);
        }
    }
    if boxes(cells, n_dim2) && geometry::is_box(cell, n_dim2) {
        reveal(boxes);
    }
}

impl Forest {
    /// No nodes and no rows.
    pub open spec fn bare() -> Forest {
        Forest { pages: Map::empty(), up: Map::empty(), home: Map::empty(), high: false }
    }

    /// An empty root.
    pub open spec fn sapling() -> Forest {
        Forest { pages: Map::empty().insert(1, Seq::empty()), ..Forest::bare() }
    }

    /// A node has children: the root where it is above the leaves, any other where its first cell
    /// is one of its children.
    pub open spec fn inner(self, n: i64) -> bool {
        if n == 1 {
            self.high
        } else {
            let cells = self.pages[n];
            cells.len() > 0 && cells[0].rowid > 1 && self.up.contains_key(cells[0].rowid)
                && self.up[cells[0].rowid] == n
        }
    }

    /// A cell of an inner node points to a younger node that has it as its parent, and its box
    /// covers the cells of that node.
    pub open spec fn child_ok(self, n_dim2: nat, open: Open, n: i64, c: CellView) -> bool {
        &&& c.rowid > n
        &&& self.pages.contains_key(c.rowid)
        &&& self.up.contains_key(c.rowid)
        &&& self.up[c.rowid] == n
        &&& !open.adrift.contains(c.rowid)
        &&& open.gap.contains(c.rowid) || boxed(c, self.pages[c.rowid], n_dim2)
    }

    /// The node of a row of a leaf is noted.
    pub open spec fn row_ok(self, open: Open, n: i64, r: i64) -> bool {
        open.loose.contains(r) || (self.home.contains_key(r) && self.home[r] == n)
    }

    #[verifier::opaque]
    pub open spec fn kids_ok(self, n_dim2: nat, open: Open, n: i64) -> bool {
        forall|i: int|
            0 <= i < self.pages[n].len() ==> self.child_ok(
                n_dim2,
                open,
                n,
                #[trigger] self.pages[n][i],
            )
    }

    #[verifier::opaque]
    pub open spec fn rows_ok(self, open: Open, n: i64) -> bool {
        forall|r: i64| #[trigger] lists(self.pages[n], r) ==> self.row_ok(open, n, r)
    }

    /// A node has a number up to `count`, cells that are boxes of different numbers, and its
    /// children or its rows are as they should be.
    #[verifier::opaque]
    pub open spec fn node_ok(self, n_dim2: nat, count: i64, open: Open, n: i64) -> bool {
        &&& 1 <= n <= count
        &&& distinct(self.pages[n])
        &&& boxes(self.pages[n], n_dim2)
        &&& self.inner(n) ==> (self.pages[n].len() > 0 || (n == 1 && open.adrift
            != Set::<i64>::empty())) && self.kids_ok(n_dim2, open, n)
        &&& !self.inner(n) ==> self.rows_ok(open, n)
    }

    /// The noted parent of a node points to it.
    pub open spec fn up_ok(self, open: Open, c: i64) -> bool {
        &&& c > 1
        &&& open.adrift.contains(c) || (self.pages.contains_key(c) && self.pages.contains_key(
            self.up[c],
        ) && self.inner(self.up[c]) && lists(self.pages[self.up[c]], c))
    }

    /// The noted node of a row is a leaf that holds it.
    pub open spec fn home_ok(self, open: Open, r: i64) -> bool {
        open.loose.contains(r) || (self.pages.contains_key(self.home[r]) && !self.inner(
            self.home[r],
        ) && lists(self.pages[self.home[r]], r))
    }

    /// The forest is a tree, up to what is open: every node is reached from the root, with its
    /// parent noted, under a box that covers its cells, and every row is in the leaf that is noted
    /// for it. No node number is above `count`.
    pub open spec fn ok(self, n_dim2: nat, count: i64, open: Open) -> bool {
        &&& self.pages.contains_key(1)
        &&& forall|n: i64| #[trigger]
            self.pages.contains_key(n) ==> self.node_ok(n_dim2, count, open, n)
        &&& forall|c: i64| #[trigger] self.up.contains_key(c) ==> self.up_ok(open, c)
        &&& forall|r: i64| #[trigger] self.home.contains_key(r) ==> self.home_ok(open, r)
        &&& forall|n: i64| #[trigger]
            self.pages.contains_key(n) && n != 1 ==> open.adrift.contains(n)
                || self.up.contains_key(n)
        &&& forall|n: i64| #[trigger]
            open.adrift.contains(n) ==> n > 1 && self.pages.contains_key(n)
    }

    /// The row is in no leaf but `home`.
    pub open spec fn only_in(self, r: i64, home: i64) -> bool {
        forall|n: i64| #[trigger]
            self.pages.contains_key(n) && !self.inner(n) && n != home ==> !lists(self.pages[n], r)
    }

    /// The row is in no leaf. No node has the number 0.
    pub open spec fn absent(self, r: i64) -> bool {
        self.only_in(r, 0)
    }

    /// The forest with other cells for a node.
    pub open spec fn with_page(self, n: i64, cells: Seq<CellView>) -> Forest {
        Forest { pages: self.pages.insert(n, cells), ..self }
    }

    /// A cell of an inner node.
    pub proof fn lemma_child(self, n_dim2: nat, count: i64, open: Open, n: i64, i: int)
        requires
            self.ok(n_dim2, count, open),
            self.pages.contains_key(n),
            self.inner(n),
            0 <= i < self.pages[n].len(),
        ensures
            self.child_ok(n_dim2, open, n, self.pages[n][i]),
            geometry::is_box(self.pages[n][i], n_dim2),
    {
        reveal(Forest::node_ok);
        reveal(Forest::kids_ok);
        reveal(boxes);
        assert(self.node_ok(n_dim2, count, open, n));
    }

    /// What holds of any node.
    pub proof fn lemma_node(self, n_dim2: nat, count: i64, open: Open, n: i64)
        requires
            self.ok(n_dim2, count, open),
            self.pages.contains_key(n),
        ensures
            1 <= n <= count,
            distinct(self.pages[n]),
            boxes(self.pages[n], n_dim2),
            self.inner(n) && open.adrift =~= Set::empty() ==> self.pages[n].len() > 0,
            !self.inner(n) ==> forall|r: i64| #[trigger]
                lists(self.pages[n], r) ==> self.row_ok(open, n, r),
    {
        reveal(Forest::node_ok);
        reveal(Forest::rows_ok);
        assert(self.node_ok(n_dim2, count, open, n));
    }

    /// No node has the number 0.
    pub proof fn lemma_numbered(self, n_dim2: nat, count: i64, open: Open)
        requires
            self.ok(n_dim2, count, open),
        ensures
            !self.pages.contains_key(0),
    {
        if self.pages.contains_key(0) {
            self.lemma_node(n_dim2, count, open, 0);
        }
    }

    /// A node whose cells do not change stays as it should be where its children and its rows do.
    pub proof fn lemma_frame(
        self,
        g: Forest,
        n_dim2: nat,
        count: i64,
        higher: i64,
        open: Open,
        after: Open,
        n: i64,
    )
        requires
            self.node_ok(n_dim2, count, open, n),
            count <= higher,
            g.pages[n] == self.pages[n],
            g.inner(n) == self.inner(n),
            self.inner(n) ==> forall|c: i64|
                lists(self.pages[n], c) ==> {
                    &&& #[trigger] g.pages.contains_key(c)
                    &&& g.up.contains_key(c)
                    &&& g.up[c] == self.up[c]
                    &&& !after.adrift.contains(c)
                    &&& after.gap.contains(c) || (!open.gap.contains(c) && g.pages[c]
                        == self.pages[c])
                },
            !self.inner(n) ==> forall|r: i64| #[trigger]
                lists(self.pages[n], r) ==> after.loose.contains(r) || (!open.loose.contains(r)
                    && g.home.contains_key(r) && g.home[r] == self.home[r]),
            n == 1 && self.pages[1].len() == 0 && self.inner(1) && open.adrift
                != Set::<i64>::empty() ==> after.adrift != Set::<i64>::empty(),
        ensures
            g.node_ok(n_dim2, higher, after, n),
    {
        reveal(Forest::node_ok);
        reveal(Forest::kids_ok);
        reveal(Forest::rows_ok);
        if self.inner(n) {
            assert forall|i: int| 0 <= i < g.pages[n].len() implies g.child_ok(
                n_dim2,
                after,
                n,
                #[trigger] g.pages[n][i],
            ) by {
                lemma_lists(self.pages[n], i);
                let c = self.pages[n][i];
                assert(self.child_ok(n_dim2, open, n, c));
                assert(g.pages.contains_key(c.rowid));
            }
        }
    }
}

/// A row whose node is not noted is in no leaf, and may be called loose.
pub proof fn lemma_unnoted_is_absent(f: Forest, n_dim2: nat, count: i64, open: Open, r: i64)
    requires
        f.ok(n_dim2, count, open),
        !open.loose.contains(r),
        !f.home.contains_key(r),
    ensures
        f.absent(r),
{
    assert forall|n: i64| #[trigger]
        f.pages.contains_key(n) && !f.inner(n) && n != 0 implies !lists(f.pages[n], r) by {
        f.lemma_node(n_dim2, count, open, n);
        if lists(f.pages[n], r) {
            assert(f.row_ok(open, n, r));
        }
    }
}

/// Calling more rows loose, or allowing higher node numbers, asks less of a forest.
pub proof fn lemma_less_asked(
    f: Forest,
    n_dim2: nat,
    count: i64,
    higher: i64,
    open: Open,
    loose: Set<i64>,
)
    requires
        f.ok(n_dim2, count, open),
        count <= higher,
        open.loose.subset_of(loose),
    ensures
        f.ok(n_dim2, higher, (Open { loose, ..open })),
{
    let after = Open { loose, ..open };
    assert forall|n: i64| #[trigger] f.pages.contains_key(n) implies f.node_ok(
        n_dim2,
        higher,
        after,
        n,
    ) by {
        reveal(Forest::node_ok);
        reveal(Forest::kids_ok);
        reveal(Forest::rows_ok);
        assert(f.node_ok(n_dim2, count, open, n));
        if f.inner(n) {
            assert forall|i: int| 0 <= i < f.pages[n].len() implies f.child_ok(
                n_dim2,
                after,
                n,
                #[trigger] f.pages[n][i],
            ) by {
                assert(f.child_ok(n_dim2, open, n, f.pages[n][i]));
            }
        }
    }
    assert forall|c: i64| #[trigger] f.up.contains_key(c) implies f.up_ok(after, c) by {
        assert(f.up_ok(open, c));
    }
    assert forall|r: i64| #[trigger] f.home.contains_key(r) implies f.home_ok(after, r) by {
        assert(f.home_ok(open, r));
    }
}

/// A row put into a leaf leaves a tree, where the boxes above the leaf need not cover it yet.
pub proof fn lemma_row_added(
    f: Forest,
    n_dim2: nat,
    count: i64,
    open: Open,
    n: i64,
    cell: CellView,
)
    requires
        f.ok(n_dim2, count, open),
        open.adrift =~= Set::empty(),
        f.pages.contains_key(n),
        !f.inner(n),
        open.loose.contains(cell.rowid),
        f.absent(cell.rowid),
        geometry::is_box(cell, n_dim2),
    ensures
        ({
            let g = f.with_page(n, f.pages[n].push(cell));
            &&& g.ok(n_dim2, count, (Open { gap: open.gap.insert(n), ..open }))
            &&& g.only_in(cell.rowid, n)
            &&& !g.inner(n)
            &&& lists(g.pages[n], cell.rowid)
        }),
{
    let cells = f.pages[n].push(cell);
    let g = f.with_page(n, cells);
    let after = Open { gap: open.gap.insert(n), ..open };
    f.lemma_node(n_dim2, count, open, n);
    lemma_push(f.pages[n], cell, n_dim2);
    assert(!lists(f.pages[n], cell.rowid));
    assert(!g.inner(n)) by {
        if f.pages[n].len() == 0 && f.up.contains_key(cell.rowid) && f.up[cell.rowid] == n {
            assert(f.up_ok(open, cell.rowid));
        }
    }
    assert forall|m: i64| #[trigger] g.pages.contains_key(m) implies g.node_ok(
        n_dim2,
        count,
        after,
        m,
    ) by {
        assert(f.pages.contains_key(m));
        assert(f.node_ok(n_dim2, count, open, m));
        if m == n {
            reveal(Forest::node_ok);
            reveal(Forest::rows_ok);
        } else {
            lemma_kids_stay(f, n_dim2, count, open, m);
            f.lemma_frame(g, n_dim2, count, count, open, after, m);
        }
    }
    assert forall|c: i64| #[trigger] g.up.contains_key(c) implies g.up_ok(after, c) by {
        assert(f.up_ok(open, c));
    }
    assert forall|r: i64| #[trigger] g.home.contains_key(r) implies g.home_ok(after, r) by {
        assert(f.home_ok(open, r));
    }
    assert forall|m: i64| #[trigger]
        g.pages.contains_key(m) && !g.inner(m) && m != n implies !lists(
        g.pages[m],
        cell.rowid,
    ) by {
        assert(f.pages.contains_key(m) && !f.inner(m));
        f.lemma_node(n_dim2, count, open, m);
    }
}

/// The children and the rows of a node, by their numbers.
pub proof fn lemma_kids_stay(f: Forest, n_dim2: nat, count: i64, open: Open, n: i64)
    requires
        f.ok(n_dim2, count, open),
        f.pages.contains_key(n),
    ensures
        f.inner(n) ==> forall|c: i64| #[trigger]
            lists(f.pages[n], c) ==> {
                &&& c > n
                &&& f.pages.contains_key(c)
                &&& f.up.contains_key(c)
                &&& f.up[c] == n
                &&& !open.adrift.contains(c)
            },
        !f.inner(n) ==> forall|r: i64| #[trigger]
            lists(f.pages[n], r) ==> f.row_ok(open, n, r),
{
    if f.inner(n) {
        assert forall|c: i64| #[trigger] lists(f.pages[n], c) implies {
            &&& c > n
            &&& f.pages.contains_key(c)
            &&& f.up.contains_key(c)
            &&& f.up[c] == n
            &&& !open.adrift.contains(c)
        } by {
            let i = lemma_place(f.pages[n], c);
            f.lemma_child(n_dim2, count, open, n, i);
        }
    } else {
        f.lemma_node(n_dim2, count, open, n);
    }
}

/// Another box for a child, which covers the cells of the child, leaves a tree. The boxes above the
/// parent need not cover the new box yet.
pub proof fn lemma_box_set(
    f: Forest,
    n_dim2: nat,
    count: i64,
    open: Open,
    p: i64,
    i: int,
    cell: CellView,
)
    requires
        f.ok(n_dim2, count, open),
        f.pages.contains_key(p),
        f.inner(p),
        0 <= i < f.pages[p].len(),
        cell.rowid == f.pages[p][i].rowid,
        geometry::is_box(cell, n_dim2),
        boxed(cell, f.pages[cell.rowid], n_dim2),
    ensures
        ({
            let g = f.with_page(p, f.pages[p].update(i, cell));
            &&& g.ok(
                n_dim2,
                count,
                (Open { gap: open.gap.remove(cell.rowid).insert(p), ..open }),
            )
            &&& forall|m: i64| f.pages.contains_key(m) ==> #[trigger] g.inner(m) == f.inner(m)
            &&& forall|r: i64, home: i64| #[trigger] f.only_in(r, home) ==> g.only_in(r, home)
        }),
{
    let cells = f.pages[p].update(i, cell);
    let g = f.with_page(p, cells);
    let c = cell.rowid;
    let after = Open { gap: open.gap.remove(c).insert(p), ..open };
    lemma_update(f.pages[p], i, cell, n_dim2);
    f.lemma_node(n_dim2, count, open, p);
    f.lemma_child(n_dim2, count, open, p, i);
    assert forall|m: i64| f.pages.contains_key(m) implies #[trigger] g.inner(m) == f.inner(m) by {
        if m == p && i == 0 {
            assert(cells[0].rowid == f.pages[p][0].rowid);
        }
    }
    assert forall|m: i64| #[trigger] g.pages.contains_key(m) implies g.node_ok(
        n_dim2,
        count,
        after,
        m,
    ) by {
        assert(f.pages.contains_key(m));
        assert(f.node_ok(n_dim2, count, open, m));
        assert(g.inner(m) == f.inner(m));
        if m == p {
            reveal(Forest::node_ok);
            reveal(Forest::kids_ok);
            assert(f.kids_ok(n_dim2, open, p));
            assert forall|k: int| 0 <= k < cells.len() implies g.child_ok(
                n_dim2,
                after,
                p,
                #[trigger] g.pages[p][k],
            ) by {
                assert(f.child_ok(n_dim2, open, p, f.pages[p][k]));
                if k != i {
                    assert(f.pages[p][k].rowid != c) by {
                        reveal(distinct);
                        if k < i {
                            assert(f.pages[p][k].rowid != f.pages[p][i].rowid);
                        } else {
                            assert(f.pages[p][i].rowid != f.pages[p][k].rowid);
                        }
                    }
                }
            }
        } else {
            lemma_kids_stay(f, n_dim2, count, open, m);
            if f.inner(m) {
                assert forall|x: i64| lists(f.pages[m], x) implies {
                    &&& #[trigger] g.pages.contains_key(x)
                    &&& g.up.contains_key(x)
                    &&& g.up[x] == f.up[x]
                    &&& !after.adrift.contains(x)
                    &&& after.gap.contains(x) || (!open.gap.contains(x) && g.pages[x]
                        == f.pages[x])
                } by {
                    assert(f.up[x] == m);
                    assert(x != c);
                }
            }
            f.lemma_frame(g, n_dim2, count, count, open, after, m);
        }
    }
    assert forall|x: i64| #[trigger] g.up.contains_key(x) implies g.up_ok(after, x) by {
        assert(f.up_ok(open, x));
        assert(f.pages.contains_key(f.up[x]) ==> g.inner(f.up[x]) == f.inner(f.up[x]));
    }
    assert forall|r: i64| #[trigger] g.home.contains_key(r) implies g.home_ok(after, r) by {
        assert(f.home_ok(open, r));
        assert(f.pages.contains_key(f.home[r]) ==> g.inner(f.home[r]) == f.inner(f.home[r]));
    }
    assert forall|r: i64, home: i64| #[trigger] f.only_in(r, home) implies g.only_in(r, home) by {
        assert forall|m: i64| #[trigger]
            g.pages.contains_key(m) && !g.inner(m) && m != home implies !lists(g.pages[m], r) by {
            assert(f.pages.contains_key(m));
            assert(g.inner(m) == f.inner(m));
        }
    }
}

/// A gap is closed where the box of the node covers its cells after all, or where no box is asked
/// to.
pub proof fn lemma_gap_closed(f: Forest, n_dim2: nat, count: i64, open: Open, n: i64)
    requires
        f.ok(n_dim2, count, open),
        f.pages.contains_key(n),
        n == 1 || (f.up.contains_key(n) && f.pages.contains_key(f.up[n]) && forall|i: int|
            0 <= i < f.pages[f.up[n]].len() && f.pages[f.up[n]][i].rowid == n ==> boxed(
                #[trigger] f.pages[f.up[n]][i],
                f.pages[n],
                n_dim2,
            )),
    ensures
        f.ok(n_dim2, count, (Open { gap: open.gap.remove(n), ..open })),
{
    let after = Open { gap: open.gap.remove(n), ..open };
    assert forall|m: i64| #[trigger] f.pages.contains_key(m) implies f.node_ok(
        n_dim2,
        count,
        after,
        m,
    ) by {
        reveal(Forest::node_ok);
        reveal(Forest::kids_ok);
        reveal(Forest::rows_ok);
        assert(f.node_ok(n_dim2, count, open, m));
        if f.inner(m) {
            assert forall|i: int| 0 <= i < f.pages[m].len() implies f.child_ok(
                n_dim2,
                after,
                m,
                #[trigger] f.pages[m][i],
            ) by {
                let c = f.pages[m][i];
                assert(f.child_ok(n_dim2, open, m, c));
                if c.rowid == n {
                    assert(m >= 1);
                    assert(f.up[n] == m);
                    assert(boxed(f.pages[f.up[n]][i], f.pages[n], n_dim2));
                }
            }
        }
    }
    assert forall|c: i64| #[trigger] f.up.contains_key(c) implies f.up_ok(after, c) by {
        assert(f.up_ok(open, c));
    }
    assert forall|r: i64| #[trigger] f.home.contains_key(r) implies f.home_ok(after, r) by {
        assert(f.home_ok(open, r));
    }
}

/// Noting the node of a row that is in that leaf and in no other mends the row.
pub proof fn lemma_row_noted(f: Forest, n_dim2: nat, count: i64, open: Open, r: i64, n: i64)
    requires
        f.ok(n_dim2, count, open),
        f.pages.contains_key(n),
        !f.inner(n),
        lists(f.pages[n], r),
        f.only_in(r, n),
    ensures
        (Forest { home: f.home.insert(r, n), ..f }).ok(
            n_dim2,
            count,
            (Open { loose: open.loose.remove(r), ..open }),
        ),
{
    let g = Forest { home: f.home.insert(r, n), ..f };
    let after = Open { loose: open.loose.remove(r), ..open };
    assert forall|m: i64| #[trigger] g.pages.contains_key(m) implies g.node_ok(
        n_dim2,
        count,
        after,
        m,
    ) by {
        assert(f.node_ok(n_dim2, count, open, m));
        assert(g.inner(m) == f.inner(m));
        reveal(Forest::node_ok);
        reveal(Forest::kids_ok);
        reveal(Forest::rows_ok);
        if f.inner(m) {
            assert forall|i: int| 0 <= i < g.pages[m].len() implies g.child_ok(
                n_dim2,
                after,
                m,
                #[trigger] g.pages[m][i],
            ) by {
                assert(f.child_ok(n_dim2, open, m, f.pages[m][i]));
            }
        } else {
            assert forall|x: i64| #[trigger] lists(g.pages[m], x) implies g.row_ok(after, m, x) by {
                assert(f.row_ok(open, m, x));
            }
        }
    }
    assert forall|c: i64| #[trigger] g.up.contains_key(c) implies g.up_ok(after, c) by {
        assert(f.up_ok(open, c));
        assert(g.inner(f.up[c]) == f.inner(f.up[c]));
    }
    assert forall|x: i64| #[trigger] g.home.contains_key(x) implies g.home_ok(after, x) by {
        if x != r {
            assert(f.home_ok(open, x));
            assert(g.inner(f.home[x]) == f.inner(f.home[x]));
        } else {
            assert(g.inner(n) == f.inner(n));
        }
    }
}

/// An empty root is a tree.
pub proof fn lemma_sapling(n_dim2: nat)
    ensures
        Forest::sapling().ok(n_dim2, 1, Open::nothing()),
{
    let f = Forest::sapling();
    assert forall|n: i64| #[trigger] f.pages.contains_key(n) implies f.node_ok(
        n_dim2,
        1,
        Open::nothing(),
        n,
    ) by {
        reveal(Forest::node_ok);
        reveal(Forest::rows_ok);
        reveal(lists);
        reveal(distinct);
        reveal(boxes);
    }
}

} // verus!
