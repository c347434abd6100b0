//! Splitting a leaf of the tree below itself.

use vstd::prelude::*;
use crate::forest::{
    boxed, boxes, distinct, lemma_kids_stay, lemma_lists, lemma_place, lemma_push, lists, Forest,
    Open,
};
use crate::geometry;
use crate::node::CellView;

verus! {

/// The nodes of rows after some were moved to two nodes.
pub open spec fn moved(
    home: Map<i64, i64>,
    left: Seq<CellView>,
    left_no: i64,
    right: Seq<CellView>,
    right_no: i64,
) -> Map<i64, i64> {
    home.map_entries(
        |r: i64, n: i64|
            if lists(right, r) {
                right_no
            } else if lists(left, r) {
                left_no
            } else {
                n
            },
    )
}

impl Forest {
    /// The forest after a leaf became the parent of two new leaves, under which their rows are
    /// noted.
    pub open spec fn leaf_split(
        self,
        n: i64,
        left: Seq<CellView>,
        left_no: i64,
        left_box: CellView,
        right: Seq<CellView>,
        right_no: i64,
        right_box: CellView,
    ) -> Forest {
        Forest {
            pages: self.pages.insert(left_no, left).insert(right_no, right).insert(
                n,
                seq![left_box, right_box],
            ),
            up: self.up.insert(left_no, n).insert(right_no, n),
            home: moved(self.home, left, left_no, right, right_no),
            high: self.high || n == 1,
        }
    }
}

/// Two lists that hold the cells of one list together.
proof fn lemma_two_halves(
    all: Seq<CellView>,
    left: Seq<CellView>,
    right: Seq<CellView>,
    n_dim2: nat,
)
    requires
        forall|c: CellView| #[trigger] (left + right).contains(c) == all.contains(c),
        distinct(left + right),
        boxes(all, n_dim2),
    ensures
        distinct(left),
        distinct(right),
        boxes(left, n_dim2),
        boxes(right, n_dim2),
        forall|id: i64| #[trigger] lists(all, id) == (lists(left, id) || lists(right, id)),
        forall|id: i64| #[trigger] lists(left, id) ==> !lists(right, id),
{
    reveal(distinct);
    reveal(boxes);
    let both = left + right;
    let k = left.len() as int;
    assert forall|i: int| 0 <= i < left.len() implies left[i] == both[i] by {}
    assert forall|i: int| 0 <= i < right.len() implies right[i] == both[k + i] by {}
    assert forall|i: int, j: int| 0 <= i < j < left.len() implies #[trigger] left[i].rowid
        != #[trigger] left[j].rowid by {
        assert(both[i].rowid != both[j].rowid);
    }
    assert forall|i: int, j: int| 0 <= i < j < right.len() implies #[trigger] right[i].rowid
        != #[trigger] right[j].rowid by {
        assert(both[k + i].rowid != both[k + j].rowid);
    }
    assert forall|i: int| 0 <= i < both.len() implies geometry::is_box(#[trigger] both[i], n_dim2)
        && lists(all, both[i].rowid) by {
        assert(both.contains(both[i]));
        let j = all.index_of(both[i]);
        assert(geometry::is_box(all[j], n_dim2));
        lemma_lists(all, j);
    }
    assert forall|i: int| 0 <= i < left.len() implies geometry::is_box(#[trigger] left[i], n_dim2) by {
        assert(geometry::is_box(both[i], n_dim2));
    }
    assert forall|i: int| 0 <= i < right.len() implies geometry::is_box(
        #[trigger] right[i],
        n_dim2,
    ) by {
        assert(geometry::is_box(both[k + i], n_dim2));
    }
    assert forall|id: i64| #[trigger] lists(all, id) == (lists(left, id) || lists(right, id)) by {
        if lists(all, id) {
            let j = lemma_place(all, id);
            assert(all.contains(all[j]));
            assert(both.contains(all[j]));
            let i = both.index_of(all[j]);
            if i < k {
                lemma_lists(left, i);
            } else {
                lemma_lists(right, i - k);
            }
        }
        if lists(left, id) {
            let i = lemma_place(left, id);
            assert(lists(all, both[i].rowid));
        }
        if lists(right, id) {
            let i = lemma_place(right, id);
            assert(lists(all, both[k + i].rowid));
        }
    }
    assert forall|id: i64| #[trigger] lists(left, id) implies !lists(right, id) by {
        let i = lemma_place(left, id);
        if lists(right, id) {
            let j = lemma_place(right, id);
            assert(both[i].rowid != both[k + j].rowid);
        }
    }
}

/// A leaf that is to be split below itself, with the two lists that its rows and the new one go to
/// and the boxes around them.
#[verifier::ext_equal]
pub struct LeafSplit {
    pub n: i64,
    pub cell: CellView,
    pub left: Seq<CellView>,
    pub left_box: CellView,
    pub right: Seq<CellView>,
    pub right_box: CellView,
}

impl LeafSplit {
    /// The split can be made in a tree whose node numbers go up to `count`.
    pub open spec fn fits(self, f: Forest, n_dim2: nat, count: i64, open: Open) -> bool {
        &&& f.ok(n_dim2, count, open)
        &&& count <= i64::MAX - 2
        &&& open.adrift =~= Set::empty()
        &&& f.pages.contains_key(self.n)
        &&& !f.inner(self.n)
        &&& open.loose.contains(self.cell.rowid)
        &&& f.absent(self.cell.rowid)
        &&& geometry::is_box(self.cell, n_dim2)
        &&& distinct(self.left + self.right)
        &&& forall|c: CellView| #[trigger]
            (self.left + self.right).contains(c) == f.pages[self.n].push(self.cell).contains(c)
        &&& self.left.len() > 0
        &&& self.right.len() > 0
        &&& self.left_box.rowid == count + 1
        &&& self.right_box.rowid == count + 2
        &&& geometry::is_box(self.left_box, n_dim2)
        &&& geometry::is_box(self.right_box, n_dim2)
        &&& boxed(self.left_box, self.left, n_dim2)
        &&& boxed(self.right_box, self.right, n_dim2)
    }

    /// The forest behind the split.
    pub open spec fn made(self, f: Forest) -> Forest {
        f.leaf_split(
            self.n,
            self.left,
            self.left_box.rowid,
            self.left_box,
            self.right,
            self.right_box.rowid,
            self.right_box,
        )
    }

    /// The node that the new row is in behind the split.
    pub open spec fn spot(self) -> i64 {
        if lists(self.left, self.cell.rowid) {
            self.left_box.rowid
        } else {
            self.right_box.rowid
        }
    }

    /// Which nodes the split leaves as they were, and where the rows of the leaf are behind it.
    #[verifier::rlimit(30)]
    pub proof fn lemma_kinds(self, f: Forest, n_dim2: nat, count: i64, open: Open)
        requires
            self.fits(f, n_dim2, count, open),
        ensures
            !f.pages.contains_key(self.left_box.rowid),
            !f.pages.contains_key(self.right_box.rowid),
            !f.up.contains_key(self.left_box.rowid),
            !f.up.contains_key(self.right_box.rowid),
            1 <= self.n <= count,
            self.made(f).inner(self.n),
            !self.made(f).inner(self.left_box.rowid),
            !self.made(f).inner(self.right_box.rowid),
            forall|m: i64|
                f.pages.contains_key(m) && m != self.n ==> #[trigger] self.made(f).inner(m)
                    == f.inner(m),
            distinct(self.left),
            distinct(self.right),
            boxes(self.left, n_dim2),
            boxes(self.right, n_dim2),
            !lists(f.pages[self.n], self.cell.rowid),
    {
        let g = self.made(f);
        let left_no = self.left_box.rowid;
        let right_no = self.right_box.rowid;
        let all = f.pages[self.n].push(self.cell);
        f.lemma_node(n_dim2, count, open, self.n);
        lemma_push(f.pages[self.n], self.cell, n_dim2);
        lemma_two_halves(all, self.left, self.right, n_dim2);
        if f.pages.contains_key(left_no) {
            f.lemma_node(n_dim2, count, open, left_no);
        }
        if f.pages.contains_key(right_no) {
            f.lemma_node(n_dim2, count, open, right_no);
        }
        if f.up.contains_key(left_no) {
            assert(f.up_ok(open, left_no));
        }
        if f.up.contains_key(right_no) {
            assert(f.up_ok(open, right_no));
        }
        assert forall|c: i64| #[trigger] g.up.contains_key(c) implies g.up[c] != left_no && g.up[c]
            != right_no by {
            if c != left_no && c != right_no {
                assert(f.up_ok(open, c));
            }
        }
        assert forall|m: i64| f.pages.contains_key(m) && m != self.n implies #[trigger] g.inner(m)
            == f.inner(m) by {
            lemma_kids_stay(f, n_dim2, count, open, m);
            if m != 1 && f.pages[m].len() > 0 {
                lemma_lists(f.pages[m], 0);
            }
        }
    }

    /// Where a row is noted behind the split.
    proof fn lemma_rows(self, f: Forest, n_dim2: nat, count: i64, open: Open, r: i64)
        requires
            self.fits(f, n_dim2, count, open),
        ensures
            lists(f.pages[self.n], r) || r == self.cell.rowid <==> lists(self.left, r) || lists(
                self.right,
                r,
            ),
            lists(self.left, r) && r != self.cell.rowid ==> f.row_ok(open, self.n, r),
            lists(self.right, r) && r != self.cell.rowid ==> f.row_ok(open, self.n, r),
            lists(self.left, r) ==> !lists(self.right, r),
            f.home.contains_key(r) && !open.loose.contains(r) ==> self.made(f).home[r] == if lists(
                self.left,
                r,
            ) {
                self.left_box.rowid
            } else if lists(self.right, r) {
                self.right_box.rowid
            } else {
                f.home[r]
            },
            lists(self.left, self.cell.rowid) || lists(self.right, self.cell.rowid),
            f.home.contains_key(r) == self.made(f).home.contains_key(r),
    {
        let all = f.pages[self.n].push(self.cell);
        f.lemma_node(n_dim2, count, open, self.n);
        assert(!lists(f.pages[self.n], self.cell.rowid));
        lemma_push(f.pages[self.n], self.cell, n_dim2);
        lemma_two_halves(all, self.left, self.right, n_dim2);
        assert(lists(all, r) == (lists(self.left, r) || lists(self.right, r)));
        assert(lists(all, self.cell.rowid));
    }

    proof fn lemma_new_node(self, f: Forest, n_dim2: nat, count: i64, open: Open, m: i64)
        requires
            self.fits(f, n_dim2, count, open),
            m == self.left_box.rowid || m == self.right_box.rowid || m == self.n,
        ensures
            self.made(f).node_ok(
                n_dim2,
                self.right_box.rowid,
                (Open { gap: open.gap.insert(self.n), ..open }),
                m,
            ),
    {
        let g = self.made(f);
        let after = Open { gap: open.gap.insert(self.n), ..open };
        self.lemma_kinds(f, n_dim2, count, open);
        reveal(Forest::node_ok);
        if m == self.n {
            let two = seq![self.left_box, self.right_box];
            reveal(Forest::kids_ok);
            reveal(distinct);
            reveal(boxes);
            assert(g.pages[m] == two);
            assert forall|i: int| 0 <= i < two.len() implies g.child_ok(
                n_dim2,
                after,
                m,
                #[trigger] g.pages[m][i],
            ) by {}
        } else {
            reveal(Forest::rows_ok);
            assert forall|r: i64| #[trigger] lists(g.pages[m], r) implies g.row_ok(after, m, r) by {
                self.lemma_rows(f, n_dim2, count, open, r);
            }
        }
    }

    #[verifier::rlimit(30)]
    proof fn lemma_old_node(self, f: Forest, n_dim2: nat, count: i64, open: Open, m: i64)
        requires
            self.fits(f, n_dim2, count, open),
            f.pages.contains_key(m),
            m != self.n,
        ensures
            self.made(f).node_ok(
                n_dim2,
                self.right_box.rowid,
                (Open { gap: open.gap.insert(self.n), ..open }),
                m,
            ),
    {
        let g = self.made(f);
        let after = Open { gap: open.gap.insert(self.n), ..open };
        self.lemma_kinds(f, n_dim2, count, open);
        assert(f.node_ok(n_dim2, count, open, m));
        lemma_kids_stay(f, n_dim2, count, open, m);
        assert(g.inner(m) == f.inner(m));
        if f.inner(m) {
            assert forall|c: i64| lists(f.pages[m], c) implies {
                &&& #[trigger] g.pages.contains_key(c)
                &&& g.up.contains_key(c)
                &&& g.up[c] == f.up[c]
                &&& !after.adrift.contains(c)
                &&& after.gap.contains(c) || (!open.gap.contains(c) && g.pages[c] == f.pages[c])
            } by {}
        } else {
            assert forall|r: i64| #[trigger] lists(f.pages[m], r) implies after.loose.contains(r)
                || (!open.loose.contains(r) && g.home.contains_key(r) && g.home[r]
                == f.home[r]) by {
                self.lemma_rows(f, n_dim2, count, open, r);
                assert(f.row_ok(open, m, r));
                assert(r != self.cell.rowid || open.loose.contains(r));
            }
        }
        f.lemma_frame(g, n_dim2, count, self.right_box.rowid, open, after, m);
    }

    /// A leaf that is split below itself leaves a tree, where the boxes above it need not cover the
    /// new row yet.
    pub proof fn lemma_leaf_split(self, f: Forest, n_dim2: nat, count: i64, open: Open)
        requires
            self.fits(f, n_dim2, count, open),
        ensures
            ({
                let right_no = self.right_box.rowid;
                let g = self.made(f);
                &&& g.ok(n_dim2, right_no, (Open { gap: open.gap.insert(self.n), ..open }))
                &&& g.only_in(self.cell.rowid, self.spot())
                &&& g.pages.contains_key(self.spot())
                &&& !g.inner(self.spot())
                &&& lists(g.pages[self.spot()], self.cell.rowid)
            }),
    {
        let g = self.made(f);
        let after = Open { gap: open.gap.insert(self.n), ..open };
        let left_no = self.left_box.rowid;
        let right_no = self.right_box.rowid;
        let two = seq![self.left_box, self.right_box];
        self.lemma_kinds(f, n_dim2, count, open);
        self.lemma_rows(f, n_dim2, count, open, self.cell.rowid);
        assert forall|m: i64| #[trigger] g.pages.contains_key(m) implies g.node_ok(
            n_dim2,
            right_no,
            after,
            m,
        ) by {
            if m == left_no || m == right_no || m == self.n {
                self.lemma_new_node(f, n_dim2, count, open, m);
            } else {
                self.lemma_old_node(f, n_dim2, count, open, m);
            }
        }
        assert forall|c: i64| #[trigger] g.up.contains_key(c) implies g.up_ok(after, c) by {
            if c == left_no {
                lemma_lists(two, 0);
            } else if c == right_no {
                lemma_lists(two, 1);
            } else {
                assert(f.up_ok(open, c));
                assert(g.inner(f.up[c]) == f.inner(f.up[c]));
            }
        }
        assert forall|r: i64| #[trigger] g.home.contains_key(r) implies g.home_ok(after, r) by {
            self.lemma_rows(f, n_dim2, count, open, r);
            assert(f.home_ok(open, r));
            if !open.loose.contains(r) && f.home[r] != self.n {
                assert(g.inner(f.home[r]) == f.inner(f.home[r]));
            }
        }
        assert forall|m: i64| #[trigger]
            g.pages.contains_key(m) && !g.inner(m) && m != self.spot() implies !lists(
            g.pages[m],
            self.cell.rowid,
        ) by {
            if m != left_no && m != right_no {
                assert(f.pages.contains_key(m) && g.inner(m) == f.inner(m));
                f.lemma_node(n_dim2, count, open, m);
            }
        }
    }
}

} // verus!
