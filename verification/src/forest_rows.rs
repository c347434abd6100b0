//! The rows that the leaves of the tree hold.

use vstd::prelude::*;
use crate::forest::{distinct, lemma_lists, lists, Forest, Open};
use crate::forest_split::LeafSplit;
use crate::node::CellView;

verus! {

impl Forest {
    /// The cell is one of a leaf.
    pub open spec fn holds(self, c: CellView) -> bool {
        exists|n: i64| #[trigger]
            self.pages.contains_key(n) && !self.inner(n) && self.pages[n].contains(c)
    }

    /// The rows of all leaves.
    pub open spec fn rows(self) -> Set<CellView> {
        Set::new(|c: CellView| self.holds(c))
    }
}

/// Two forests whose leaves are the same have the same rows.
pub proof fn lemma_same_leaves(f: Forest, g: Forest)
    requires
        forall|n: i64| #[trigger]
            f.pages.contains_key(n) && !f.inner(n) && f.pages[n].len() > 0
                ==> g.pages.contains_key(n) && !g.inner(n) && g.pages[n] == f.pages[n],
        forall|n: i64| #[trigger]
            g.pages.contains_key(n) && !g.inner(n) && g.pages[n].len() > 0
                ==> f.pages.contains_key(n) && !f.inner(n) && f.pages[n] == g.pages[n],
    ensures
        g.rows() == f.rows(),
{
    assert forall|c: CellView| f.holds(c) == g.holds(c) by {
        if f.holds(c) {
            let n = choose|n: i64| #[trigger]
                f.pages.contains_key(n) && !f.inner(n) && f.pages[n].contains(c);
            assert(g.pages.contains_key(n) && !g.inner(n) && g.pages[n].contains(c));
        }
        if g.holds(c) {
            let n = choose|n: i64| #[trigger]
                g.pages.contains_key(n) && !g.inner(n) && g.pages[n].contains(c);
            assert(f.pages.contains_key(n) && !f.inner(n) && f.pages[n].contains(c));
        }
    }
    assert(g.rows() =~= f.rows());
}

/// A leaf with one more cell.
pub proof fn lemma_rows_with_one_more(f: Forest, n: i64, cell: CellView)
    requires
        f.pages.contains_key(n),
        !f.inner(n),
        !f.with_page(n, f.pages[n].push(cell)).inner(n),
    ensures
        f.with_page(n, f.pages[n].push(cell)).rows() == f.rows().insert(cell),
{
    let cells = f.pages[n].push(cell);
    let g = f.with_page(n, cells);
    assert forall|c: CellView| g.holds(c) == (f.holds(c) || c == cell) by {
        if g.holds(c) && c != cell {
            let m = choose|m: i64| #[trigger]
                g.pages.contains_key(m) && !g.inner(m) && g.pages[m].contains(c);
            assert(f.pages.contains_key(m) && !f.inner(m));
            if m == n {
                let i = cells.index_of(c);
                assert(f.pages[n][i] == c);
            }
            assert(f.pages[m].contains(c));
        }
        if f.holds(c) {
            let m = choose|m: i64| #[trigger]
                f.pages.contains_key(m) && !f.inner(m) && f.pages[m].contains(c);
            assert(g.pages.contains_key(m) && !g.inner(m));
            if m == n {
                let i = f.pages[n].index_of(c);
                assert(cells[i] == c);
            }
            assert(g.pages[m].contains(c));
        }
        assert(cells[cells.len() - 1] == cell);
        assert(g.pages.contains_key(n) && !g.inner(n) && g.pages[n].contains(cell));
    }
    assert(g.rows() =~= f.rows().insert(cell));
}

/// A leaf with one cell less, where no other leaf has the cell.
pub proof fn lemma_rows_with_one_less(f: Forest, n: i64, i: int)
    requires
        f.pages.contains_key(n),
        !f.inner(n),
        0 <= i < f.pages[n].len(),
        distinct(f.pages[n]),
        f.only_in(f.pages[n][i].rowid, n),
        !f.with_page(n, f.pages[n].remove(i)).inner(n),
    ensures
        f.with_page(n, f.pages[n].remove(i)).rows() == f.rows().remove(f.pages[n][i]),
{
    let cell = f.pages[n][i];
    let cells = f.pages[n].remove(i);
    let g = f.with_page(n, cells);
    assert forall|c: CellView| g.holds(c) == (f.holds(c) && c != cell) by {
        if g.holds(c) {
            let m = choose|m: i64| #[trigger]
                g.pages.contains_key(m) && !g.inner(m) && g.pages[m].contains(c);
            assert(f.pages.contains_key(m) && !f.inner(m));
            let k = g.pages[m].index_of(c);
            if m == n {
                let at = if k < i {
                    k
                } else {
                    k + 1
                };
                assert(f.pages[n][at] == c);
                reveal(distinct);
                if at < i {
                    assert(f.pages[n][at].rowid != f.pages[n][i].rowid);
                } else {
                    assert(f.pages[n][i].rowid != f.pages[n][at].rowid);
                }
            } else {
                assert(f.pages[m][k] == c);
                lemma_lists(f.pages[m], k);
            }
            assert(f.pages[m].contains(c));
        }
        if f.holds(c) && c != cell {
            let m = choose|m: i64| #[trigger]
                f.pages.contains_key(m) && !f.inner(m) && f.pages[m].contains(c);
            assert(g.pages.contains_key(m) && !g.inner(m));
            if m == n {
                let k = f.pages[n].index_of(c);
                assert(cells[if k < i {
                    k
                } else {
                    k - 1
                }] == c);
            }
            assert(g.pages[m].contains(c));
        }
    }
    assert(g.rows() =~= f.rows().remove(cell));
}

/// A leaf split below itself has the rows that it had and the new one.
pub proof fn lemma_rows_of_split(split: LeafSplit, f: Forest, n_dim2: nat, count: i64, open: Open)
    requires
        split.fits(f, n_dim2, count, open),
    ensures
        split.made(f).rows() == f.rows().insert(split.cell),
{
    let g = split.made(f);
    let left_no = split.left_box.rowid;
    let right_no = split.right_box.rowid;
    let all = f.pages[split.n].push(split.cell);
    split.lemma_kinds(f, n_dim2, count, open);
    let both = split.left + split.right;
    let k = split.left.len() as int;
    assert forall|c: CellView| #[trigger] both.contains(c) == (split.left.contains(c)
        || split.right.contains(c)) by {
        if split.left.contains(c) {
            assert(both[split.left.index_of(c)] == c);
        }
        if split.right.contains(c) {
            assert(both[k + split.right.index_of(c)] == c);
        }
        if both.contains(c) {
            let i = both.index_of(c);
            if i < k {
                assert(split.left[i] == c);
            } else {
                assert(split.right[i - k] == c);
            }
        }
    }
    assert forall|c: CellView| #[trigger] all.contains(c) == (f.pages[split.n].contains(c) || c
        == split.cell) by {
        if f.pages[split.n].contains(c) {
            assert(all[f.pages[split.n].index_of(c)] == c);
        }
        if all.contains(c) && c != split.cell {
            assert(f.pages[split.n][all.index_of(c)] == c);
        }
        assert(all[f.pages[split.n].len() as int] == split.cell);
    }
    assert forall|c: CellView| g.holds(c) == (f.holds(c) || c == split.cell) by {
        assert(both.contains(c) == all.contains(c));
        if g.holds(c) && c != split.cell {
            let m = choose|m: i64| #[trigger]
                g.pages.contains_key(m) && !g.inner(m) && g.pages[m].contains(c);
            if m == left_no || m == right_no {
                assert(both.contains(c));
                assert(f.pages.contains_key(split.n) && f.pages[split.n].contains(c));
            } else {
                assert(g.inner(m) == f.inner(m));
                assert(f.pages.contains_key(m) && f.pages[m].contains(c));
            }
        }
        if f.holds(c) || c == split.cell {
            if all.contains(c) {
                assert(g.pages.contains_key(left_no) && g.pages.contains_key(right_no));
                assert(g.pages[left_no].contains(c) || g.pages[right_no].contains(c));
            } else {
                let m = choose|m: i64| #[trigger]
                    f.pages.contains_key(m) && !f.inner(m) && f.pages[m].contains(c);
                assert(g.inner(m) == f.inner(m));
                assert(g.pages.contains_key(m) && g.pages[m].contains(c));
            }
        }
    }
    assert(g.rows() =~= f.rows().insert(split.cell));
}

/// Without a leaf, whose rows are in no other leaf, the rows of the others are left.
pub proof fn lemma_rows_without_leaf(f: Forest, g: Forest, x: i64)
    requires
        f.pages.contains_key(x),
        !f.inner(x),
        forall|r: i64| #[trigger] lists(f.pages[x], r) ==> f.only_in(r, x),
        forall|n: i64| #[trigger]
            f.pages.contains_key(n) && !f.inner(n) && f.pages[n].len() > 0 && n != x
                ==> g.pages.contains_key(n) && !g.inner(n) && g.pages[n] == f.pages[n],
        forall|n: i64| #[trigger]
            g.pages.contains_key(n) && !g.inner(n) && g.pages[n].len() > 0 ==> n != x
                && f.pages.contains_key(n) && !f.inner(n) && f.pages[n] == g.pages[n],
    ensures
        g.rows() == f.rows().difference(f.pages[x].to_set()),
{
    assert forall|c: CellView| g.holds(c) == (f.holds(c) && !f.pages[x].contains(c)) by {
        if g.holds(c) {
            let n = choose|n: i64| #[trigger]
                g.pages.contains_key(n) && !g.inner(n) && g.pages[n].contains(c);
            assert(f.pages.contains_key(n) && !f.inner(n) && f.pages[n].contains(c));
            if f.pages[x].contains(c) {
                lemma_lists(f.pages[x], f.pages[x].index_of(c));
                lemma_lists(f.pages[n], f.pages[n].index_of(c));
            }
        }
        if f.holds(c) && !f.pages[x].contains(c) {
            let n = choose|n: i64| #[trigger]
                f.pages.contains_key(n) && !f.inner(n) && f.pages[n].contains(c);
            assert(g.pages.contains_key(n) && !g.inner(n) && g.pages[n].contains(c));
        }
    }
    assert(g.rows() =~= f.rows().difference(f.pages[x].to_set()));
}

/// A row that is noted and not loose is in no other leaf.
pub proof fn lemma_noted_row_is_unique(f: Forest, n_dim2: nat, count: i64, open: Open, n: i64, r: i64)
    requires
        f.ok(n_dim2, count, open),
        f.pages.contains_key(n),
        !f.inner(n),
        lists(f.pages[n], r),
        !open.loose.contains(r),
    ensures
        f.only_in(r, n),
        f.home.contains_key(r),
        f.home[r] == n,
{
    f.lemma_node(n_dim2, count, open, n);
    assert(f.row_ok(open, n, r));
    assert forall|m: i64| #[trigger] f.pages.contains_key(m) && !f.inner(m) && m != n implies !lists(
        f.pages[m],
        r,
    ) by {
        f.lemma_node(n_dim2, count, open, m);
        if lists(f.pages[m], r) {
            assert(f.row_ok(open, m, r));
        }
    }
}

/// In a tree where nothing is open a row is stored if and only if its node is noted, and each row id
/// has one row.
pub proof fn lemma_rows_by_id(f: Forest, n_dim2: nat, count: i64, r: i64)
    requires
        f.ok(n_dim2, count, Open::nothing()),
    ensures
        f.home.contains_key(r) ==> ({
            let cells = f.pages[f.home[r]];
            &&& f.pages.contains_key(f.home[r])
            &&& !f.inner(f.home[r])
            &&& lists(cells, r)
            &&& forall|i: int| 0 <= i < cells.len() ==> f.holds(#[trigger] cells[i])
        }),
        forall|c: CellView| #[trigger] f.holds(c) && c.rowid == r ==> f.home.contains_key(r)
            && f.pages[f.home[r]].contains(c),
        forall|c: CellView, d: CellView|
            #[trigger] f.holds(c) && #[trigger] f.holds(d) && c.rowid == r && d.rowid == r ==> c
                == d,
{
    let open = Open::nothing();
    if f.home.contains_key(r) {
        assert(f.home_ok(open, r));
        let n = f.home[r];
        assert forall|i: int| 0 <= i < f.pages[n].len() implies f.holds(
            #[trigger] f.pages[n][i],
        ) by {
            assert(f.pages[n].contains(f.pages[n][i]));
        }
    }
    assert forall|c: CellView| #[trigger] f.holds(c) && c.rowid == r implies f.home.contains_key(r)
        && f.pages[f.home[r]].contains(c) by {
        let n = choose|n: i64| #[trigger]
            f.pages.contains_key(n) && !f.inner(n) && f.pages[n].contains(c);
        lemma_lists(f.pages[n], f.pages[n].index_of(c));
        lemma_noted_row_is_unique(f, n_dim2, count, open, n, r);
    }
    assert forall|c: CellView, d: CellView|
        #[trigger] f.holds(c) && #[trigger] f.holds(d) && c.rowid == r && d.rowid == r implies c
        == d by {
        let n = f.home[r];
        f.lemma_node(n_dim2, count, open, n);
        let i = f.pages[n].index_of(c);
        let j = f.pages[n].index_of(d);
        reveal(distinct);
        if i < j {
            assert(f.pages[n][i].rowid != f.pages[n][j].rowid);
        } else if j < i {
            assert(f.pages[n][j].rowid != f.pages[n][i].rowid);
        }
    }
}

} // verus!
