//! The rows that a query of the tree comes to.

use vstd::prelude::*;
use crate::constraint;
use crate::constraint::RtreeConstraint;
use crate::cursor;
use crate::cursor::Visit;
use crate::forest;
use crate::forest::{boxed, boxes, distinct, lists, Forest, Open};
use crate::forest_rows;
use crate::geometry;
use crate::node::{CellView, RTREE_MAX_COORDS};

verus! {

impl Forest {
    /// Node `m` is `n`, or its parents lead up to it.
    pub open spec fn below(self, m: i64, n: i64) -> bool
        decreases m - n,
    {
        m == n || (m > n && self.up.contains_key(m) && n <= self.up[m] < m && self.below(
            self.up[m],
            n,
        ))
    }

    /// The rows that a query comes to from the nodes still to visit, the next one last.
    pub open spec fn to_come(
        self,
        todo: Seq<Visit>,
        constraints: Seq<RtreeConstraint>,
        n_dim2: nat,
    ) -> Seq<CellView>
        decreases cursor::weight(todo),
        via Forest::to_come_ends
    {
        if todo.len() == 0 {
            Seq::empty()
        } else {
            let n = todo.last().nodeno;
            let levels = todo.last().levels;
            let cells = self.pages[n];
            if !self.pages.contains_key(n) || cells.len() >= 0x1_0000 {
                self.to_come(todo.drop_last(), constraints, n_dim2)
            } else if !self.inner(n) {
                self.to_come(todo.drop_last(), constraints, n_dim2) + cursor::hits(
                    cells,
                    constraints,
                    n_dim2,
                )
            } else if levels == 0 {
                self.to_come(todo.drop_last(), constraints, n_dim2)
            } else {
                self.to_come(
                    todo.drop_last() + cursor::visits(
                        cells,
                        constraints,
                        n_dim2,
                        (levels - 1) as u64,
                    ),
                    constraints,
                    n_dim2,
                )
            }
        }
    }

    #[via_fn]
    proof fn to_come_ends(
        self,
        todo: Seq<Visit>,
        constraints: Seq<RtreeConstraint>,
        n_dim2: nat,
    ) {
        if todo.len() > 0 {
            cursor::lemma_visit_leads_on(todo, Seq::empty(), constraints, n_dim2);
            if self.pages[todo.last().nodeno].len() < 0x1_0000 {
                cursor::lemma_visit_leads_on(
                    todo,
                    self.pages[todo.last().nodeno],
                    constraints,
                    n_dim2,
                );
            }
        }
    }

    /// The nodes of a list of visits are in the tree, and the levels that a visit may go down are
    /// enough for every node below.
    pub open spec fn reachable(self, todo: Seq<Visit>) -> bool {
        forall|k: int| 0 <= k < todo.len() ==> {
            let v = #[trigger] todo[k];
            &&& self.pages.contains_key(v.nodeno)
            &&& v.levels >= i64::MAX - v.nodeno
        }
    }

    /// No node is below two nodes of a list of visits.
    pub open spec fn apart(self, todo: Seq<Visit>) -> bool {
        forall|i: int, j: int, m: i64|
            0 <= i < j < todo.len() && #[trigger] self.below(m, todo[i].nodeno)
                ==> !#[trigger] self.below(m, todo[j].nodeno)
    }

    /// The row is in a leaf below a node of a list of visits.
    pub open spec fn within(self, todo: Seq<Visit>, c: CellView) -> bool {
        exists|k: int, m: i64|
            0 <= k < todo.len() && #[trigger] self.below(m, todo[k].nodeno)
                && self.pages.contains_key(m) && !self.inner(m) && #[trigger] self.pages[m].contains(
                c,
            )
    }

    /// The pages are those of a table: none holds more cells than its count can say.
    pub open spec fn small(self) -> bool {
        forall|n: i64| #[trigger] self.pages.contains_key(n) ==> self.pages[n].len() < 0x1_0000
    }
}

/// A parent has the smaller number, and is an inner node.
proof fn lemma_parent(f: Forest, n_dim2: nat, count: i64, m: i64)
    requires
        f.ok(n_dim2, count, Open::nothing()),
        f.up.contains_key(m),
    ensures
        1 <= f.up[m] < m,
        f.pages.contains_key(m),
        f.pages.contains_key(f.up[m]),
        f.inner(f.up[m]),
        lists(f.pages[f.up[m]], m),
{
    assert(f.up_ok(Open::nothing(), m));
    forest::lemma_kids_stay(f, n_dim2, count, Open::nothing(), f.up[m]);
    f.lemma_node(n_dim2, count, Open::nothing(), f.up[m]);
}

/// Every node is below the root.
proof fn lemma_root_is_above(f: Forest, n_dim2: nat, count: i64, m: i64)
    requires
        f.ok(n_dim2, count, Open::nothing()),
        f.pages.contains_key(m),
    ensures
        f.below(m, 1),
    decreases m,
{
    f.lemma_node(n_dim2, count, Open::nothing(), m);
    if m != 1 {
        assert(f.up.contains_key(m));
        lemma_parent(f, n_dim2, count, m);
        lemma_root_is_above(f, n_dim2, count, f.up[m]);
    }
}

/// Of two nodes above a third one is below the other.
proof fn lemma_one_way_up(f: Forest, m: i64, a: i64, b: i64)
    requires
        f.below(m, a),
        f.below(m, b),
        a <= b,
    ensures
        f.below(b, a),
    decreases m - b,
{
    if m != b {
        lemma_one_way_up(f, f.up[m], a, b);
    }
}

/// The child of a node through which another is below it.
proof fn lemma_way_down(f: Forest, m: i64, n: i64) -> (x: i64)
    requires
        f.below(m, n),
        m != n,
    ensures
        f.up.contains_key(x),
        f.up[x] == n,
        x > n,
        f.below(m, x),
    decreases m - n,
{
    if f.up[m] == n {
        m
    } else {
        let x = lemma_way_down(f, f.up[m], n);
        x
    }
}

/// A node below a child is below the parent.
proof fn lemma_below_parent(f: Forest, n_dim2: nat, count: i64, m: i64, x: i64)
    requires
        f.ok(n_dim2, count, Open::nothing()),
        f.below(m, x),
        f.up.contains_key(x),
    ensures
        f.below(m, f.up[x]),
    decreases m - x,
{
    lemma_parent(f, n_dim2, count, x);
    if m != x {
        lemma_below_parent(f, n_dim2, count, f.up[m], x);
    } else {
        assert(f.below(f.up[x], f.up[x]));
    }
}

/// The box of a node covers every cell of the nodes below it.
proof fn lemma_box_covers_below(
    f: Forest,
    n_dim2: nat,
    count: i64,
    m: i64,
    k: int,
    p: i64,
    i: int,
)
    requires
        n_dim2 % 2 == 0,
        f.ok(n_dim2, count, Open::nothing()),
        f.pages.contains_key(m),
        0 <= k < f.pages[m].len(),
        f.pages.contains_key(p),
        f.inner(p),
        0 <= i < f.pages[p].len(),
        f.below(m, f.pages[p][i].rowid),
    ensures
        geometry::covers(f.pages[p][i], f.pages[m][k], n_dim2),
    decreases m - f.pages[p][i].rowid,
{
    let x = f.pages[p][i].rowid;
    f.lemma_child(n_dim2, count, Open::nothing(), p, i);
    reveal(boxed);
    if m == x {
        assert(geometry::covers(f.pages[p][i], f.pages[m][k], n_dim2));
    } else {
        let q = f.up[m];
        lemma_parent(f, n_dim2, count, m);
        let j = forest::lemma_place(f.pages[q], m);
        f.lemma_child(n_dim2, count, Open::nothing(), q, j);
        assert(geometry::covers(f.pages[q][j], f.pages[m][k], n_dim2));
        lemma_box_covers_below(f, n_dim2, count, q, j, p, i);
        geometry::lemma_box_has_numbers(f.pages[q][j], n_dim2);
        geometry::lemma_covers_transitive(f.pages[p][i], f.pages[q][j], f.pages[m][k], n_dim2);
    }
}

/// The rows of a leaf that are ready are those that meet the constraints.
pub proof fn lemma_hits(cells: Seq<CellView>, constraints: Seq<RtreeConstraint>, n_dim2: nat)
    ensures
        forall|c: CellView| #[trigger]
            cursor::hits(cells, constraints, n_dim2).contains(c) == (cells.contains(c)
                && constraint::leaf_matches(constraints, c, n_dim2)),
        distinct(cells) ==> cursor::hits(cells, constraints, n_dim2).no_duplicates(),
    decreases cells.len(),
{
    let all = cursor::hits(cells, constraints, n_dim2);
    if cells.len() > 0 {
        let less = cells.drop_first();
        let rest = cursor::hits(less, constraints, n_dim2);
        lemma_hits(less, constraints, n_dim2);
        let taken = constraint::leaf_matches(constraints, cells[0], n_dim2);
        assert forall|c: CellView| #[trigger] all.contains(c) == (cells.contains(c)
            && constraint::leaf_matches(constraints, c, n_dim2)) by {
            assert(cells.contains(c) == (c == cells[0] || less.contains(c))) by {
                if less.contains(c) {
                    assert(cells[less.index_of(c) + 1] == c);
                }
                if cells.contains(c) && c != cells[0] {
                    assert(less[cells.index_of(c) - 1] == c);
                }
            }
            if taken {
                if rest.contains(c) {
                    assert(all[rest.index_of(c)] == c);
                }
                if all.contains(c) && c != cells[0] {
                    assert(rest[all.index_of(c)] == c);
                }
                if c == cells[0] {
                    assert(all[rest.len() as int] == c);
                }
            }
        }
        if distinct(cells) {
            reveal(distinct);
            assert(distinct(less)) by {
                assert forall|a: int, b: int| 0 <= a < b < less.len() implies #[trigger] less[a].rowid
                    != #[trigger] less[b].rowid by {
                    assert(cells[a + 1].rowid != cells[b + 1].rowid);
                }
            }
            if rest.contains(cells[0]) {
                assert(less.contains(cells[0]));
                let k = less.index_of(cells[0]);
                assert(cells[0].rowid != cells[k + 1].rowid);
            }
        }
    }
}

/// The children that a query goes on to are those that the constraints do not exclude, each once.
proof fn lemma_visits(
    cells: Seq<CellView>,
    constraints: Seq<RtreeConstraint>,
    n_dim2: nat,
    levels: u64,
)
    ensures
        ({
            let vs = cursor::visits(cells, constraints, n_dim2, levels);
            &&& forall|k: int| 0 <= k < vs.len() ==> (#[trigger] vs[k]).levels == levels && lists(
                cells,
                vs[k].nodeno,
            )
            &&& forall|i: int|
                0 <= i < cells.len() && constraint::nonleaf_matches(
                    constraints,
                    #[trigger] cells[i],
                    n_dim2,
                ) ==> vs.contains(Visit { nodeno: cells[i].rowid, levels })
            &&& distinct(cells) ==> forall|a: int, b: int|
                0 <= a < b < vs.len() ==> (#[trigger] vs[a]).nodeno != (#[trigger] vs[b]).nodeno
        }),
    decreases cells.len(),
{
    let vs = cursor::visits(cells, constraints, n_dim2, levels);
    if cells.len() > 0 {
        let less = cells.drop_first();
        let rest = cursor::visits(less, constraints, n_dim2, levels);
        lemma_visits(less, constraints, n_dim2, levels);
        let taken = constraint::nonleaf_matches(constraints, cells[0], n_dim2);
        let first = Visit { nodeno: cells[0].rowid, levels };
        assert forall|k: int| 0 <= k < vs.len() implies (#[trigger] vs[k]).levels == levels && lists(
            cells,
            vs[k].nodeno,
        ) by {
            if k < rest.len() {
                assert(vs[k] == rest[k]);
                let i = forest::lemma_place(less, rest[k].nodeno);
                forest::lemma_lists(cells, i + 1);
            } else {
                forest::lemma_lists(cells, 0);
            }
        }
        assert forall|i: int|
            0 <= i < cells.len() && constraint::nonleaf_matches(
                constraints,
                #[trigger] cells[i],
                n_dim2,
            ) implies vs.contains(Visit { nodeno: cells[i].rowid, levels }) by {
            if i == 0 {
                assert(vs[rest.len() as int] == first);
            } else {
                assert(less[i - 1] == cells[i]);
                let v = Visit { nodeno: cells[i].rowid, levels };
                assert(rest.contains(v));
                assert(vs[rest.index_of(v)] == v);
            }
        }
        if distinct(cells) {
            reveal(distinct);
            assert(distinct(less)) by {
                assert forall|a: int, b: int| 0 <= a < b < less.len() implies #[trigger] less[a].rowid
                    != #[trigger] less[b].rowid by {
                    assert(cells[a + 1].rowid != cells[b + 1].rowid);
                }
            }
            assert forall|a: int, b: int| 0 <= a < b < vs.len() implies (#[trigger] vs[a]).nodeno
                != (#[trigger] vs[b]).nodeno by {
                if b < rest.len() {
                    assert(vs[a] == rest[a] && vs[b] == rest[b]);
                } else {
                    assert(vs[a] == rest[a] && vs[b] == first);
                    let i = forest::lemma_place(less, rest[a].nodeno);
                    assert(cells[0].rowid != cells[i + 1].rowid);
                }
            }
        }
    }
}

/// Only a leaf itself is below a leaf.
proof fn lemma_leaf_is_last(f: Forest, n_dim2: nat, count: i64, m: i64, n: i64)
    requires
        f.ok(n_dim2, count, Open::nothing()),
        f.below(m, n),
        !f.inner(n),
    ensures
        m == n,
{
    if m != n {
        let x = lemma_way_down(f, m, n);
        lemma_parent(f, n_dim2, count, x);
    }
}

/// Going on to the children of a node loses no row that meets the constraints, and brings none in.
proof fn lemma_rows_through_children(
    f: Forest,
    n_dim2: nat,
    count: i64,
    todo: Seq<Visit>,
    constraints: Seq<RtreeConstraint>,
    c: CellView,
)
    requires
        f.ok(n_dim2, count, Open::nothing()),
        n_dim2 <= RTREE_MAX_COORDS,
        n_dim2 % 2 == 0,
        todo.len() > 0,
        f.pages.contains_key(todo.last().nodeno),
        f.inner(todo.last().nodeno),
        todo.last().levels > 0,
    ensures
        ({
            let vs = cursor::visits(
                f.pages[todo.last().nodeno],
                constraints,
                n_dim2,
                (todo.last().levels - 1) as u64,
            );
            constraint::leaf_matches(constraints, c, n_dim2) ==> f.within(todo, c) == f.within(
                todo.drop_last() + vs,
                c,
            )
        }),
{
    let n = todo.last().nodeno;
    let cells = f.pages[n];
    let levels = (todo.last().levels - 1) as u64;
    let vs = cursor::visits(cells, constraints, n_dim2, levels);
    let next = todo.drop_last() + vs;
    lemma_visits(cells, constraints, n_dim2, levels);
    if constraint::leaf_matches(constraints, c, n_dim2) {
        if f.within(todo, c) {
            let (k, m) = choose|k: int, m: i64|
                0 <= k < todo.len() && #[trigger] f.below(m, todo[k].nodeno)
                    && f.pages.contains_key(m) && !f.inner(m) && #[trigger] f.pages[m].contains(c);
            if k < todo.len() - 1 {
                assert(next[k] == todo[k]);
                assert(f.below(m, next[k].nodeno));
            } else {
                let x = lemma_way_down(f, m, n);
                lemma_parent(f, n_dim2, count, x);
                let i = forest::lemma_place(cells, x);
                let at = f.pages[m].index_of(c);
                lemma_box_covers_below(f, n_dim2, count, m, at, n, i);
                f.lemma_node(n_dim2, count, Open::nothing(), m);
                assert(geometry::is_box(f.pages[m][at], n_dim2)) by {
                    reveal(boxes);
                }
                constraint::lemma_matching_row_is_not_pruned(constraints, cells[i], c, n_dim2);
                let v = Visit { nodeno: x, levels };
                assert(vs.contains(v));
                let j = todo.len() - 1 + vs.index_of(v);
                assert(next[j] == v);
                assert(f.below(m, next[j].nodeno));
            }
        }
        if f.within(next, c) {
            let (k, m) = choose|k: int, m: i64|
                0 <= k < next.len() && #[trigger] f.below(m, next[k].nodeno)
                    && f.pages.contains_key(m) && !f.inner(m) && #[trigger] f.pages[m].contains(c);
            if k < todo.len() - 1 {
                assert(next[k] == todo[k]);
                assert(f.below(m, todo[k].nodeno));
            } else {
                let v = vs[k - (todo.len() - 1)];
                assert(next[k] == v);
                forest::lemma_kids_stay(f, n_dim2, count, Open::nothing(), n);
                lemma_below_parent(f, n_dim2, count, m, v.nodeno);
                assert(f.below(m, todo[todo.len() - 1].nodeno));
            }
        }
    }
}

/// The nodes that a query goes on to are in the tree, and no node is below two of them.
pub proof fn lemma_children_apart(
    f: Forest,
    n_dim2: nat,
    count: i64,
    todo: Seq<Visit>,
    constraints: Seq<RtreeConstraint>,
)
    requires
        f.ok(n_dim2, count, Open::nothing()),
        todo.len() > 0,
        f.reachable(todo),
        f.inner(todo.last().nodeno),
        todo.last().levels > 0,
    ensures
        ({
            let vs = cursor::visits(
                f.pages[todo.last().nodeno],
                constraints,
                n_dim2,
                (todo.last().levels - 1) as u64,
            );
            &&& f.reachable(todo.drop_last() + vs)
            &&& f.apart(todo) ==> f.apart(todo.drop_last() + vs)
        }),
{
    let n = todo.last().nodeno;
    let cells = f.pages[n];
    let levels = (todo.last().levels - 1) as u64;
    let vs = cursor::visits(cells, constraints, n_dim2, levels);
    let next = todo.drop_last() + vs;
    let old = todo.len() - 1;
    lemma_visits(cells, constraints, n_dim2, levels);
    assert(f.pages.contains_key(n)) by {
        assert(todo[old] == todo.last());
    }
    f.lemma_node(n_dim2, count, Open::nothing(), n);
    forest::lemma_kids_stay(f, n_dim2, count, Open::nothing(), n);
    assert forall|k: int| 0 <= k < next.len() implies {
        let v = #[trigger] next[k];
        &&& f.pages.contains_key(v.nodeno)
        &&& v.levels >= i64::MAX - v.nodeno
    } by {
        if k < old {
            assert(next[k] == todo[k]);
        } else {
            assert(next[k] == vs[k - old]);
            assert(todo[old].levels >= i64::MAX - todo[old].nodeno);
        }
    }
    if f.apart(todo) {
        assert forall|i: int, j: int, m: i64|
            0 <= i < j < next.len() && #[trigger] f.below(m, next[i].nodeno) implies !#[trigger] f.below(
            m,
            next[j].nodeno,
        ) by {
            if f.below(m, next[j].nodeno) {
                if j < old {
                    assert(next[i] == todo[i] && next[j] == todo[j]);
                    assert(!f.below(m, todo[j].nodeno));
                } else {
                    let w = vs[j - old];
                    assert(next[j] == w);
                    if i < old {
                        assert(next[i] == todo[i]);
                        lemma_below_parent(f, n_dim2, count, m, w.nodeno);
                        assert(f.below(m, todo[i].nodeno));
                        assert(!f.below(m, todo[old].nodeno));
                    } else {
                        let v = vs[i - old];
                        assert(next[i] == v);
                        let (a, b) = if v.nodeno < w.nodeno {
                            (v.nodeno, w.nodeno)
                        } else {
                            (w.nodeno, v.nodeno)
                        };
                        lemma_one_way_up(f, m, a, b);
                        assert(f.up[b] == n);
                    }
                }
            }
        }
    }
}

/// The rows that a query comes to are those of the leaves below the nodes to visit that meet the
/// constraints, each once.
pub proof fn lemma_to_come(
    f: Forest,
    n_dim2: nat,
    count: i64,
    todo: Seq<Visit>,
    constraints: Seq<RtreeConstraint>,
)
    requires
        f.ok(n_dim2, count, Open::nothing()),
        n_dim2 <= RTREE_MAX_COORDS,
        n_dim2 % 2 == 0,
        f.small(),
        f.reachable(todo),
    ensures
        forall|c: CellView| #[trigger]
            f.to_come(todo, constraints, n_dim2).contains(c) == (f.within(todo, c)
                && constraint::leaf_matches(constraints, c, n_dim2)),
        f.apart(todo) ==> f.to_come(todo, constraints, n_dim2).no_duplicates(),
    decreases cursor::weight(todo), 1int,
{
    let rows = f.to_come(todo, constraints, n_dim2);
    if todo.len() == 0 {
    } else {
        let last = todo.last();
        let n = last.nodeno;
        let cells = f.pages[n];
        let old = todo.len() - 1;
        assert(todo[old] == last);
        cursor::lemma_visit_leads_on(todo, cells, constraints, n_dim2);
        if f.inner(n) {
            f.lemma_node(n_dim2, count, Open::nothing(), n);
            f.lemma_child(n_dim2, count, Open::nothing(), n, 0);
            lemma_children_apart(f, n_dim2, count, todo, constraints);
            let next = todo.drop_last() + cursor::visits(
                cells,
                constraints,
                n_dim2,
                (last.levels - 1) as u64,
            );
            lemma_to_come(f, n_dim2, count, next, constraints);
            assert(f.pages.contains_key(n) && cells.len() < 0x1_0000);
            assert(rows == f.to_come(next, constraints, n_dim2));
            assert forall|c: CellView| #[trigger] rows.contains(c) == (f.within(todo, c)
                && constraint::leaf_matches(constraints, c, n_dim2)) by {
                lemma_rows_through_children(f, n_dim2, count, todo, constraints, c);
            }
        } else {
            lemma_leaf_visited(f, n_dim2, count, todo, constraints);
        }
    }
}

/// The rows that a query comes to where the next node is a leaf.
#[verifier::rlimit(30)]
proof fn lemma_leaf_visited(
    f: Forest,
    n_dim2: nat,
    count: i64,
    todo: Seq<Visit>,
    constraints: Seq<RtreeConstraint>,
)
    requires
        f.ok(n_dim2, count, Open::nothing()),
        n_dim2 <= RTREE_MAX_COORDS,
        n_dim2 % 2 == 0,
        f.small(),
        f.reachable(todo),
        todo.len() > 0,
        !f.inner(todo.last().nodeno),
    ensures
        forall|c: CellView| #[trigger]
            f.to_come(todo, constraints, n_dim2).contains(c) == (f.within(todo, c)
                && constraint::leaf_matches(constraints, c, n_dim2)),
        f.apart(todo) ==> f.to_come(todo, constraints, n_dim2).no_duplicates(),
    decreases cursor::weight(todo), 0int,
{
    let rows = f.to_come(todo, constraints, n_dim2);
    let n = todo.last().nodeno;
    let cells = f.pages[n];
    let old = todo.len() - 1;
    let less = todo.drop_last();
    assert(todo[old] == todo.last());
    cursor::lemma_visit_leads_on(todo, cells, constraints, n_dim2);
    assert(f.reachable(less)) by {
        assert forall|k: int| 0 <= k < less.len() implies {
            let v = #[trigger] less[k];
            &&& f.pages.contains_key(v.nodeno)
            &&& v.levels >= i64::MAX - v.nodeno
        } by {
            assert(less[k] == todo[k]);
        }
    }
    lemma_to_come(f, n_dim2, count, less, constraints);
    lemma_hits(cells, constraints, n_dim2);
    f.lemma_node(n_dim2, count, Open::nothing(), n);
    let before = f.to_come(less, constraints, n_dim2);
    let here = cursor::hits(cells, constraints, n_dim2);
    assert(rows == before + here);
    assert forall|c: CellView| f.within(todo, c) == (#[trigger] f.within(less, c) || cells.contains(
        c,
    )) by {
        if f.within(todo, c) {
            let (k, m) = choose|k: int, m: i64|
                0 <= k < todo.len() && #[trigger] f.below(m, todo[k].nodeno)
                    && f.pages.contains_key(m) && !f.inner(m) && #[trigger] f.pages[m].contains(c);
            if k < old {
                assert(f.below(m, less[k].nodeno));
            } else {
                lemma_leaf_is_last(f, n_dim2, count, m, n);
            }
        }
        if f.within(less, c) {
            let (k, m) = choose|k: int, m: i64|
                0 <= k < less.len() && #[trigger] f.below(m, less[k].nodeno)
                    && f.pages.contains_key(m) && !f.inner(m) && #[trigger] f.pages[m].contains(c);
            assert(f.below(m, todo[k].nodeno));
        }
        if cells.contains(c) {
            assert(f.below(n, todo[old].nodeno));
            assert(f.pages[n].contains(c));
        }
    }
    assert forall|c: CellView| #[trigger] rows.contains(c) == (f.within(todo, c)
        && constraint::leaf_matches(constraints, c, n_dim2)) by {
        assert(rows.contains(c) == (before.contains(c) || here.contains(c))) by {
            if before.contains(c) {
                assert(rows[before.index_of(c)] == c);
            }
            if here.contains(c) {
                assert(rows[before.len() + here.index_of(c)] == c);
            }
        }
        assert(f.within(less, c) || !f.within(less, c));
    }
    if f.apart(todo) {
        assert(f.apart(less)) by {
            assert forall|i: int, j: int, m: i64|
                0 <= i < j < less.len() && #[trigger] f.below(m, less[i].nodeno) implies
                !#[trigger] f.below(m, less[j].nodeno) by {
                assert(less[i] == todo[i] && less[j] == todo[j]);
                assert(f.below(m, todo[i].nodeno));
                assert(!f.below(m, todo[j].nodeno));
            }
        }
        assert forall|c: CellView| before.contains(c) implies !here.contains(c) by {
            if here.contains(c) {
                assert(f.within(less, c));
                let (k, m) = choose|k: int, m: i64|
                    0 <= k < less.len() && #[trigger] f.below(m, less[k].nodeno)
                        && f.pages.contains_key(m) && !f.inner(m)
                        && #[trigger] f.pages[m].contains(c);
                forest::lemma_lists(f.pages[m], f.pages[m].index_of(c));
                forest::lemma_lists(cells, cells.index_of(c));
                forest_rows::lemma_noted_row_is_unique(
                    f,
                    n_dim2,
                    count,
                    Open::nothing(),
                    m,
                    c.rowid,
                );
                assert(m == n);
                assert(f.below(n, todo[k].nodeno));
                assert(f.below(n, todo[old].nodeno));
            }
        }
        assert(rows.no_duplicates()) by {
            assert forall|i: int, j: int| 0 <= i < j < rows.len() implies rows[i] != rows[j] by {
                if j < before.len() {
                    assert(before[i] != before[j]);
                } else if i >= before.len() {
                    assert(here[i - before.len()] != here[j - before.len()]);
                } else {
                    assert(before.contains(rows[i]));
                    assert(here.contains(rows[j])) by {
                        assert(here[j - before.len()] == rows[j]);
                    }
                }
            }
        }
    }
}

/// A query that starts at the root comes to exactly the rows of the tree that meet the constraints,
/// each once.
pub proof fn lemma_query_from_root(
    f: Forest,
    n_dim2: nat,
    count: i64,
    constraints: Seq<RtreeConstraint>,
)
    requires
        f.ok(n_dim2, count, Open::nothing()),
        n_dim2 <= RTREE_MAX_COORDS,
        n_dim2 % 2 == 0,
        f.small(),
    ensures
        ({
            let todo = seq![Visit { nodeno: 1, levels: cursor::RTREE_QUERY_LEVELS }];
            let rows = f.to_come(todo, constraints, n_dim2);
            &&& f.reachable(todo)
            &&& rows.no_duplicates()
            &&& forall|c: CellView| #[trigger]
                rows.contains(c) == (f.rows().contains(c) && constraint::leaf_matches(
                    constraints,
                    c,
                    n_dim2,
                ))
        }),
{
    let todo = seq![Visit { nodeno: 1, levels: cursor::RTREE_QUERY_LEVELS }];
    let rows = f.to_come(todo, constraints, n_dim2);
    lemma_to_come(f, n_dim2, count, todo, constraints);
    assert forall|c: CellView| #[trigger] rows.contains(c) == (f.rows().contains(c)
        && constraint::leaf_matches(constraints, c, n_dim2)) by {
        if f.rows().contains(c) {
            assert(f.holds(c));
            let n = choose|n: i64| #[trigger]
                f.pages.contains_key(n) && !f.inner(n) && f.pages[n].contains(c);
            lemma_root_is_above(f, n_dim2, count, n);
            assert(f.below(n, todo[0].nodeno) && f.pages[n].contains(c));
            assert(f.within(todo, c));
        }
        if f.within(todo, c) {
            assert(f.holds(c));
        }
    }
}

} // verus!
