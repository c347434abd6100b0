//! What a query gives back of what was written before it.

use vstd::prelude::*;
use crate::constraint;
use crate::constraint::RtreeConstraint;
use crate::cursor;
use crate::cursor::{ColumnView, CursorView, Visit};
use crate::forest;
use crate::forest::{Forest, Open};
use crate::forest_query;
use crate::node::CellView;
use crate::store::{AuxRowView, Stop, StoreView};
use crate::table;
use crate::table::TableView;
use crate::value::{ArgView, ResultCode, ValueView};

verus! {

/// A cursor stands on a row and gives it out column by column. The row with row id 0 is given out
/// without its auxiliary columns.
pub open spec fn shows(c: CursorView, t: TableView, s: StoreView, cell: CellView) -> bool {
    &&& !c.at_eof
    &&& c.column(0) == ColumnView::Plain(ValueView::Integer(cell.rowid))
    &&& forall|k: int|
        1 <= k <= t.n_dim2 ==> #[trigger] c.column(k as nat) == ColumnView::Coordinate(
            cell.coords[k - 1],
        )
    &&& cell.rowid != 0 ==> (t.aux_of(s, cell.rowid) matches Some(aux) ==> forall|k: int|
        0 <= k < aux.len() ==> c.column((t.n_dim2 + 1 + k) as nat) == ColumnView::Plain(
            #[trigger] aux[k],
        ))
}

/// Moving to a row whose auxiliary columns are known.
pub proof fn lemma_arrived(t: TableView, s: StoreView, c: CursorView, cell: CellView)
    requires
        t.wf(),
        s.connected,
        c.table().same_shape(t),
    ensures
        ({
            let (r, c2, s2) = c.arrive(s, cell);
            &&& t.aux_of(s, cell.rowid) is Some ==> r == Ok::<ResultCode, Stop>(ResultCode::OK)
            &&& r is Ok ==> {
                &&& s2 == s
                &&& shows(c2, t, s, cell)
                &&& c2.rowid == cell.rowid
                &&& c2.todo == c.todo
                &&& c2.ready == c.ready
                &&& c2.constraints == c.constraints
                &&& c2.table() == c.table()
                &&& r->Ok_0 == ResultCode::OK || r->Ok_0 == ResultCode::Error
            }
        }),
{
    let on = c.standing_on(cell);
    let (r, c2, s2) = c.arrive(s, cell);
    if r is Ok {
        assert forall|k: int| 1 <= k <= t.n_dim2 implies #[trigger] c2.column(k as nat)
            == ColumnView::Coordinate(cell.coords[k - 1]) by {
            assert(on.current_coords[k - 1] == cell.coords[k - 1]);
        }
        if cell.rowid != 0 && t.aux_of(s, cell.rowid) is Some {
            let aux = t.aux_of(s, cell.rowid)->0;
            assert forall|k: int| 0 <= k < aux.len() implies c2.column((t.n_dim2 + 1 + k) as nat)
                == ColumnView::Plain(#[trigger] aux[k]) by {
                match s.aux[cell.rowid] {
                    AuxRowView::Values(values) => {
                        assert(values.take(aux.len() as int)[k] == values[k]);
                        assert(c2.aux_values[k] == values[k].owned());
                    },
                    _ => {},
                }
            }
        }
    }
}

impl CursorView {
    /// The rows that are still to come after the current one, the next one last.
    pub open spec fn upcoming(self, s: StoreView) -> Seq<CellView> {
        self.table().forest(s).to_come(self.todo, self.constraints, self.n_dim2 as nat)
            + self.ready
    }

    /// The nodes that the cursor has still to visit are in the tree.
    pub open spec fn on_course(self, s: StoreView) -> bool {
        self.table().forest(s).reachable(self.todo)
    }
}

/// All that a query reads is known: of the first cell of every node whether it is a node below, and
/// of every row its auxiliary columns.
pub open spec fn is_known(t: TableView, s: StoreView) -> bool {
    let f = t.forest(s);
    &&& forall|n: i64| #[trigger]
        f.pages.contains_key(n) && f.pages[n].len() > 0 ==> {
            let r = f.pages[n][0].rowid;
            r <= 1 || (s.parents.contains_key(r) && !(s.parents[r] is Failed))
        }
    &&& forall|n: i64, i: int|
        f.pages.contains_key(n) && !f.inner(n) && 0 <= i < f.pages[n].len() ==> t.aux_of(
            s,
            (#[trigger] f.pages[n][i]).rowid,
        ) is Some
}

/// The auxiliary columns of every row of a list are known.
pub open spec fn all_told(t: TableView, s: StoreView, rows: Seq<CellView>) -> bool {
    forall|k: int|
        0 <= k < rows.len() ==> t.aux_of(s, (#[trigger] rows[k]).rowid) is Some
}

/// A code with which a query goes on, or ends behind the last row.
pub open spec fn is_good(r: Result<ResultCode, Stop>) -> bool {
    r == Ok::<ResultCode, Stop>(ResultCode::OK) || r == Ok::<ResultCode, Stop>(ResultCode::EOF)
}

/// Going on leads to the next of the rows to come, or behind the last row.
proof fn lemma_advanced(t: TableView, s: StoreView, c: CursorView, missed: ResultCode)
    requires
        t.grows(s, Open::nothing()),
        c.table().same_shape(t),
        c.on_course(s),
        missed == ResultCode::OK || missed == ResultCode::EOF,
    ensures
        ({
            let (r, c2, s2) = c.advance(s, missed);
            let rows = c.upcoming(s);
            &&& is_known(t, s) && all_told(t, s, c.ready) ==> is_good(r) && all_told(
                t,
                s,
                c2.ready,
            )
            &&& is_good(r) ==> {
                &&& s2 == s
                &&& c2.table() == c.table()
                &&& c2.constraints == c.constraints
                &&& c2.on_course(s)
                &&& rows.len() == 0 ==> r->Ok_0 == missed && c2.at_eof && c2.upcoming(s).len() == 0
                &&& rows.len() > 0 ==> r->Ok_0 == ResultCode::OK && shows(c2, t, s, rows.last())
                    && c2.upcoming(s) == rows.drop_last()
            }
        }),
    decreases cursor::weight(c.todo),
{
    reveal(CursorView::advance);
    let ct = c.table();
    let n_dim2 = c.n_dim2 as nat;
    t.lemma_forest_by_shape(ct, s);
    let f = t.forest(s);
    let before = f.to_come(c.todo, c.constraints, n_dim2);
    let (r, c2, s2) = c.advance(s, missed);
    if c.ready.len() > 0 {
        let c1 = CursorView { ready: c.ready.drop_last(), ..c };
        lemma_arrived(t, s, c1, c.ready.last());
        assert(c.ready[c.ready.len() - 1] == c.ready.last());
        assert(all_told(t, s, c.ready) ==> all_told(t, s, c1.ready)) by {
            if all_told(t, s, c.ready) {
                assert forall|k: int| 0 <= k < c1.ready.len() implies t.aux_of(
                    s,
                    (#[trigger] c1.ready[k]).rowid,
                ) is Some by {
                    assert(c1.ready[k] == c.ready[k]);
                }
            }
        }
        assert(c.upcoming(s).last() == c.ready.last());
        assert(c.upcoming(s).drop_last() =~= before + c.ready.drop_last());
    } else if c.todo.len() == 0 {
        assert(before + c.ready =~= Seq::empty());
    } else {
        let visit = c.todo.last();
        assert(c.todo[c.todo.len() - 1] == visit);
        let c1 = CursorView { at_eof: true, todo: c.todo.drop_last(), ..c };
        assert(c1.table() == ct);
        let n = ct.node_from(visit.nodeno, s.nodes[visit.nodeno]->Blob_0);
        assert(s.nodes.contains_key(visit.nodeno) && s.nodes[visit.nodeno] is Blob);
        assert(StoreView::sound_page(t, visit.nodeno, s.nodes[visit.nodeno]));
        let cells = ct.cells(n.data);
        assert(f.pages[visit.nodeno] == cells);
        lemma_page_is_small(t, s, visit.nodeno);
        ct.lemma_told_leaf(s, n);
        cursor::lemma_visit_leads_on(c.todo, cells, c.constraints, n_dim2);
        let (leaf, s1) = ct.is_leaf(s, n);
        assert(f.reachable(c1.todo)) by {
            assert forall|k: int| 0 <= k < c1.todo.len() implies {
                let v = #[trigger] c1.todo[k];
                &&& f.pages.contains_key(v.nodeno)
                &&& v.levels >= i64::MAX - v.nodeno
            } by {
                assert(c1.todo[k] == c.todo[k]);
            }
        }
        match leaf {
            Err(stop) => {
                lemma_leaf_check_fails_with_error(ct, s, n);
            },
            Ok(true) => {
                let c3 = CursorView { ready: cursor::hits(cells, c.constraints, n_dim2), ..c1 };
                forest_query::lemma_hits(cells, c.constraints, n_dim2);
                if is_known(t, s) {
                    assert forall|k: int| 0 <= k < c3.ready.len() implies t.aux_of(
                        s,
                        (#[trigger] c3.ready[k]).rowid,
                    ) is Some by {
                        assert(c3.ready.contains(c3.ready[k]));
                        let i = cells.index_of(c3.ready[k]);
                        assert(f.pages[visit.nodeno][i] == c3.ready[k]);
                    }
                }
                lemma_advanced(t, s, c3, missed);
                assert(c3.upcoming(s) =~= c.upcoming(s));
            },
            Ok(false) => {
                f.lemma_node(n_dim2, t.node_count, Open::nothing(), visit.nodeno);
                f.lemma_child(n_dim2, t.node_count, Open::nothing(), visit.nodeno, 0);
                forest_query::lemma_children_apart(
                    f,
                    n_dim2,
                    t.node_count,
                    c.todo,
                    c.constraints,
                );
                let c3 = CursorView {
                    todo: c1.todo + cursor::visits(
                        cells,
                        c.constraints,
                        n_dim2,
                        (visit.levels - 1) as u64,
                    ),
                    ..c1
                };
                lemma_advanced(t, s, c3, missed);
                assert(c3.upcoming(s) =~= c.upcoming(s));
            },
        }
    }
}

/// No page holds more cells than its count can say.
proof fn lemma_page_is_small(t: TableView, s: StoreView, n: i64)
    requires
        t.wf(),
        s.wf(t),
        t.forest(s).pages.contains_key(n),
    ensures
        t.forest(s).pages[n].len() < 0x1_0000,
{
    t.lemma_room();
    assert(StoreView::sound_page(t, n, s.nodes[n]));
}

proof fn lemma_leaf_check_fails_with_error(t: TableView, s: StoreView, n: crate::node::NodeView)
    ensures
        t.is_leaf(s, n).0 matches Err(stop) ==> stop == Stop::Wait || stop == Stop::Code(
            ResultCode::Error,
        ),
{
}

/// The rows that meet the constraints of a query, in the order in which it comes to them from the
/// last on.
pub open spec fn answer(
    t: TableView,
    s: StoreView,
    constraints: Seq<RtreeConstraint>,
) -> Seq<CellView> {
    t.forest(s).to_come(
        seq![Visit { nodeno: 1, levels: cursor::RTREE_QUERY_LEVELS }],
        constraints,
        t.n_dim2 as nat,
    )
}

/// The answer to a query holds exactly the stored rows that meet every constraint, each once.
pub proof fn lemma_answer_is_exact(t: TableView, s: StoreView, constraints: Seq<RtreeConstraint>)
    requires
        t.is_tree(s),
    ensures
        answer(t, s, constraints).no_duplicates(),
        forall|c: CellView| #[trigger]
            answer(t, s, constraints).contains(c) == (t.rows(s).contains(c)
                && constraint::leaf_matches(constraints, c, t.n_dim2 as nat)),
{
    let f = t.forest(s);
    let rows = answer(t, s, constraints);
    if t.node_count == 0 {
        reveal_with_fuel(Forest::to_come, 2);
        assert(rows =~= Seq::empty());
        assert(f.rows() =~= Set::empty());
    } else {
        assert forall|n: i64| #[trigger] f.pages.contains_key(n) implies f.pages[n].len()
            < 0x1_0000 by {
            lemma_page_is_small(t, s, n);
        }
        forest_query::lemma_query_from_root(f, t.n_dim2 as nat, t.node_count, constraints);
    }
}

/// The index string and the arguments of a query are not those of a lookup.
pub open spec fn is_scan(args: Seq<ArgView>, idx: Seq<char>) -> bool {
    !cursor::is_lookup(vstd::utf8::encode_utf8(idx)) || args.len() == 0
}

/// A query starts on the first row of its answer, and the others are to come.
/// Where the answer is empty, it starts behind the last row.
pub proof fn lemma_query_starts(
    t: TableView,
    s: StoreView,
    c: CursorView,
    args: Seq<ArgView>,
    idx: Seq<char>,
)
    requires
        t.is_tree(s),
        c.table().same_shape(t),
        is_scan(args, idx),
    ensures
        ({
            let constraints = cursor::constraints_from(
                vstd::utf8::encode_utf8(idx),
                args,
                0,
                Seq::empty(),
            );
            let (r, c2, s2) = c.filter(s, args, idx);
            let rows = answer(t, s, constraints);
            is_good(r) ==> {
                &&& r == Ok::<ResultCode, Stop>(ResultCode::OK)
                &&& s2 == s
                &&& c2.table() == c.table()
                &&& c2.constraints == constraints
                &&& t.node_count > 0 ==> c2.on_course(s)
                &&& t.node_count == 0 ==> c2.todo.len() == 0
                &&& rows.len() == 0 ==> c2.at_eof && c2.upcoming(s).len() == 0
                &&& rows.len() > 0 ==> shows(c2, t, s, rows.last()) && c2.upcoming(s)
                    == rows.drop_last()
            }
        }),
{
    let constraints = cursor::constraints_from(vstd::utf8::encode_utf8(idx), args, 0, Seq::empty());
    let todo = seq![Visit { nodeno: 1, levels: cursor::RTREE_QUERY_LEVELS }];
    let c1 = CursorView { constraints, todo, ..c.rewound() };
    let f = t.forest(s);
    t.lemma_forest_by_shape(c.table(), s);
    assert(c1.table() == c.table());
    assert(c1.upcoming(s) =~= answer(t, s, constraints));
    if t.node_count == 0 {
        reveal_with_fuel(Forest::to_come, 2);
        reveal(CursorView::advance);
        assert(todo.drop_last() =~= Seq::empty());
        assert(!f.pages.contains_key(1));
        let c2 = CursorView { at_eof: true, todo: todo.drop_last(), ..c1 };
        assert(c2.advance(s, ResultCode::OK).1.upcoming(s) =~= Seq::empty());
    } else {
        assert(f.reachable(todo));
        lemma_advanced(t, s, c1, ResultCode::OK);
    }
}

/// Going on in a query leads to the next of the rows to come. Behind the last one the code is EOF.
pub proof fn lemma_query_goes_on(t: TableView, s: StoreView, c: CursorView)
    requires
        t.is_tree(s),
        t.node_count > 0,
        c.table().same_shape(t),
        c.on_course(s),
    ensures
        ({
            let (r, c2, s2) = c.next(s);
            let rows = c.upcoming(s);
            is_good(r) ==> {
                &&& s2 == s
                &&& c2.table() == c.table()
                &&& c2.constraints == c.constraints
                &&& c2.on_course(s)
                &&& rows.len() == 0 ==> r->Ok_0 == ResultCode::EOF && c2.at_eof && c2.upcoming(
                    s,
                ).len() == 0
                &&& rows.len() > 0 ==> r->Ok_0 == ResultCode::OK && shows(c2, t, s, rows.last())
                    && c2.upcoming(s) == rows.drop_last()
            }
        }),
{
    lemma_advanced(t, s, c, ResultCode::EOF);
}

/// A cursor after `k` calls of `next`, and whether each of them went well.
pub open spec fn after(c: CursorView, s: StoreView, k: nat) -> (bool, CursorView)
    decreases k,
{
    if k == 0 {
        (true, c)
    } else {
        let (well, c1) = after(c, s, (k - 1) as nat);
        let (r, c2, s2) = c1.next(s);
        (well && is_good(r), c2)
    }
}

/// Starting a query and going on gives the rows of its answer, one after the other
/// and each once, and then the end: exactly the stored rows that meet every constraint.
pub proof fn lemma_query_gives_the_answer(
    t: TableView,
    s: StoreView,
    c: CursorView,
    args: Seq<ArgView>,
    idx: Seq<char>,
    k: nat,
)
    requires
        t.is_tree(s),
        c.table().same_shape(t),
        is_scan(args, idx),
        is_good(c.filter(s, args, idx).0),
        after(c.filter(s, args, idx).1, s, k).0,
    ensures
        ({
            let constraints = cursor::constraints_from(
                vstd::utf8::encode_utf8(idx),
                args,
                0,
                Seq::empty(),
            );
            let rows = answer(t, s, constraints);
            let c2 = after(c.filter(s, args, idx).1, s, k).1;
            &&& k < rows.len() ==> shows(c2, t, s, rows[rows.len() - 1 - k])
            &&& k >= rows.len() ==> c2.at_eof
            &&& rows.no_duplicates()
            &&& forall|row: CellView| #[trigger]
                rows.contains(row) == (t.rows(s).contains(row) && constraint::leaf_matches(
                    constraints,
                    row,
                    t.n_dim2 as nat,
                ))
        }),
{
    let constraints = cursor::constraints_from(vstd::utf8::encode_utf8(idx), args, 0, Seq::empty());
    lemma_answer_is_exact(t, s, constraints);
    lemma_query_starts(t, s, c, args, idx);
    let c0 = c.filter(s, args, idx).1;
    let rows = answer(t, s, constraints);
    if t.node_count == 0 {
        assert(rows =~= Seq::empty()) by {
            reveal_with_fuel(Forest::to_come, 2);
        }
        lemma_after_nothing(t, s, c0, k);
    } else if rows.len() == 0 {
        lemma_after(t, s, c0, k);
    } else {
        lemma_after(t, s, c0, k);
        assert(rows.drop_last().take(rows.len() - 1) =~= rows.drop_last());
    }
}

/// The position after `k` calls of `next`, by the rows that are to come.
proof fn lemma_after(t: TableView, s: StoreView, c: CursorView, k: nat)
    requires
        t.is_tree(s),
        t.node_count > 0,
        c.table().same_shape(t),
        c.on_course(s),
        after(c, s, k).0,
    ensures
        ({
            let rows = c.upcoming(s);
            let c2 = after(c, s, k).1;
            &&& c2.table() == c.table()
            &&& c2.constraints == c.constraints
            &&& c2.on_course(s)
            &&& 0 < k <= rows.len() ==> shows(c2, t, s, rows[rows.len() - k])
            &&& k > rows.len() ==> c2.at_eof
            &&& c2.upcoming(s) == rows.take(if k <= rows.len() {
                rows.len() - k
            } else {
                0
            })
            &&& k == 0 ==> c2 == c
        }),
    decreases k,
{
    let rows = c.upcoming(s);
    if k == 0 {
        assert(rows.take(rows.len() as int) =~= rows);
    } else {
        let less = (k - 1) as nat;
        lemma_after(t, s, c, less);
        let c1 = after(c, s, less).1;
        lemma_query_goes_on(t, s, c1);
        let left = c1.upcoming(s);
        if left.len() > 0 {
            assert(left.drop_last() =~= rows.take(rows.len() - k));
        } else {
            assert(rows.take(0) =~= Seq::empty());
            assert(after(c, s, k).1.upcoming(s) =~= Seq::empty());
        }
    }
}

/// A query of a table without nodes stays behind the last row.
proof fn lemma_after_nothing(t: TableView, s: StoreView, c: CursorView, k: nat)
    requires
        t.is_tree(s),
        t.node_count == 0,
        c.table().same_shape(t),
        c.at_eof,
        c.ready.len() == 0,
        c.todo.len() == 0,
    ensures
        after(c, s, k).1.at_eof,
        after(c, s, k).1.ready.len() == 0,
        after(c, s, k).1.todo.len() == 0,
    decreases k,
{
    if k > 0 {
        lemma_after_nothing(t, s, c, (k - 1) as nat);
        reveal(CursorView::advance);
    }
}

/// Where all that a query reads is known, it comes to its end: every call of it goes well.
pub proof fn lemma_query_goes_well(
    t: TableView,
    s: StoreView,
    c: CursorView,
    args: Seq<ArgView>,
    idx: Seq<char>,
    k: nat,
)
    requires
        t.is_tree(s),
        t.node_count > 0,
        is_known(t, s),
        c.table().same_shape(t),
        is_scan(args, idx),
    ensures
        is_good(c.filter(s, args, idx).0),
        after(c.filter(s, args, idx).1, s, k).0,
{
    let constraints = cursor::constraints_from(vstd::utf8::encode_utf8(idx), args, 0, Seq::empty());
    let todo = seq![Visit { nodeno: 1, levels: cursor::RTREE_QUERY_LEVELS }];
    let c1 = CursorView { constraints, todo, ..c.rewound() };
    t.lemma_forest_by_shape(c.table(), s);
    assert(t.forest(s).reachable(todo));
    lemma_advanced(t, s, c1, ResultCode::OK);
    lemma_goes_on_well(t, s, c.filter(s, args, idx).1, k);
}

proof fn lemma_goes_on_well(t: TableView, s: StoreView, c: CursorView, k: nat)
    requires
        t.is_tree(s),
        t.node_count > 0,
        is_known(t, s),
        c.table().same_shape(t),
        c.on_course(s),
        all_told(t, s, c.ready),
    ensures
        after(c, s, k).0,
        all_told(t, s, after(c, s, k).1.ready),
    decreases k,
{
    if k > 0 {
        let less = (k - 1) as nat;
        lemma_goes_on_well(t, s, c, less);
        lemma_after(t, s, c, less);
        lemma_advanced(t, s, after(c, s, less).1, ResultCode::EOF);
    }
}

} // verus!
