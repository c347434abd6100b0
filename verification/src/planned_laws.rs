//! A query that is run by its plan gives exactly the rows that meet what the plan took over.

use vstd::prelude::*;
use crate::constraint;
use crate::constraint::RtreeConstraint;
use crate::cursor;
use crate::cursor::CursorView;
use crate::forest;
use crate::forest_rows;
use crate::lookup_laws;
use crate::node::CellView;
use crate::plan;
use crate::plan::ConstraintInfo;
use crate::query_laws;
use crate::query_laws::shows;
use crate::store::{Stop, StoreView};
use crate::table::TableView;
use crate::value::ArgView;

verus! {

/// A row meets every constraint that a plan took over, each with the argument that the plan asked
/// for in its place.
pub open spec fn meets_plan(
    cs: Seq<ConstraintInfo>,
    args: Seq<ArgView>,
    row: CellView,
    n_dim2: nat,
) -> bool {
    forall|i: int|
        0 <= i < cs.len() ==> ((#[trigger] plan::usage(cs, i)).argv_index matches Some(a)
            ==> plan::is_met(cs[i], args[a - 1], row, n_dim2))
}

/// A stored row that meets every constraint that a plan took over.
pub open spec fn is_hit(
    t: TableView,
    s: StoreView,
    cs: Seq<ConstraintInfo>,
    args: Seq<ArgView>,
    row: CellView,
) -> bool {
    t.rows(s).contains(row) && meets_plan(cs, args, row, t.n_dim2 as nat)
}

/// The constraints that a cursor reads of a plan that does not fix the row id.
pub open spec fn read_of(cs: Seq<ConstraintInfo>, args: Seq<ArgView>) -> Seq<RtreeConstraint> {
    cursor::constraints_from(
        vstd::utf8::encode_utf8(plan::index_text(cs)),
        args,
        0,
        Seq::empty(),
    )
}

/// The rows that a query gives which is run by its plan, in their order.
pub open spec fn planned_rows(
    t: TableView,
    s: StoreView,
    cs: Seq<ConstraintInfo>,
    args: Seq<ArgView>,
) -> Seq<CellView> {
    if plan::fixes_rowid(cs) {
        if exists|row: CellView| is_hit(t, s, cs, args, row) {
            seq![choose|row: CellView| is_hit(t, s, cs, args, row)]
        } else {
            Seq::empty()
        }
    } else {
        let rows = query_laws::answer(t, s, read_of(cs, args));
        Seq::new(rows.len(), |i: int| rows[rows.len() - 1 - i])
    }
}

/// A row meets a plan if it has the row id that is fixed and meets every coordinate that is taken
/// over.
proof fn lemma_plan_in_parts(
    cs: Seq<ConstraintInfo>,
    args: Seq<ArgView>,
    row: CellView,
    n_dim2: nat,
)
    requires
        cs.len() < u32::MAX,
        args.len() == plan::asked(cs),
    ensures
        ({
            let taken = plan::coordinates(cs);
            let keys = plan::key_count(cs) as int;
            meets_plan(cs, args, row, n_dim2) == ((plan::fixes_rowid(cs) ==> args[0].integer == Some(
                row.rowid,
            )) && forall|k: int|
                0 <= k < taken.len() ==> plan::is_met(
                    #[trigger] taken[k],
                    args[keys + k],
                    row,
                    n_dim2,
                ))
        }),
{
    let taken = plan::coordinates(cs);
    let keys = plan::key_count(cs) as int;
    if meets_plan(cs, args, row, n_dim2) {
        if plan::fixes_rowid(cs) {
            let i = lemma_first_key(cs);
            assert(plan::usage(cs, i).argv_index == Some(1u32));
            assert(plan::is_met(cs[i], args[0], row, n_dim2));
        }
        assert forall|k: int| 0 <= k < taken.len() implies plan::is_met(
            #[trigger] taken[k],
            args[keys + k],
            row,
            n_dim2,
        ) by {
            let i = plan::lemma_source_of_coordinate(cs, k);
            assert(plan::usage(cs, i).argv_index is Some);
            plan::lemma_usage(cs, i);
            assert(plan::is_met(cs[i], args[plan::usage(cs, i).argv_index->0 - 1], row, n_dim2));
        }
    }
    if (plan::fixes_rowid(cs) ==> args[0].integer == Some(row.rowid)) && forall|k: int|
        0 <= k < taken.len() ==> plan::is_met(#[trigger] taken[k], args[keys + k], row, n_dim2) {
        assert forall|i: int| 0 <= i < cs.len() implies ((
        #[trigger] plan::usage(cs, i)).argv_index matches Some(a) ==> plan::is_met(
            cs[i],
            args[a - 1],
            row,
            n_dim2,
        )) by {
            if plan::usage(cs, i).argv_index is Some {
                plan::lemma_usage(cs, i);
                if plan::on_coordinate(cs[i]) {
                    let k = plan::coordinates(cs.take(i)).len() as int;
                    assert(plan::is_met(taken[k], args[keys + k], row, n_dim2));
                }
            }
        }
    }
}

/// The first constraint that fixes the row id.
proof fn lemma_first_key(cs: Seq<ConstraintInfo>) -> (i: int)
    requires
        plan::fixes_rowid(cs),
    ensures
        0 <= i < cs.len(),
        plan::on_rowid(cs[i]),
        !plan::fixes_rowid(cs.take(i)),
    decreases cs.len(),
{
    let j = choose|j: int| 0 <= j < cs.len() && #[trigger] plan::on_rowid(cs[j]);
    if plan::fixes_rowid(cs.take(j)) {
        let i = lemma_first_key(cs.take(j));
        assert(cs.take(j).take(i) =~= cs.take(i));
        i
    } else {
        j
    }
}

/// Without arguments nothing is read of an index string.
proof fn lemma_nothing_read(
    idx: Seq<u8>,
    args: Seq<ArgView>,
    k: int,
    known: Seq<RtreeConstraint>,
)
    requires
        args.len() == 0,
    ensures
        cursor::constraints_from(idx, args, k, known) == known,
    decreases idx.len() - k,
{
    if 0 <= k && 2 * k + 1 < idx.len() {
        lemma_nothing_read(idx, args, k + 1, known);
    }
}

/// A row id that no stored row has is not found.
proof fn lemma_no_row_found(t: TableView, s: StoreView, q: CursorView, rowid: i64)
    requires
        t.is_tree(s),
        q.table().same_shape(t),
        forall|cell: CellView| #[trigger] t.rows(s).contains(cell) ==> cell.rowid != rowid,
    ensures
        q.find_row(s, rowid).0 matches Ok(found) ==> found is None && q.find_row(s, rowid).1 == s,
        s.rowids.contains_key(rowid) ==> q.find_row(s, rowid).0 is Ok,
{
    reveal(CursorView::find_row);
    let f = t.forest(s);
    if f.home.contains_key(rowid) {
        assert(t.node_count != 0);
        forest_rows::lemma_rows_by_id(f, t.n_dim2 as nat, t.node_count, rowid);
        let cells = f.pages[f.home[rowid]];
        let i = forest::lemma_place(cells, rowid);
        assert(f.holds(cells[i]));
        assert(t.rows(s).contains(cells[i]));
    }
}

/// A cursor that has nothing to come is behind the last row after one step.
proof fn lemma_after_last(c: CursorView, s: StoreView, k: nat)
    requires
        c.todo.len() == 0,
        c.ready.len() == 0,
    ensures
        query_laws::after(c, s, k).0,
        query_laws::after(c, s, k).1.todo.len() == 0,
        query_laws::after(c, s, k).1.ready.len() == 0,
        k > 0 || c.at_eof ==> query_laws::after(c, s, k).1.at_eof,
        k == 0 ==> query_laws::after(c, s, k).1 == c,
    decreases k,
{
    if k > 0 {
        lemma_after_last(c, s, (k - 1) as nat);
        reveal(CursorView::advance);
    }
}

/// A row that is found by its row id is the only one that can meet a plan which fixes it.
proof fn lemma_one_hit(
    t: TableView,
    s: StoreView,
    cs: Seq<ConstraintInfo>,
    args: Seq<ArgView>,
    a: CellView,
    b: CellView,
)
    requires
        t.is_tree(s),
        cs.len() < u32::MAX,
        args.len() == plan::asked(cs),
        plan::fixes_rowid(cs),
        t.rows(s).contains(a),
        args[0].integer == Some(a.rowid),
        is_hit(t, s, cs, args, b),
    ensures
        a == b,
{
    lemma_plan_in_parts(cs, args, b, t.n_dim2 as nat);
    let f = t.forest(s);
    assert(f.holds(a) && f.holds(b));
    assert(t.node_count != 0);
    forest_rows::lemma_rows_by_id(f, t.n_dim2 as nat, t.node_count, a.rowid);
}

/// What a lookup gives that is run by its plan.
proof fn lemma_planned_lookup(
    t: TableView,
    s: StoreView,
    c: CursorView,
    cs: Seq<ConstraintInfo>,
    args: Seq<ArgView>,
)
    requires
        t.is_tree(s),
        c.table().same_shape(t),
        cs.len() < u32::MAX,
        args.len() == plan::asked(cs),
        plan::fixes_rowid(cs),
        c.filter(s, args, plan::index_text(cs)).0 is Ok,
    ensures
        ({
            let c2 = c.filter(s, args, plan::index_text(cs)).1;
            let rows = planned_rows(t, s, cs, args);
            &&& c2.todo.len() == 0
            &&& c2.ready.len() == 0
            &&& rows.len() == 0 ==> c2.at_eof
            &&& rows.len() > 0 ==> shows(c2, t, s, rows[0])
        }),
{
    let n_dim2 = t.n_dim2 as nat;
    let bytes = vstd::utf8::encode_utf8(plan::index_text(cs));
    let taken = plan::coordinates(cs);
    let rest = args.skip(1);
    plan::lemma_index_bytes(cs);
    let read = cursor::constraints_from(cursor::behind_word(bytes), rest, 0, Seq::empty());
    let q = CursorView { constraints: read, ..c.rewound() };
    assert(q.table() == c.table());
    assert forall|row: CellView| #[trigger] meets_plan(cs, args, row, n_dim2) == (args[0].integer
        == Some(row.rowid) && constraint::leaf_matches(read, row, n_dim2)) by {
        lemma_plan_in_parts(cs, args, row, n_dim2);
        plan::lemma_read_back(
            cursor::behind_word(bytes),
            taken,
            rest,
            0,
            Seq::empty(),
            row,
            n_dim2,
        );
        assert forall|k: int| 0 <= k < taken.len() implies rest[k] == args[1 + k] by {}
    }
    match args[0].integer {
        None => {
            assert forall|row: CellView| !is_hit(t, s, cs, args, row) by {
                assert(!meets_plan(cs, args, row, n_dim2));
            }
        },
        Some(id) => {
            if exists|cell: CellView| #[trigger] t.rows(s).contains(cell) && cell.rowid == id {
                let cell = choose|cell: CellView| #[trigger]
                    t.rows(s).contains(cell) && cell.rowid == id;
                lookup_laws::lemma_row_is_found(t, s, q, cell);
                query_laws::lemma_arrived(t, s, q, cell);
                if constraint::leaf_matches(read, cell, n_dim2) {
                    assert(meets_plan(cs, args, cell, n_dim2));
                    assert(is_hit(t, s, cs, args, cell));
                    let chosen = choose|row: CellView| is_hit(t, s, cs, args, row);
                    lemma_one_hit(t, s, cs, args, cell, chosen);
                } else {
                    assert forall|row: CellView| !is_hit(t, s, cs, args, row) by {
                        if is_hit(t, s, cs, args, row) {
                            lemma_one_hit(t, s, cs, args, cell, row);
                            assert(!meets_plan(cs, args, cell, n_dim2));
                        }
                    }
                }
            } else {
                lemma_no_row_found(t, s, q, id);
                assert forall|row: CellView| !is_hit(t, s, cs, args, row) by {
                    if is_hit(t, s, cs, args, row) {
                        assert(meets_plan(cs, args, row, n_dim2));
                        assert(t.rows(s).contains(row));
                    }
                }
            }
        },
    }
}

/// The rows of a query that is run by its plan are exactly the stored rows that meet every constraint
/// that the plan took over, each once. Where it took over none, they are all stored rows.
pub proof fn lemma_planned_rows_are_exact(
    t: TableView,
    s: StoreView,
    cs: Seq<ConstraintInfo>,
    args: Seq<ArgView>,
)
    requires
        t.is_tree(s),
        cs.len() < u32::MAX,
        args.len() == plan::asked(cs),
    ensures
        planned_rows(t, s, cs, args).no_duplicates(),
        forall|row: CellView| #[trigger]
            planned_rows(t, s, cs, args).contains(row) == is_hit(t, s, cs, args, row),
{
    let n_dim2 = t.n_dim2 as nat;
    let rows = planned_rows(t, s, cs, args);
    if plan::fixes_rowid(cs) {
        assert forall|row: CellView| #[trigger] rows.contains(row) == is_hit(t, s, cs, args, row) by {
            if is_hit(t, s, cs, args, row) {
                let chosen = choose|row: CellView| is_hit(t, s, cs, args, row);
                lemma_plan_in_parts(cs, args, row, n_dim2);
                lemma_one_hit(t, s, cs, args, row, chosen);
                assert(rows[0] == row);
            }
            if rows.contains(row) {
                assert(rows[0] == row);
            }
        }
    } else {
        let read = read_of(cs, args);
        let given = query_laws::answer(t, s, read);
        query_laws::lemma_answer_is_exact(t, s, read);
        assert forall|row: CellView| #[trigger] rows.contains(row) == is_hit(t, s, cs, args, row) by {
            lemma_scan_reads_plan(cs, args, row, n_dim2);
            if given.contains(row) {
                let i = given.index_of(row);
                assert(rows[given.len() - 1 - i] == row);
            }
            if rows.contains(row) {
                let i = rows.index_of(row);
                assert(given[given.len() - 1 - i] == row);
            }
        }
    }
}

/// A row meets what a cursor reads of a plan without a row id if and only if it meets the plan.
proof fn lemma_scan_reads_plan(
    cs: Seq<ConstraintInfo>,
    args: Seq<ArgView>,
    row: CellView,
    n_dim2: nat,
)
    requires
        cs.len() < u32::MAX,
        args.len() == plan::asked(cs),
        !plan::fixes_rowid(cs),
    ensures
        meets_plan(cs, args, row, n_dim2) == constraint::leaf_matches(
            read_of(cs, args),
            row,
            n_dim2,
        ),
{
    let bytes = vstd::utf8::encode_utf8(plan::index_text(cs));
    let taken = plan::coordinates(cs);
    lemma_plan_in_parts(cs, args, row, n_dim2);
    plan::lemma_index_bytes(cs);
    if taken.len() > 0 {
        plan::lemma_read_back(bytes, taken, args, 0, Seq::empty(), row, n_dim2);
    } else {
        lemma_nothing_read(bytes, args, 0, Seq::empty());
    }
}

/// What a plan writes a cursor reads: where every argument for a coordinate is a number, the index
/// string and the arguments decode to one constraint for each coordinate that the plan took over,
/// with its operator and its value, in their order.
pub proof fn lemma_planned_constraints(cs: Seq<ConstraintInfo>, args: Seq<ArgView>)
    requires
        args.len() == plan::asked(cs),
        forall|i: int|
            plan::key_count(cs) <= i < args.len() ==> (#[trigger] args[i]).real is Some,
    ensures
        ({
            let bytes = vstd::utf8::encode_utf8(plan::index_text(cs));
            let taken = plan::coordinates(cs);
            let keys = plan::key_count(cs) as int;
            let tested = Seq::new(
                taken.len(),
                |k: int| plan::as_tested(taken[k], args[keys + k]),
            );
            if plan::fixes_rowid(cs) {
                cursor::is_lookup(bytes) && cursor::constraints_from(
                    cursor::behind_word(bytes),
                    args.skip(1),
                    0,
                    Seq::empty(),
                ) == tested
            } else {
                !cursor::is_lookup(bytes) && cursor::constraints_from(bytes, args, 0, Seq::empty())
                    == tested
            }
        }),
{
    let bytes = vstd::utf8::encode_utf8(plan::index_text(cs));
    let taken = plan::coordinates(cs);
    let keys = plan::key_count(cs) as int;
    let tested = Seq::new(taken.len(), |k: int| plan::as_tested(taken[k], args[keys + k]));
    plan::lemma_index_bytes(cs);
    let part = if plan::fixes_rowid(cs) {
        cursor::behind_word(bytes)
    } else {
        bytes
    };
    let rest = args.skip(keys);
    if !plan::fixes_rowid(cs) {
        assert(rest =~= args);
    }
    if plan::fixes_rowid(cs) || taken.len() > 0 {
        assert forall|i: int| 0 <= i < rest.len() implies (#[trigger] rest[i]).real is Some by {
            assert(rest[i] == args[keys + i]);
        }
        plan::lemma_plan_is_read_back(part, taken, rest, 0);
        assert(Seq::new(0, |i: int| plan::as_tested(taken[i], rest[i])) =~= Seq::empty());
        assert(Seq::new(taken.len(), |i: int| plan::as_tested(taken[i], rest[i])) =~= tested);
    } else {
        lemma_nothing_read(bytes, args, 0, Seq::empty());
        assert(tested =~= Seq::empty());
    }
}

/// A query that is run by its plan, with the arguments that the plan asked for in their order, gives
/// exactly the stored rows that meet every constraint that the plan took over, one after the other
/// and each once, and then the end.
pub proof fn lemma_planned_query_gives_the_answer(
    t: TableView,
    s: StoreView,
    c: CursorView,
    cs: Seq<ConstraintInfo>,
    args: Seq<ArgView>,
    k: nat,
)
    requires
        t.is_tree(s),
        c.table().same_shape(t),
        cs.len() < u32::MAX,
        args.len() == plan::asked(cs),
        query_laws::is_good(c.filter(s, args, plan::index_text(cs)).0),
        query_laws::after(c.filter(s, args, plan::index_text(cs)).1, s, k).0,
    ensures
        ({
            let rows = planned_rows(t, s, cs, args);
            let c2 = query_laws::after(c.filter(s, args, plan::index_text(cs)).1, s, k).1;
            &&& k < rows.len() ==> shows(c2, t, s, rows[k as int])
            &&& k >= rows.len() ==> c2.at_eof
            &&& rows.no_duplicates()
            &&& forall|row: CellView| #[trigger]
                rows.contains(row) == (t.rows(s).contains(row) && meets_plan(
                    cs,
                    args,
                    row,
                    t.n_dim2 as nat,
                ))
        }),
{
    let idx = plan::index_text(cs);
    let c2 = c.filter(s, args, idx).1;
    lemma_planned_rows_are_exact(t, s, cs, args);
    if plan::fixes_rowid(cs) {
        lemma_planned_lookup(t, s, c, cs, args);
        lemma_after_last(c2, s, k);
    } else {
        plan::lemma_index_bytes(cs);
        assert(query_laws::is_scan(args, idx));
        query_laws::lemma_query_gives_the_answer(t, s, c, args, idx, k);
    }
}

/// Where all that it reads is known, a query that is run by its plan comes to its end: every call of
/// it goes well.
pub proof fn lemma_planned_query_goes_well(
    t: TableView,
    s: StoreView,
    c: CursorView,
    cs: Seq<ConstraintInfo>,
    args: Seq<ArgView>,
    k: nat,
)
    requires
        t.is_tree(s),
        t.node_count > 0,
        query_laws::is_known(t, s),
        c.table().same_shape(t),
        cs.len() < u32::MAX,
        args.len() == plan::asked(cs),
        plan::fixes_rowid(cs) ==> (args[0].integer matches Some(id) ==> s.rowids.contains_key(id)),
    ensures
        query_laws::is_good(c.filter(s, args, plan::index_text(cs)).0),
        query_laws::after(c.filter(s, args, plan::index_text(cs)).1, s, k).0,
{
    let idx = plan::index_text(cs);
    plan::lemma_index_bytes(cs);
    if plan::fixes_rowid(cs) {
        if let Some(id) = args[0].integer {
            assert forall|q: CursorView| q.table() == c.table() implies finds(
                t,
                s,
                #[trigger] q.find_row(s, id),
            ) by {
                lemma_finds(t, s, q, id);
            }
        }
        lemma_lookup_goes_well(t, s, c, args, idx);
        lemma_planned_lookup(t, s, c, cs, args);
        lemma_after_last(c.filter(s, args, idx).1, s, k);
    } else {
        assert(query_laws::is_scan(args, idx));
        query_laws::lemma_query_goes_well(t, s, c, args, idx, k);
    }
}

/// A lookup goes well where the row is found, or is known not to be stored, and its auxiliary
/// columns are known.
proof fn lemma_lookup_goes_well(
    t: TableView,
    s: StoreView,
    c: CursorView,
    args: Seq<ArgView>,
    idx: Seq<char>,
)
    requires
        t.wf(),
        s.connected,
        c.table().same_shape(t),
        cursor::is_lookup(vstd::utf8::encode_utf8(idx)),
        args.len() > 0,
        args[0].integer matches Some(id) ==> forall|q: CursorView|
            q.table() == c.table() ==> finds(t, s, #[trigger] q.find_row(s, id)),
    ensures
        query_laws::is_good(c.filter(s, args, idx).0),
{
    let bytes = vstd::utf8::encode_utf8(idx);
    let read = cursor::constraints_from(
        cursor::behind_word(bytes),
        args.skip(1),
        0,
        Seq::empty(),
    );
    let q = CursorView { constraints: read, ..c.rewound() };
    assert(q.table() == c.table());
    if let Some(id) = args[0].integer {
        assert(finds(t, s, q.find_row(s, id)));
        if let Some(cell) = q.find_row(s, id).0->Ok_0 {
            query_laws::lemma_arrived(t, s, q, cell);
        }
    }
}

/// A row was found whose auxiliary columns are known, or it is known that there is none.
pub open spec fn finds(
    t: TableView,
    s: StoreView,
    found: (Result<Option<CellView>, Stop>, StoreView),
) -> bool {
    &&& found.0 is Ok
    &&& found.1 == s
    &&& found.0->Ok_0 matches Some(cell) ==> t.aux_of(s, cell.rowid) is Some
}

/// Finding a row where all that a query reads is known.
proof fn lemma_finds(t: TableView, s: StoreView, q: CursorView, id: i64)
    requires
        t.is_tree(s),
        query_laws::is_known(t, s),
        q.table().same_shape(t),
        s.rowids.contains_key(id),
    ensures
        finds(t, s, q.find_row(s, id)),
{
    if exists|cell: CellView| #[trigger] t.rows(s).contains(cell) && cell.rowid == id {
        let cell = choose|cell: CellView| #[trigger] t.rows(s).contains(cell) && cell.rowid == id;
        lookup_laws::lemma_row_is_found(t, s, q, cell);
        lemma_aux_known(t, s, cell);
    } else {
        lemma_no_row_found(t, s, q, id);
    }
}

/// The auxiliary columns of a stored row are known where all that a query reads is.
proof fn lemma_aux_known(t: TableView, s: StoreView, cell: CellView)
    requires
        query_laws::is_known(t, s),
        t.rows(s).contains(cell),
    ensures
        t.aux_of(s, cell.rowid) is Some,
{
    let f = t.forest(s);
    assert(f.holds(cell));
    let n = choose|n: i64| #[trigger]
        f.pages.contains_key(n) && !f.inner(n) && f.pages[n].contains(cell);
    let i = f.pages[n].index_of(cell);
    assert(t.aux_of(s, f.pages[n][i].rowid) is Some);
}

} // verus!
