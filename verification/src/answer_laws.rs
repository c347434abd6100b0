//! What a planned query gives, by the numbers that the constraints compare, and how a cursor reads an
//! index string.

use vstd::prelude::*;
use crate::constraint::RtreeConstraint;
use crate::constraint_laws;
use crate::cursor;
use crate::cursor::{ColumnView, CursorView};
use crate::node::CellView;
use crate::plan;
use crate::plan::{ConstraintInfo, ConstraintOp};
use crate::plan_laws;
use crate::plan_laws::{compares_coordinate, gives_rowid};
use crate::planned_laws;
use crate::query_laws;
use crate::store::StoreView;
use crate::table::TableView;
use crate::value::{ArgView, ValueView};

verus! {

/// The number `a` stands to the number `b` as an operator of SQL says.
pub open spec fn compares(op: ConstraintOp, a: int, b: int) -> bool {
    match op {
        ConstraintOp::Eq => a == b,
        ConstraintOp::Lt => a < b,
        ConstraintOp::Le => a <= b,
        ConstraintOp::Gt => a > b,
        ConstraintOp::Ge => a >= b,
        ConstraintOp::Other => true,
    }
}

/// A row meets a constraint with the value on its right side. A row id is compared as an integer, a
/// coordinate as a number. A value that does not read as a number leaves a coordinate free, and so
/// does a column that is no coordinate of the table.
pub open spec fn fulfils(row: CellView, c: ConstraintInfo, value: ArgView, n_dim2: int) -> bool {
    if c.column_index == 0 {
        value.integer == Some(row.rowid)
    } else if c.column_index > n_dim2 || value.real is None {
        true
    } else {
        let x = row.coords[c.column_index - 1];
        let v = value.real->0;
        !x.is_no_number() && !v.is_no_number() && compares(c.op, x.number(), v.number())
    }
}

/// Whether a row meets a constraint that was taken over.
proof fn lemma_met_by_numbers(c: ConstraintInfo, value: ArgView, row: CellView, n_dim2: nat)
    requires
        gives_rowid(c) || compares_coordinate(c),
    ensures
        plan::is_met(c, value, row, n_dim2) <==> fulfils(row, c, value, n_dim2 as int),
{
    plan_laws::lemma_operator_letters(c.op);
    if compares_coordinate(c) && value.real is Some {
        let tested = RtreeConstraint {
            i_coord: (c.column_index - 1) as usize,
            op: plan::op_letter(c.op)->0,
            value: value.real->0,
        };
        constraint_laws::lemma_leaf_is_judged_by_its_number(tested, row, n_dim2);
    }
}

/// A query that is run by its plan gives exactly the stored rows that meet every constraint that was
/// taken over, compared as numbers, one after the other and each once, and then the end. The first
/// usable constraint that gives the row id, and every usable comparison of a coordinate, is taken over.
pub proof fn lemma_planned_query_by_numbers(
    t: TableView,
    s: StoreView,
    c: CursorView,
    cs: Seq<ConstraintInfo>,
    args: Seq<ArgView>,
    k: nat,
) -> (rows: Seq<CellView>)
    requires
        t.is_tree(s),
        c.table().same_shape(t),
        cs.len() < u32::MAX,
        args.len() == plan::asked(cs),
        query_laws::is_good(c.filter(s, args, plan::index_text(cs)).0),
        query_laws::after(c.filter(s, args, plan::index_text(cs)).1, s, k).0,
    ensures
        ({
            let c2 = query_laws::after(c.filter(s, args, plan::index_text(cs)).1, s, k).1;
            &&& k < rows.len() ==> query_laws::shows(c2, t, s, rows[k as int]) && c2.rowid
                == rows[k as int].rowid
            &&& k >= rows.len() ==> c2.at_eof
        }),
        rows.no_duplicates(),
        forall|row: CellView| #[trigger]
            rows.contains(row) <==> t.rows(s).contains(row) && forall|i: int|
                0 <= i < cs.len() && (#[trigger] plan::usage(cs, i)).argv_index is Some
                    ==> fulfils(
                    row,
                    cs[i],
                    args[plan::usage(cs, i).argv_index->0 - 1],
                    t.n_dim2 as int,
                ),
        forall|i: int|
            0 <= i < cs.len() && compares_coordinate(cs[i]) ==> (#[trigger] plan::usage(
                cs,
                i,
            )).argv_index is Some,
        forall|i: int|
            0 <= i < cs.len() && gives_rowid(cs[i]) && (forall|j: int|
                0 <= j < i ==> !gives_rowid(#[trigger] cs[j])) ==> (#[trigger] plan::usage(
                cs,
                i,
            )).argv_index is Some,
        forall|i: int|
            0 <= i < cs.len() && (#[trigger] plan::usage(cs, i)).argv_index is Some ==> gives_rowid(
                cs[i],
            ) || compares_coordinate(cs[i]),
{
    planned_laws::lemma_planned_query_gives_the_answer(t, s, c, cs, args, k);
    let rows = planned_laws::planned_rows(t, s, cs, args);
    let n_dim2 = t.n_dim2 as nat;
    assert forall|i: int| 0 <= i < cs.len() && (#[trigger] plan::usage(cs, i)).argv_index is
        Some implies gives_rowid(cs[i]) || compares_coordinate(cs[i]) by {
        plan_laws::lemma_what_becomes_of_a_constraint(cs, i);
    }
    assert forall|i: int| 0 <= i < cs.len() && compares_coordinate(cs[i]) implies (
    #[trigger] plan::usage(cs, i)).argv_index is Some by {
        plan_laws::lemma_what_becomes_of_a_constraint(cs, i);
    }
    assert forall|i: int|
        0 <= i < cs.len() && gives_rowid(cs[i]) && (forall|j: int|
            0 <= j < i ==> !gives_rowid(#[trigger] cs[j])) implies (#[trigger] plan::usage(
        cs,
        i,
    )).argv_index is Some by {
        plan_laws::lemma_what_becomes_of_a_constraint(cs, i);
    }
    assert forall|row: CellView| planned_laws::meets_plan(cs, args, row, n_dim2) <==> forall|i: int|
        0 <= i < cs.len() && (#[trigger] plan::usage(cs, i)).argv_index is Some ==> fulfils(
            row,
            cs[i],
            args[plan::usage(cs, i).argv_index->0 - 1],
            t.n_dim2 as int,
        ) by {
        assert forall|i: int| 0 <= i < cs.len() && (#[trigger] plan::usage(cs, i)).argv_index is
            Some implies plan::is_met(
            cs[i],
            args[plan::usage(cs, i).argv_index->0 - 1],
            row,
            n_dim2,
        ) == fulfils(
            row,
            cs[i],
            args[plan::usage(cs, i).argv_index->0 - 1],
            t.n_dim2 as int,
        ) by {
            lemma_met_by_numbers(
                cs[i],
                args[plan::usage(cs, i).argv_index->0 - 1],
                row,
                n_dim2,
            );
        }
    }
    let c2 = query_laws::after(c.filter(s, args, plan::index_text(cs)).1, s, k).1;
    if k < rows.len() {
        assert(c2.column(0) == ColumnView::Plain(ValueView::Integer(c2.rowid)));
    }
    rows
}

/// The rows that a query without constraints gives are all stored rows.
pub proof fn lemma_open_query_gives_all_rows(
    t: TableView,
    s: StoreView,
    c: CursorView,
    k: nat,
) -> (rows: Seq<CellView>)
    requires
        t.is_tree(s),
        c.table().same_shape(t),
        query_laws::is_good(c.filter(s, Seq::empty(), "query"@).0),
        query_laws::after(c.filter(s, Seq::empty(), "query"@).1, s, k).0,
    ensures
        ({
            let c2 = query_laws::after(c.filter(s, Seq::empty(), "query"@).1, s, k).1;
            &&& k < rows.len() ==> query_laws::shows(c2, t, s, rows[k as int])
            &&& k >= rows.len() ==> c2.at_eof
        }),
        rows.no_duplicates(),
        forall|row: CellView| #[trigger] rows.contains(row) <==> t.rows(s).contains(row),
{
    let cs = Seq::<ConstraintInfo>::empty();
    plan_laws::lemma_index_string(cs);
    plan_laws::lemma_rowid_plans(cs);
    assert(!plan_laws::some_gives_rowid(cs));
    assert(plan_laws::compared(cs, 0) == 0);
    lemma_planned_query_by_numbers(t, s, c, cs, Seq::empty(), k)
}

/// Shifting what is read of an index string.
proof fn lemma_decoding_shifts(
    idx: Seq<u8>,
    args: Seq<ArgView>,
    k: int,
    known: Seq<RtreeConstraint>,
)
    requires
        1 <= k,
        idx.len() >= 2,
        args.len() >= 1,
    ensures
        cursor::constraints_from(idx, args, k, known) == known + cursor::constraints_from(
            idx.skip(2),
            args.skip(1),
            k - 1,
            Seq::empty(),
        ),
    decreases idx.len() - k,
{
    let rest = idx.skip(2);
    let others = args.skip(1);
    let j = k - 1;
    if 2 * k + 1 >= idx.len() {
        assert(known + Seq::<RtreeConstraint>::empty() =~= known);
    } else {
        assert(rest[2 * j] == idx[2 * k] && rest[2 * j + 1] == idx[2 * k + 1]);
        if k < args.len() {
            assert(others[j] == args[k]);
        }
        let found = if k < args.len() && args[k].real is Some && idx[2 * k + 1] >= 0x30 {
            seq![
                RtreeConstraint {
                    i_coord: (idx[2 * k + 1] - 0x30) as usize,
                    op: idx[2 * k],
                    value: args[k].real->0,
                },
            ]
        } else {
            Seq::empty()
        };
        let more = known + found;
        lemma_decoding_shifts(idx, args, k + 1, more);
        lemma_decoding_grows(rest, others, j + 1, found);
        lemma_decoding_grows(rest, others, j, Seq::empty());
        if found.len() > 0 {
            assert(known.push(found[0]) =~= more);
            assert(Seq::<RtreeConstraint>::empty().push(found[0]) =~= found);
        } else {
            assert(more =~= known);
        }
        let tail = cursor::constraints_from(rest, others, j + 1, Seq::empty());
        assert(cursor::constraints_from(rest, others, j, Seq::empty()) == found + tail);
        assert(more + tail =~= known + (found + tail));
    }
}

proof fn lemma_decoding_grows(
    idx: Seq<u8>,
    args: Seq<ArgView>,
    k: int,
    known: Seq<RtreeConstraint>,
)
    requires
        0 <= k,
    ensures
        cursor::constraints_from(idx, args, k, known) == known + cursor::constraints_from(
            idx,
            args,
            k,
            Seq::empty(),
        ),
    decreases idx.len() - k,
{
    let none = Seq::<RtreeConstraint>::empty();
    if 2 * k + 1 >= idx.len() {
        assert(known + none =~= known);
    } else if k < args.len() && args[k].real is Some && idx[2 * k + 1] >= 0x30 {
        let c = RtreeConstraint {
            i_coord: (idx[2 * k + 1] - 0x30) as usize,
            op: idx[2 * k],
            value: args[k].real->0,
        };
        lemma_decoding_grows(idx, args, k + 1, known.push(c));
        lemma_decoding_grows(idx, args, k + 1, none.push(c));
        let tail = cursor::constraints_from(idx, args, k + 1, none);
        assert(known.push(c) + tail =~= known + (none.push(c) + tail));
    } else {
        lemma_decoding_grows(idx, args, k + 1, known);
        lemma_decoding_grows(idx, args, k + 1, none);
    }
}

/// An index string is read in pairs, each with the next argument: a letter and the digit of a
/// coordinate, compared with the number that the argument reads as. A pair whose argument is no
/// number, or whose second character is none of the digits or what follows them, sets nothing. What is
/// left over, of the string or of the arguments, is not read.
pub proof fn lemma_index_string_is_read_in_pairs(idx: Seq<u8>, args: Seq<ArgView>)
    ensures
        ({
            let read = cursor::constraints_from(idx, args, 0, Seq::empty());
            if idx.len() < 2 || args.len() == 0 {
                read.len() == 0
            } else {
                let rest = cursor::constraints_from(idx.skip(2), args.skip(1), 0, Seq::empty());
                if args[0].real is Some && idx[1] >= 0x30 {
                    &&& read.len() == 1 + rest.len()
                    &&& read[0].op == idx[0]
                    &&& read[0].i_coord == idx[1] - 0x30
                    &&& read[0].value == args[0].real->0
                    &&& read.skip(1) == rest
                } else {
                    read == rest
                }
            }
        }),
{
    let none = Seq::<RtreeConstraint>::empty();
    let read = cursor::constraints_from(idx, args, 0, none);
    if idx.len() >= 2 && args.len() > 0 {
        let rest = cursor::constraints_from(idx.skip(2), args.skip(1), 0, none);
        let i: int = 0;
        assert(idx[2 * i] == idx[0] && idx[2 * i + 1] == idx[1]);
        if args[0].real is Some && idx[1] >= 0x30 {
            let c = RtreeConstraint {
                i_coord: (idx[1] - 0x30) as usize,
                op: idx[0],
                value: args[0].real->0,
            };
            lemma_decoding_shifts(idx, args, 1, none.push(c));
            assert(read == none.push(c) + rest);
            assert(read.skip(1) =~= rest);
        } else {
            lemma_decoding_shifts(idx, args, 1, none);
            assert(read =~= rest);
        }
    } else if args.len() == 0 {
        lemma_nothing_decoded(idx, args, 0, none);
    }
}

proof fn lemma_nothing_decoded(
    idx: Seq<u8>,
    args: Seq<ArgView>,
    k: int,
    known: Seq<RtreeConstraint>,
)
    requires
        args.len() == 0,
        0 <= k,
    ensures
        cursor::constraints_from(idx, args, k, known) == known,
    decreases idx.len() - k,
{
    if 2 * k + 1 < idx.len() {
        lemma_nothing_decoded(idx, args, k + 1, known);
    }
}

/// The columns of a cursor: the row id, the coordinates of the row, the auxiliary columns, and NULL
/// behind them.
pub proof fn lemma_columns(c: CursorView, i: nat)
    ensures
        i == 0 ==> c.column(i) == ColumnView::Plain(ValueView::Integer(c.rowid)),
        1 <= i <= c.n_dim2 ==> c.column(i) == ColumnView::Coordinate(c.current_coords[i - 1]),
        c.n_dim2 < i <= c.n_dim2 + c.aux_values.len() ==> c.column(i) == ColumnView::Plain(
            crate::row_laws::stored_as(c.aux_values[i - 1 - c.n_dim2]),
        ),
        i > c.n_dim2 + c.aux_values.len() ==> c.column(i) == ColumnView::Plain(ValueView::Null),
{
}

/// A cursor that is at its end stays there, whatever it was used for.
pub proof fn lemma_end_is_the_end(c: CursorView, s: StoreView)
    requires
        c.todo.len() == 0,
        c.ready.len() == 0,
    ensures
        c.next(s).0 == Ok::<crate::value::ResultCode, crate::store::Stop>(
            crate::value::ResultCode::EOF,
        ),
        c.next(s).1.at_eof,
        c.next(s).2 == s,
{
    reveal(CursorView::advance);
}

} // verus!
