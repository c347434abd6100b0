//! What a lookup by row id gives back of what was inserted, updated and deleted before it.

use vstd::prelude::*;
use crate::constraint;
use crate::cursor;
use crate::cursor::CursorView;
use crate::detach_laws;
use crate::forest;
use crate::forest_rows;
use crate::insert_laws;
use crate::insert_laws::row_cell;
use crate::node::CellView;
use crate::query_laws;
use crate::query_laws::shows;
use crate::removal_laws;
use crate::store::{AuxRowView, NodeRowView, NumberRow, Stop, StoreView, WriteView};
use crate::table;
use crate::table::TableView;
use crate::value;
use crate::value::{ArgView, ResultCode, ValueView};

verus! {

/// A table without nodes, of which no rows are stored, is a tree without rows.
pub proof fn lemma_new_table_is_tree(t: TableView, s: StoreView)
    requires
        t.wf(),
        t.node_count == 0,
        s.connected,
        s.wf(t),
        forall|n: i64| #[trigger] s.nodes.contains_key(n) ==> !(s.nodes[n] is Blob),
        forall|n: i64| #[trigger] s.parents.contains_key(n) ==> !(s.parents[n] is Number),
        forall|r: i64| #[trigger] s.rowids.contains_key(r) ==> !(s.rowids[r] is Number),
    ensures
        t.is_tree(s),
        t.rows(s) == Set::<CellView>::empty(),
{
    let f = t.forest(s);
    assert(f.pages =~= Map::empty());
    assert(f.up =~= Map::empty());
    assert(f.home =~= Map::empty());
    assert(f.rows() =~= Set::empty());
}

/// Inserting the rows of a list one after the other, from the `j`-th on: whether all went well, and
/// what is there in the end.
pub open spec fn filled(t: TableView, s: StoreView, list: Seq<Seq<ArgView>>, j: int) -> (
    bool,
    TableView,
    StoreView,
)
    decreases list.len() - j,
{
    if j < 0 || j >= list.len() {
        (true, t, s)
    } else {
        let (r, t1, s1) = t.insert(s, list[j]);
        let (well, t2, s2) = filled(t1, s1, list, j + 1);
        (r is Ok && well, t2, s2)
    }
}

/// The rows that inserting a list makes, under the row ids that they get.
pub open spec fn made(t: TableView, s: StoreView, list: Seq<Seq<ArgView>>, j: int) -> Set<CellView>
    decreases list.len() - j,
{
    if j < 0 || j >= list.len() {
        Set::empty()
    } else {
        let (r, t1, s1) = t.insert(s, list[j]);
        made(t1, s1, list, j + 1).insert(row_cell(t, list[j]))
    }
}

/// A table that was filled by insertions holds the rows that it held and every row inserted.
pub proof fn lemma_filled_table_is_tree(
    t: TableView,
    s: StoreView,
    list: Seq<Seq<ArgView>>,
    j: int,
)
    requires
        t.is_tree(s),
        0 <= j <= list.len(),
        t.node_count + 2 * (list.len() - j) + (if t.node_count == 0 {
            1int
        } else {
            0
        }) <= i64::MAX,
        filled(t, s, list, j).0,
    ensures
        ({
            let (well, t2, s2) = filled(t, s, list, j);
            &&& t2.is_tree(s2)
            &&& t2.same_shape(t)
            &&& t2.rows(s2) == t.rows(s).union(made(t, s, list, j))
        }),
    decreases list.len() - j,
{
    if j < list.len() {
        insert_laws::lemma_insert_keeps_tree(t, s, list[j]);
        let (r, t1, s1) = t.insert(s, list[j]);
        lemma_filled_table_is_tree(t1, s1, list, j + 1);
        assert(t.rows(s).union(made(t, s, list, j)) =~= t1.rows(s1).union(
            made(t1, s1, list, j + 1),
        ));
    } else {
        assert(t.rows(s).union(made(t, s, list, j)) =~= t.rows(s));
    }
}

/// A query of a table that was filled by insertions gives exactly the inserted rows that meet every
/// constraint, one after the other and each once, and then the end.
pub proof fn lemma_query_of_filled_table(
    t: TableView,
    s: StoreView,
    list: Seq<Seq<ArgView>>,
    c: CursorView,
    args: Seq<ArgView>,
    idx: Seq<char>,
    k: nat,
)
    requires
        t.is_tree(s),
        t.node_count == 0,
        2 * list.len() < i64::MAX,
        filled(t, s, list, 0).0,
        c.table().same_shape(t),
        query_laws::is_scan(args, idx),
        query_laws::is_good(c.filter(filled(t, s, list, 0).2, args, idx).0),
        query_laws::after(
            c.filter(filled(t, s, list, 0).2, args, idx).1,
            filled(t, s, list, 0).2,
            k,
        ).0,
    ensures
        ({
            let (well, t2, s2) = filled(t, s, list, 0);
            let constraints = cursor::constraints_from(
                vstd::utf8::encode_utf8(idx),
                args,
                0,
                Seq::empty(),
            );
            let rows = query_laws::answer(t2, s2, constraints);
            let c2 = query_laws::after(c.filter(s2, args, idx).1, s2, k).1;
            &&& k < rows.len() ==> shows(c2, t2, s2, rows[rows.len() - 1 - k])
            &&& k >= rows.len() ==> c2.at_eof
            &&& rows.no_duplicates()
            &&& forall|row: CellView| #[trigger]
                rows.contains(row) == (made(t, s, list, 0).contains(row)
                    && constraint::leaf_matches(constraints, row, t.n_dim2 as nat))
        }),
{
    lemma_filled_table_is_tree(t, s, list, 0);
    let (well, t2, s2) = filled(t, s, list, 0);
    assert(t.rows(s) =~= Set::empty());
    query_laws::lemma_query_gives_the_answer(t2, s2, c, args, idx, k);
}

/// A lookup by row id finds the row and settles on it.
proof fn lemma_lookup_is_find(c: CursorView, s: StoreView, key: Seq<ArgView>, rowid: i64)
    requires
        key.len() > 0,
        key[0].integer == Some(rowid),
    ensures
        c.filter(s, key, "rowid_lookup"@) == c.rewound().settle(c.rewound().find_row(s, rowid)),
{
    cursor::lemma_lookup_word();
    assert(cursor::constraints_from(Seq::empty(), key.skip(1), 0, Seq::empty())
        == c.rewound().constraints);
}

/// The place of a stored row: the leaf that is noted for it, where no other cell has its row id.
proof fn lemma_row_is_noted(t: TableView, s: StoreView, cell: CellView)
    requires
        t.is_tree(s),
        t.rows(s).contains(cell),
    ensures
        t.node_count != 0,
        s.connected,
        ({
            let f = t.forest(s);
            let n = f.home[cell.rowid];
            &&& f.home.contains_key(cell.rowid)
            &&& f.pages.contains_key(n)
            &&& table::index_of_rowid(f.pages[n], cell.rowid) is Some
            &&& f.pages[n][table::index_of_rowid(f.pages[n], cell.rowid)->0] == cell
        }),
{
    let f = t.forest(s);
    let r = cell.rowid;
    assert(f.holds(cell));
    assert(t.node_count != 0);
    forest_rows::lemma_rows_by_id(f, t.n_dim2 as nat, t.node_count, r);
    let cells = f.pages[f.home[r]];
    table::lemma_found_by_rowid(cells, r);
    assert(cells[cells.index_of(cell)].rowid == r);
    let i = table::index_of_rowid(cells, r)->0;
    assert(f.holds(cells[i]));
}

/// Finding a row gives the cell of the node that is noted for it.
proof fn lemma_found_in_node(
    q: CursorView,
    s: StoreView,
    rowid: i64,
    n: i64,
    cells: Seq<CellView>,
    i: int,
)
    requires
        s.connected,
        s.fetch_rowid(rowid) == (Ok::<NumberRow, Stop>(NumberRow::Number(n)), s),
        q.load_node(s, n).0 matches Ok(Some(node)) && q.table().cells(node.data) == cells,
        q.load_node(s, n).1 == s,
        table::index_of_rowid(cells, rowid) == Some(i),
    ensures
        q.find_row(s, rowid) == (Ok::<Option<CellView>, Stop>(Some(cells[i])), s),
{
    reveal(CursorView::find_row);
}

/// The node that is noted for a row is read.
proof fn lemma_noted_node_is_read(t: TableView, s: StoreView, q: CursorView, rowid: i64)
    requires
        s.connected,
        t.forest(s).home.contains_key(rowid),
        t.forest(s).pages.contains_key(t.forest(s).home[rowid]),
        q.table().same_shape(t),
    ensures
        ({
            let n = t.forest(s).home[rowid];
            &&& s.fetch_rowid(rowid) == (Ok::<NumberRow, Stop>(NumberRow::Number(n)), s)
            &&& q.load_node(s, n).0 matches Ok(Some(node)) && q.table().cells(node.data)
                == t.forest(s).pages[n]
            &&& q.load_node(s, n).1 == s
        }),
{
}

/// Finding a row of the tree gives its cell.
pub proof fn lemma_row_is_found(t: TableView, s: StoreView, q: CursorView, cell: CellView)
    requires
        t.is_tree(s),
        t.rows(s).contains(cell),
        q.table().same_shape(t),
    ensures
        q.find_row(s, cell.rowid) == (Ok::<Option<CellView>, Stop>(Some(cell)), s),
{
    lemma_row_is_noted(t, s, cell);
    let f = t.forest(s);
    let n = f.home[cell.rowid];
    lemma_noted_node_is_read(t, s, q, cell.rowid);
    let i = table::index_of_rowid(f.pages[n], cell.rowid)->0;
    lemma_found_in_node(q, s, cell.rowid, n, f.pages[n], i);
}

/// The auxiliary columns of a row stay where those of another one are written.
proof fn lemma_other_aux_stays(
    t: TableView,
    s: StoreView,
    t2: TableView,
    s2: StoreView,
    rowid: i64,
    written: AuxRowView,
    other: i64,
)
    requires
        t2.same_shape(t),
        s2.aux == s.aux.insert(rowid, written),
        other != rowid,
    ensures
        t2.aux_of(s2, other) == t.aux_of(s, other),
{
}

/// A stored row is found by its row id, with its box and its auxiliary columns.
pub proof fn lemma_stored_row_is_found(
    t: TableView,
    s: StoreView,
    cell: CellView,
    c: CursorView,
    key: Seq<ArgView>,
)
    requires
        t.is_tree(s),
        t.rows(s).contains(cell),
        c.table().same_shape(t),
        key.len() > 0,
        key[0].integer == Some(cell.rowid),
    ensures
        ({
            let (r, found, s2) = c.filter(s, key, "rowid_lookup"@);
            &&& t.aux_of(s, cell.rowid) is Some ==> r == Ok::<ResultCode, Stop>(ResultCode::OK)
            &&& r is Ok ==> s2 == s && shows(found, t, s, cell)
        }),
{
    lemma_row_is_found(t, s, c.rewound(), cell);
    lemma_lookup_is_find(c, s, key, cell.rowid);
    query_laws::lemma_arrived(t, s, c.rewound(), cell);
}

/// A row id that no stored row has is not found.
pub proof fn lemma_other_row_is_not_found(
    t: TableView,
    s: StoreView,
    rowid: i64,
    c: CursorView,
    key: Seq<ArgView>,
)
    requires
        t.is_tree(s),
        forall|cell: CellView| #[trigger] t.rows(s).contains(cell) ==> cell.rowid != rowid,
        c.table().same_shape(t),
        key.len() > 0,
        key[0].integer == Some(rowid),
    ensures
        ({
            let (r, found, s2) = c.filter(s, key, "rowid_lookup"@);
            &&& s.rowids.contains_key(rowid) ==> r is Ok
            &&& r is Ok ==> r->Ok_0 == ResultCode::OK && s2 == s && found.at_eof
        }),
{
    reveal(CursorView::find_row);
    lemma_lookup_is_find(c, s, key, rowid);
    let f = t.forest(s);
    if f.home.contains_key(rowid) {
        assert(t.node_count != 0);
        forest_rows::lemma_rows_by_id(f, t.n_dim2 as nat, t.node_count, rowid);
        let cells = f.pages[f.home[rowid]];
        let i = forest::lemma_place(cells, rowid);
        assert(f.holds(cells[i]));
        assert(t.rows(s).contains(cells[i]));
    }
}

/// What an insertion wrote, a lookup by row id gives back: the row id, every coordinate and, for
/// every row id but 0, every auxiliary column.
pub proof fn lemma_insert_then_lookup(
    t: TableView,
    s: StoreView,
    args: Seq<ArgView>,
    c: CursorView,
    key: Seq<ArgView>,
)
    requires
        t.is_tree(s),
        t.node_count <= i64::MAX - 2,
        t.insert(s, args).0 is Ok,
        c.table().same_shape(t),
        key.len() > 0,
        key[0].integer == Some(t.assigned_rowid(args)),
    ensures
        ({
            let (r, t2, s2) = t.insert(s, args);
            let (code, found, s3) = c.filter(s2, key, "rowid_lookup"@);
            &&& r == Ok::<i64, Stop>(t.assigned_rowid(args))
            &&& code == Ok::<ResultCode, Stop>(ResultCode::OK)
            &&& s3 == s2
            &&& shows(found, t2, s2, row_cell(t, args))
            &&& t2.aux_of(s2, t.assigned_rowid(args)) == Some(value::owned_all(t.row_aux(args)))
        }),
{
    insert_laws::lemma_insert_keeps_tree(t, s, args);
    let (r, t2, s2) = t.insert(s, args);
    let rowid = t.assigned_rowid(args);
    let aux = value::owned_all(t.row_aux(args));
    assert(t2.rows(s2).contains(row_cell(t, args)));
    assert(t2.aux_of(s2, rowid) == Some(aux)) by {
        assert(aux.take(t.aux_columns.len() as int) =~= aux);
        assert(value::owned_all(aux) =~= aux);
        if t.aux_columns.len() == 0 {
            assert(aux =~= Seq::empty());
        }
    }
    lemma_stored_row_is_found(t2, s2, row_cell(t, args), c, key);
}

/// An insertion leaves every other stored row to be found as before.
pub proof fn lemma_insert_keeps_rows_found(
    t: TableView,
    s: StoreView,
    args: Seq<ArgView>,
    other: CellView,
    c: CursorView,
    key: Seq<ArgView>,
)
    requires
        t.is_tree(s),
        t.node_count <= i64::MAX - 2,
        t.insert(s, args).0 is Ok,
        t.rows(s).contains(other),
        t.aux_of(s, other.rowid) is Some,
        c.table().same_shape(t),
        key.len() > 0,
        key[0].integer == Some(other.rowid),
    ensures
        ({
            let (r, t2, s2) = t.insert(s, args);
            let (code, found, s3) = c.filter(s2, key, "rowid_lookup"@);
            &&& code == Ok::<ResultCode, Stop>(ResultCode::OK)
            &&& s3 == s2
            &&& shows(found, t2, s2, other)
            &&& t2.aux_of(s2, other.rowid) == t.aux_of(s, other.rowid)
        }),
{
    insert_laws::lemma_insert_keeps_tree(t, s, args);
    let (r, t2, s2) = t.insert(s, args);
    let written = AuxRowView::Values(value::owned_all(t.row_aux(args)));
    lemma_other_aux_stays(t, s, t2, s2, t.assigned_rowid(args), written, other.rowid);
    assert(t2.rows(s2).contains(other));
    lemma_stored_row_is_found(t2, s2, other, c, key);
}

/// A row that was deleted is not found any more.
pub proof fn lemma_delete_then_lookup(
    t: TableView,
    s: StoreView,
    rowid: i64,
    c: CursorView,
    key: Seq<ArgView>,
)
    requires
        t.is_tree(s),
        t.numbers_left((2 * t.max_cells()) as int),
        t.delete(s, rowid).0 is Ok,
        c.table().same_shape(t),
        key.len() > 0,
        key[0].integer == Some(rowid),
    ensures
        ({
            let (r, t2, s2) = t.delete(s, rowid);
            let (code, found, s3) = c.filter(s2, key, "rowid_lookup"@);
            code is Ok ==> code->Ok_0 == ResultCode::OK && s3 == s2 && found.at_eof
        }),
{
    removal_laws::lemma_delete_keeps_tree(t, s, rowid);
    let (r, t2, s2) = t.delete(s, rowid);
    lemma_other_row_is_not_found(t2, s2, rowid, c, key);
}

/// A deletion leaves every other stored row to be found as before.
pub proof fn lemma_delete_keeps_rows_found(
    t: TableView,
    s: StoreView,
    rowid: i64,
    other: CellView,
    c: CursorView,
    key: Seq<ArgView>,
)
    requires
        t.is_tree(s),
        t.numbers_left((2 * t.max_cells()) as int),
        t.delete(s, rowid).0 is Ok,
        t.rows(s).contains(other),
        other.rowid != rowid,
        t.aux_of(s, other.rowid) is Some,
        c.table().same_shape(t),
        key.len() > 0,
        key[0].integer == Some(other.rowid),
    ensures
        ({
            let (r, t2, s2) = t.delete(s, rowid);
            let (code, found, s3) = c.filter(s2, key, "rowid_lookup"@);
            &&& code == Ok::<ResultCode, Stop>(ResultCode::OK)
            &&& s3 == s2
            &&& shows(found, t2, s2, other)
            &&& t2.aux_of(s2, other.rowid) == t.aux_of(s, other.rowid)
        }),
{
    removal_laws::lemma_delete_keeps_tree(t, s, rowid);
    let (r, t2, s2) = t.delete(s, rowid);
    lemma_stored_row_is_found(t2, s2, other, c, key);
}

/// The row that an update inserts, and the table that it is inserted into.
pub open spec fn updated_row(
    t: TableView,
    s: StoreView,
    old_rowid: i64,
    args: Seq<ArgView>,
) -> CellView {
    let row = t.update_args(s, old_rowid, args).0->Ok_0;
    row_cell(t.delete(s, old_rowid).1, row)
}

/// An update keeps the tree a tree: the old row is out of it, the new one is in it, and every other
/// row is as before.
pub proof fn lemma_update_keeps_tree(t: TableView, s: StoreView, old_rowid: i64, args: Seq<ArgView>)
    requires
        t.is_tree(s),
        t.numbers_left((2 * t.max_cells()) as int),
    ensures
        ({
            let (r, t2, s2) = t.update(s, old_rowid, args);
            let cell = updated_row(t, s, old_rowid, args);
            r is Ok ==> {
                &&& t2.is_tree(s2)
                &&& t2.same_shape(t)
                &&& t2.rows(s2) == detach_laws::without_id(t.rows(s), old_rowid).insert(cell)
                &&& forall|x: i64| x != old_rowid && x != cell.rowid ==> #[trigger] t2.aux_of(s2, x)
                    == t.aux_of(s, x)
            }
        }),
{
    let (r, t2, s2) = t.update(s, old_rowid, args);
    if r is Ok {
        let (row_r, s0) = t.update_args(s, old_rowid, args);
        let row = row_r->Ok_0;
        assert(s0 == s);
        assert(t.check_update(s, old_rowid, row).1 == s);
        removal_laws::lemma_delete_keeps_tree(t, s, old_rowid);
        let (r3, t3, s3) = t.delete(s, old_rowid);
        insert_laws::lemma_insert_keeps_tree(t3, s3, row);
        let cell = row_cell(t3, row);
        assert forall|x: i64| x != old_rowid && x != cell.rowid implies #[trigger] t2.aux_of(s2, x)
            == t.aux_of(s, x) by {
            assert(t3.aux_of(s3, x) == t.aux_of(s, x));
            assert(t2.aux_of(s2, x) == t3.aux_of(s3, x));
        }
    }
}

/// What an update wrote, a lookup by row id gives back: the arguments, with what was stored before
/// in place of each NULL.
pub proof fn lemma_update_then_lookup(
    t: TableView,
    s: StoreView,
    old_rowid: i64,
    args: Seq<ArgView>,
    c: CursorView,
    key: Seq<ArgView>,
)
    requires
        t.is_tree(s),
        t.numbers_left((2 * t.max_cells()) as int),
        t.update(s, old_rowid, args).0 is Ok,
        c.table().same_shape(t),
        key.len() > 0,
        key[0].integer == Some(updated_row(t, s, old_rowid, args).rowid),
    ensures
        ({
            let (r, t2, s2) = t.update(s, old_rowid, args);
            let row = t.update_args(s, old_rowid, args).0->Ok_0;
            let (code, found, s3) = c.filter(s2, key, "rowid_lookup"@);
            let cell = updated_row(t, s, old_rowid, args);
            &&& code == Ok::<ResultCode, Stop>(ResultCode::OK)
            &&& s3 == s2
            &&& shows(found, t2, s2, cell)
            &&& cell.coords == t.row_coords(row)
            &&& row[0].integer matches Some(id) ==> cell.rowid == id
            &&& t2.aux_of(s2, cell.rowid) == Some(value::owned_all(t.row_aux(row)))
        }),
{
    let (row_r, s0) = t.update_args(s, old_rowid, args);
    let row = row_r->Ok_0;
    assert(s0 == s);
    assert(t.check_update(s, old_rowid, row).1 == s);
    removal_laws::lemma_delete_keeps_tree(t, s, old_rowid);
    let (r3, t3, s3) = t.delete(s, old_rowid);
    lemma_insert_then_lookup(t3, s3, row, c, key);
    assert(t3.row_coords(row) =~= t.row_coords(row));
    assert(t3.row_aux(row) =~= t.row_aux(row));
}

/// An update whose row has no proper box, or the row id of a third row, is refused with a constraint
/// violation, and leaves the table and the store as they were.
pub proof fn lemma_refused_update_changes_nothing(
    t: TableView,
    s: StoreView,
    old_rowid: i64,
    args: Seq<ArgView>,
)
    requires
        s.connected,
        args.len() >= t.row_width(),
        t.update_args(s, old_rowid, args).0 is Ok,
        ({
            let row = t.update_args(s, old_rowid, args).0->Ok_0;
            let id = t.assigned_rowid(row);
            !t.proper_box(t.row_coords(row)) || (t.node_count != 0 && id != old_rowid
                && s.rowids.contains_key(id) && s.rowids[id] is Number)
        }),
    ensures
        t.update(s, old_rowid, args) == (
            Err::<(), Stop>(Stop::Code(ResultCode::ConstraintViolation)),
            t,
            s,
        ),
{
    assert(t.update_args(s, old_rowid, args).1 == s);
}

/// Once the old row of an update is deleted, the new one is not refused: its box is a proper one,
/// and no row has its row id. The row id has to be given, or the stored one stays.
pub proof fn lemma_update_is_refused_first(
    t: TableView,
    s: StoreView,
    old_rowid: i64,
    args: Seq<ArgView>,
)
    requires
        t.is_tree(s),
        t.numbers_left((2 * t.max_cells()) as int),
        s.connected,
        args.len() >= t.row_width(),
        t.update_args(s, old_rowid, args).0 is Ok,
        t.update_args(s, old_rowid, args).0->Ok_0[0].integer is Some,
        t.check_update(s, old_rowid, t.update_args(s, old_rowid, args).0->Ok_0).0 is Ok,
        t.delete(s, old_rowid).0 is Ok,
    ensures
        ({
            let row = t.update_args(s, old_rowid, args).0->Ok_0;
            let (r3, t3, s3) = t.delete(s, old_rowid);
            &&& t3.proper_box(t3.row_coords(row))
            &&& forall|c: CellView| #[trigger] t3.rows(s3).contains(c) ==> c.rowid
                != t3.assigned_rowid(row)
            &&& !(t3.get_rowid_nodeno(s3, t3.assigned_rowid(row)).0 matches Ok(Some(_)))
        }),
{
    let row = t.update_args(s, old_rowid, args).0->Ok_0;
    let id = row[0].integer->0;
    let f = t.forest(s);
    let (r3, t3, s3) = t.delete(s, old_rowid);
    removal_laws::lemma_delete_keeps_tree(t, s, old_rowid);
    assert(t3.row_coords(row) =~= t.row_coords(row));
    t.lemma_read_home(s, id);
    assert forall|c: CellView| #[trigger] t3.rows(s3).contains(c) implies c.rowid != id by {
        assert(f.holds(c));
        if t.node_count != 0 {
            forest_rows::lemma_rows_by_id(f, t.n_dim2 as nat, t.node_count, c.rowid);
        }
    }
    t3.lemma_read_home(s3, id);
    let g = t3.forest(s3);
    if g.home.contains_key(id) {
        assert(t3.node_count != 0);
        forest_rows::lemma_rows_by_id(g, t3.n_dim2 as nat, t3.node_count, id);
        let cells = g.pages[g.home[id]];
        let i = forest::lemma_place(cells, id);
        assert(g.holds(cells[i]));
        assert(t3.rows(s3).contains(cells[i]));
    }
}

/// A row whose box is no box, or whose row id is taken, is refused with a constraint violation, and
/// nothing is written.
pub proof fn lemma_refused_row_changes_nothing(t: TableView, s: StoreView, args: Seq<ArgView>)
    requires
        s.connected,
        args.len() >= t.row_width(),
        !t.proper_box(t.row_coords(args)) || (t.node_count != 0 && s.rowids.contains_key(
            t.assigned_rowid(args),
        ) && s.rowids[t.assigned_rowid(args)] is Number),
    ensures
        t.insert(s, args).0 == Err::<i64, Stop>(Stop::Code(ResultCode::ConstraintViolation)),
        t.insert(s, args).2 == s,
{
}

/// The row id of a stored row is taken: no other row is inserted under it.
pub proof fn lemma_stored_rowid_is_taken(
    t: TableView,
    s: StoreView,
    args: Seq<ArgView>,
    cell: CellView,
)
    requires
        t.is_tree(s),
        args.len() >= t.row_width(),
        t.rows(s).contains(cell),
        cell.rowid == t.assigned_rowid(args),
    ensures
        t.insert(s, args).0 == Err::<i64, Stop>(Stop::Code(ResultCode::ConstraintViolation)),
        t.insert(s, args).2 == s,
{
    let f = t.forest(s);
    assert(f.holds(cell));
    assert(t.node_count != 0);
    forest_rows::lemma_rows_by_id(f, t.n_dim2 as nat, t.node_count, cell.rowid);
}

/// A row without a row id gets one that is above every row id that the table has counted so far,
/// and an insertion counts the row id that it used.
pub proof fn lemma_assigned_rowids_go_up(t: TableView, s: StoreView, args: Seq<ArgView>)
    requires
        t.row_count < i64::MAX,
    ensures
        args[0].integer is None ==> t.assigned_rowid(args) == t.row_count + 1,
        args[0].integer matches Some(id) ==> t.assigned_rowid(args) == id,
        t.insert(s, args).0 matches Ok(rowid) ==> {
            &&& rowid == t.assigned_rowid(args)
            &&& t.insert(s, args).1.row_count == if rowid > t.row_count {
                rowid
            } else {
                t.row_count
            }
        },
{
    reveal(TableView::place_in_leaf);
}

/// Where an update has NULL for a coordinate of a row that is stored, the stored coordinate stays;
/// any other argument is taken as it is.
pub proof fn lemma_update_keeps_placeholders(
    t: TableView,
    args: Seq<ArgView>,
    rowid: i64,
    cell: CellView,
    aux: Seq<ValueView>,
    k: int,
)
    requires
        t.wf(),
        args.len() >= t.row_width(),
        aux.len() == t.aux_columns.len(),
        0 <= k,
    ensures
        ({
            let row = t.merged(args, rowid, Some((cell, aux)));
            &&& k < t.n_dim2 ==> t.row_coords(row)[k] == if args[k + 1].value is Null {
                cell.coords[k]
            } else {
                t.row_coords(args)[k]
            }
            &&& k < aux.len() ==> t.row_aux(row)[k] == if args[t.n_dim2 + 1 + k].value is Null {
                aux[k]
            } else {
                t.row_aux(args)[k]
            }
        }),
{
    let row = t.merged(args, rowid, Some((cell, aux)));
    if k < t.n_dim2 {
        assert(row[k + 1] == t.merged_arg(args[k + 1], rowid, cell, aux, k + 1));
    }
    if k < aux.len() {
        let i = t.n_dim2 + 1 + k;
        assert(row[i] == t.merged_arg(args[i], rowid, cell, aux, i));
    }
}

/// Dropping a table drops all three shadow tables, and nothing is known of their rows any more.
pub proof fn lemma_destroy_drops_everything(t: TableView, s: StoreView)
    requires
        s.connected,
        t.destroy(s).0 is Ok,
    ensures
        ({
            let s2 = t.destroy(s).1;
            &&& s2.log == s.log.push(WriteView::DropNodeTable).push(WriteView::DropRowidTable).push(
                WriteView::DropParentTable,
            )
            &&& s2.nodes == Map::<i64, NodeRowView>::empty()
            &&& s2.rowids == Map::<i64, NumberRow>::empty()
            &&& s2.aux == Map::<i64, AuxRowView>::empty()
            &&& s2.parents == Map::<i64, NumberRow>::empty()
        }),
{
    let ws = seq![
        WriteView::DropNodeTable,
        WriteView::DropRowidTable,
        WriteView::DropParentTable,
    ];
    reveal_with_fuel(StoreView::issue_all, 4);
    assert(ws.drop_first()[0] == ws[1]);
    assert(ws.drop_first().drop_first()[0] == ws[2]);
}

} // verus!
