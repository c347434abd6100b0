//! What inserting and updating a row does, by the arguments of the call and what a lookup then reads.

use vstd::prelude::*;
use crate::coord::Coord;
use crate::coord_laws;
use crate::cursor::{ColumnView, CursorView};
use crate::delete_outcome;
use crate::forest;
use crate::forest_rows;
use crate::insert_laws;
use crate::insert_laws::row_cell;
use crate::insert_outcome;
use crate::lookup_laws;
use crate::node::CellView;
use crate::outcome;
use crate::outcome::{fares, is_sound};
use crate::store::{AuxRowView, Stop, StoreView};
use crate::table;
use crate::table::TableView;
use crate::value::{ArgView, ResultCode, ValueView};

verus! {

/// The coordinate that an argument gives: the number that it reads as, whatever its kind, or 0.
pub open spec fn told(arg: ArgView) -> Coord {
    match arg.real {
        Some(c) => c,
        None => Coord { bits: 0 },
    }
}

/// A value as it is stored: an error is stored as NULL.
pub open spec fn stored_as(v: ValueView) -> ValueView {
    if v == ValueView::Error {
        ValueView::Null
    } else {
        v
    }
}

/// How many arguments a row of a table has: the row id, the coordinates and the auxiliary columns.
pub open spec fn width_of(t: TableView) -> int {
    1 + t.n_dim2 + t.aux_columns.len()
}

/// The coordinates of a list are numbers, and in every dimension the first is not above the second.
pub open spec fn is_proper(coords: Seq<Coord>, n_dim2: int) -> bool {
    forall|d: int|
        0 <= d < n_dim2 / 2 ==> {
            let low = #[trigger] coords[2 * d];
            let high = coords[2 * d + 1];
            !low.is_no_number() && !high.is_no_number() && low.number() <= high.number()
        }
}

/// The coordinates that the arguments of a row give.
pub open spec fn told_box(t: TableView, args: Seq<ArgView>) -> Seq<Coord> {
    Seq::new(t.n_dim2 as nat, |k: int| told(args[k + 1]))
}

/// The row id that a row is inserted under: the one that is given, or the one behind the highest
/// counted.
pub open spec fn told_id(t: TableView, args: Seq<ArgView>) -> int {
    match args[0].integer {
        Some(id) => id as int,
        None => t.row_count + 1,
    }
}

/// The columns that a cursor gives out are those of a row.
pub open spec fn reads(
    c: CursorView,
    t: TableView,
    id: int,
    coords: Seq<Coord>,
    aux: Seq<ValueView>,
) -> bool {
    &&& !c.at_eof
    &&& c.rowid == id
    &&& c.column(0) == ColumnView::Plain(ValueView::Integer(id as i64))
    &&& forall|k: int|
        1 <= k <= t.n_dim2 ==> #[trigger] c.column(k as nat) == ColumnView::Coordinate(
            coords[k - 1],
        )
    &&& id != 0 ==> forall|k: int|
        0 <= k < aux.len() ==> c.column((t.n_dim2 + 1 + k) as nat) == ColumnView::Plain(
            #[trigger] aux[k],
        )
}

/// A box is a proper one if and only if its coordinates are numbers in order.
pub proof fn lemma_proper_boxes(t: TableView, coords: Seq<Coord>)
    ensures
        t.proper_box(coords) <==> is_proper(coords, t.n_dim2 as int),
{
    assert forall|d: int| 0 <= d < t.n_dim2 / 2 implies #[trigger] crate::rows::in_order(coords, d)
        == ({
        let low = coords[2 * d];
        let high = coords[2 * d + 1];
        !low.is_no_number() && !high.is_no_number() && low.number() <= high.number()
    }) by {
        coord_laws::lemma_coords_compare_as_numbers(coords[2 * d], coords[2 * d + 1]);
        coord_laws::lemma_coords_compare_as_numbers(coords[2 * d + 1], coords[2 * d]);
    }
    if t.proper_box(coords) {
        assert forall|d: int| 0 <= d < t.n_dim2 / 2 implies ({
            let low = #[trigger] coords[2 * d];
            let high = coords[2 * d + 1];
            !low.is_no_number() && !high.is_no_number() && low.number() <= high.number()
        }) by {
            assert(crate::rows::in_order(coords, d));
        }
    }
    if is_proper(coords, t.n_dim2 as int) {
        assert forall|d: int| 0 <= d < t.n_dim2 / 2 implies #[trigger] crate::rows::in_order(
            coords,
            d,
        ) by {
            let low = coords[2 * d];
        }
    }
}

/// The coordinates of a row are those that its arguments give.
pub(crate) proof fn lemma_row_coords(t: TableView, args: Seq<ArgView>)
    requires
        t.wf(),
    ensures
        forall|k: int|
            0 <= k < t.n_dim2 ==> #[trigger] t.row_coords(args)[k] == told_box(t, args)[k],
        t.proper_box(t.row_coords(args)) <==> is_proper(told_box(t, args), t.n_dim2 as int),
{
    lemma_proper_boxes(t, t.row_coords(args));
    let a = t.row_coords(args);
    let b = told_box(t, args);
    if is_proper(a, t.n_dim2 as int) {
        assert forall|d: int| 0 <= d < t.n_dim2 as int / 2 implies ({
            let low = #[trigger] b[2 * d];
            let high = b[2 * d + 1];
            !low.is_no_number() && !high.is_no_number() && low.number() <= high.number()
        }) by {
            let x = a[2 * d];
            assert(a[2 * d] == b[2 * d] && a[2 * d + 1] == b[2 * d + 1]);
        }
    }
    if is_proper(b, t.n_dim2 as int) {
        assert forall|d: int| 0 <= d < t.n_dim2 as int / 2 implies ({
            let low = #[trigger] a[2 * d];
            let high = a[2 * d + 1];
            !low.is_no_number() && !high.is_no_number() && low.number() <= high.number()
        }) by {
            let x = b[2 * d];
            assert(a[2 * d] == b[2 * d] && a[2 * d + 1] == b[2 * d + 1]);
        }
    }
}

/// A cursor that shows a row reads its columns.
pub(crate) proof fn lemma_shown_row_reads(
    c: CursorView,
    t: TableView,
    s: StoreView,
    cell: CellView,
    coords: Seq<Coord>,
    aux: Seq<ValueView>,
)
    requires
        crate::query_laws::shows(c, t, s, cell),
        forall|k: int| 0 <= k < t.n_dim2 ==> #[trigger] cell.coords[k] == coords[k],
        t.aux_of(s, cell.rowid) == Some(aux),
    ensures
        reads(c, t, cell.rowid as int, coords, aux),
{
    assert(c.column(0) == ColumnView::Plain(ValueView::Integer(c.rowid)));
    assert forall|k: int| 1 <= k <= t.n_dim2 implies #[trigger] c.column(k as nat)
        == ColumnView::Coordinate(coords[k - 1]) by {
        assert(cell.coords[k - 1] == coords[k - 1]);
    }
}

/// After an insertion a lookup by the row id gives back what the arguments gave: the row id that was
/// given or the one behind the highest counted, in every coordinate column the number that the
/// argument reads as, whatever the kind of its value, and in every auxiliary column the value.
pub proof fn lemma_inserted_row_is_read_back(
    t: TableView,
    s: StoreView,
    args: Seq<ArgView>,
    c: CursorView,
    key: Seq<ArgView>,
)
    requires
        t.is_tree(s),
        t.node_count <= i64::MAX - 2,
        t.row_count < i64::MAX,
        t.insert(s, args).0 is Ok,
        c.table().same_shape(t),
        key.len() > 0,
        key[0].integer == Some(told_id(t, args) as i64),
    ensures
        ({
            let (r, t2, s2) = t.insert(s, args);
            let (code, found, s3) = c.filter(s2, key, "rowid_lookup"@);
            let aux = Seq::new(
                t.aux_columns.len(),
                |k: int| stored_as(args[t.n_dim2 + 1 + k].value),
            );
            &&& args.len() >= width_of(t)
            &&& r == Ok::<i64, Stop>(told_id(t, args) as i64)
            &&& code == Ok::<ResultCode, Stop>(ResultCode::OK)
            &&& reads(found, t, told_id(t, args), told_box(t, args), aux)
            &&& forall|k: int|
                1 <= k <= t.n_dim2 ==> ((#[trigger] args[k]).real matches Some(x) ==> found.column(
                    k as nat,
                ) == ColumnView::Coordinate(x))
        }),
{
    lookup_laws::lemma_insert_then_lookup(t, s, args, c, key);
    insert_laws::lemma_insert_keeps_tree(t, s, args);
    lemma_row_coords(t, args);
    let (r, t2, s2) = t.insert(s, args);
    let (code, found, s3) = c.filter(s2, key, "rowid_lookup"@);
    let aux = Seq::new(t.aux_columns.len(), |k: int| stored_as(args[t.n_dim2 + 1 + k].value));
    assert(crate::value::owned_all(t.row_aux(args)) =~= aux);
    lemma_shown_row_reads(found, t2, s2, row_cell(t, args), told_box(t, args), aux);
    assert forall|k: int| 1 <= k <= t.n_dim2 implies ((#[trigger] args[k]).real matches Some(x)
        ==> found.column(k as nat) == ColumnView::Coordinate(x)) by {
        assert(found.column(k as nat) == ColumnView::Coordinate(told_box(t, args)[k - 1]));
    }
}

/// An insertion is refused for three reasons only: there are too few arguments, the box is not a
/// proper one, or a stored row has the row id. Otherwise it gives the row id, or it waits for
/// something that it was not told, where no read and no change fails.
pub proof fn lemma_insert_is_refused_for_cause(t: TableView, s: StoreView, args: Seq<ArgView>)
    requires
        t.is_tree(s),
        t.node_count <= i64::MAX - 2,
        t.row_count < i64::MAX,
        is_sound(t, s),
    ensures
        ({
            let (r, t2, s2) = t.insert(s, args);
            let taken = exists|c: CellView| #[trigger]
                t.rows(s).contains(c) && c.rowid == told_id(t, args);
            &&& args.len() < width_of(t) ==> r == Err::<i64, Stop>(
                Stop::Code(ResultCode::InvalidArgs),
            ) && s2 == s && t2 == t
            &&& args.len() >= width_of(t) && (!is_proper(told_box(t, args), t.n_dim2 as int)
                || taken) ==> r == Err::<i64, Stop>(Stop::Code(ResultCode::ConstraintViolation))
                && s2 == s
            &&& args.len() >= width_of(t) && is_proper(told_box(t, args), t.n_dim2 as int)
                && !taken ==> fares(t, s, r, s2) && (r matches Ok(id) ==> id == told_id(t, args))
        }),
{
    if args.len() >= width_of(t) {
        lemma_row_coords(t, args);
        if t.proper_box(t.row_coords(args)) {
            if exists|c: CellView| #[trigger]
                t.rows(s).contains(c) && c.rowid == told_id(t, args) {
                let c = choose|c: CellView| #[trigger]
                    t.rows(s).contains(c) && c.rowid == told_id(t, args);
                lookup_laws::lemma_stored_rowid_is_taken(t, s, args, c);
            } else {
                insert_outcome::lemma_insert_ends_well(t, s, args);
            }
        }
    }
}

/// Without a connection no row is inserted, updated or deleted.
pub proof fn lemma_nothing_without_connection(
    t: TableView,
    s: StoreView,
    rowid: i64,
    args: Seq<ArgView>,
)
    requires
        !s.connected,
    ensures
        t.insert(s, args) == (Err::<i64, Stop>(Stop::Code(ResultCode::InvalidArgs)), t, s),
        t.update(s, rowid, args) == (Err::<(), Stop>(Stop::Code(ResultCode::InvalidArgs)), t, s),
        t.delete(s, rowid) == (Err::<(), Stop>(Stop::Code(ResultCode::InvalidArgs)), t, s),
        t.destroy(s) == (Ok::<(), Stop>(()), s),
{
}

/// The row that is to be updated is the stored one with this row id, or none is stored.
pub open spec fn is_stored(t: TableView, s: StoreView, rowid: i64, old_row: Option<CellView>) -> bool {
    match old_row {
        Some(cell) => t.rows(s).contains(cell) && cell.rowid == rowid,
        None => forall|cell: CellView| #[trigger] t.rows(s).contains(cell) ==> cell.rowid != rowid,
    }
}

/// The argument leaves a column of the stored row as it is.
pub open spec fn leaves(arg: ArgView, old_row: Option<CellView>) -> bool {
    arg.value == ValueView::Null && old_row is Some
}

/// The coordinates of a row after an update: the stored one for each NULL, else what is given.
pub open spec fn wanted_box(t: TableView, args: Seq<ArgView>, old_row: Option<CellView>) -> Seq<
    Coord,
> {
    Seq::new(
        t.n_dim2 as nat,
        |k: int|
            if leaves(args[k + 1], old_row) {
                old_row->0.coords[k]
            } else {
                told(args[k + 1])
            },
    )
}

/// The auxiliary columns of a row after an update: the stored one for each NULL, else what is given.
pub open spec fn wanted_aux(
    t: TableView,
    s: StoreView,
    args: Seq<ArgView>,
    old_row: Option<CellView>,
) -> Seq<ValueView> {
    Seq::new(
        t.aux_columns.len(),
        |k: int|
            if leaves(args[t.n_dim2 + 1 + k], old_row) {
                t.aux_of(s, old_row->0.rowid)->0[k]
            } else {
                stored_as(args[t.n_dim2 + 1 + k].value)
            },
    )
}

/// The row id of a row after an update: the old one for NULL, else the one that is given. None is
/// given where the argument does not read as an integer.
pub open spec fn wanted_id(args: Seq<ArgView>, old_row: Option<CellView>) -> Option<i64> {
    if leaves(args[0], old_row) {
        Some(old_row->0.rowid)
    } else {
        args[0].integer
    }
}

/// What is known of the auxiliary columns of a stored row is not that they are missing.
pub open spec fn has_aux(s: StoreView, rowid: i64) -> bool {
    s.aux.contains_key(rowid) ==> s.aux[rowid] is Values
}

/// Reading the stored row gives the row that is stored.
proof fn lemma_stored_row(t: TableView, s: StoreView, rowid: i64, old_row: Option<CellView>)
    requires
        t.is_tree(s),
        is_sound(t, s),
        is_stored(t, s, rowid, old_row),
        has_aux(s, rowid),
    ensures
        ({
            let (r, s1) = t.stored_row(s, rowid);
            &&& fares(t, s, r, s1)
            &&& r is Ok ==> s1 == s
            &&& r matches Ok(found) ==> match old_row {
                None => found is None,
                Some(cell) => found matches Some((held, aux)) && held == cell && t.aux_of(s, rowid)
                    == Some(aux) && aux.len() == t.aux_columns.len(),
            }
        }),
{
    let f = t.forest(s);
    outcome::lemma_goes_nowhere(s);
    outcome::lemma_home_fares(t, s, rowid);
    t.lemma_read_home(s, rowid);
    if let Ok(Some(n)) = t.get_rowid_nodeno(s, rowid).0 {
        assert(t.node_count != 0);
        forest_rows::lemma_rows_by_id(f, t.n_dim2 as nat, t.node_count, rowid);
        f.lemma_numbered(t.n_dim2 as nat, t.node_count, forest::Open::nothing());
        let cells = f.pages[n];
        let i = forest::lemma_place(cells, rowid);
        assert(f.holds(cells[i]));
        assert(t.rows(s).contains(cells[i]));
        table::lemma_found_by_rowid(cells, rowid);
        let idx = table::index_of_rowid(cells, rowid)->0;
        assert(f.holds(cells[idx]));
        if let Some(cell) = old_row {
            assert(f.holds(cell));
        }
        outcome::lemma_node_fares(t, s, n);
        t.lemma_read(s, n);
        outcome::lemma_aux_fares(t, s, rowid);
    } else if let Ok(None) = t.get_rowid_nodeno(s, rowid).0 {
        if let Some(cell) = old_row {
            assert(f.holds(cell));
            assert(t.node_count != 0);
            forest_rows::lemma_rows_by_id(f, t.n_dim2 as nat, t.node_count, rowid);
        }
    }
}

/// The arguments that an update inserts: what is stored in place of each NULL.
#[verifier::rlimit(30)]
pub(crate) proof fn lemma_update_args(
    t: TableView,
    s: StoreView,
    rowid: i64,
    args: Seq<ArgView>,
    old_row: Option<CellView>,
)
    requires
        t.is_tree(s),
        is_sound(t, s),
        is_stored(t, s, rowid, old_row),
        has_aux(s, rowid),
        args.len() >= width_of(t),
    ensures
        ({
            let (r, s1) = t.update_args(s, rowid, args);
            &&& fares(t, s, r, s1)
            &&& r is Ok ==> s1 == s
            &&& r matches Ok(row) ==> {
                &&& row.len() == args.len()
                &&& told_box(t, row) == wanted_box(t, args, old_row)
                &&& row[0].integer == wanted_id(args, old_row)
                &&& crate::value::owned_all(t.row_aux(row)) == wanted_aux(t, s, args, old_row)
            }
        }),
{
    outcome::lemma_goes_nowhere(s);
    lemma_stored_row(t, s, rowid, old_row);
    let (r, s1) = t.update_args(s, rowid, args);
    if let Ok(row) = r {
        if !t.has_placeholder(args) {
            assert(row == args);
            assert forall|i: int| 0 <= i < width_of(t) implies !(#[trigger] args[i].value is Null) by {}
            assert(!(args[0].value is Null));
            assert forall|k: int| 0 <= k < t.n_dim2 implies told_box(t, row)[k] == wanted_box(
                t,
                args,
                old_row,
            )[k] by {
                assert(!(args[k + 1].value is Null));
            }
            assert forall|k: int| 0 <= k < t.aux_columns.len() implies crate::value::owned_all(
                t.row_aux(row),
            )[k] == wanted_aux(t, s, args, old_row)[k] by {
                assert(!(args[t.n_dim2 + 1 + k].value is Null));
            }
        } else {
            let stored = t.stored_row(s, rowid).0->Ok_0;
            assert(row == t.merged(args, rowid, stored));
            if let Some((held, aux)) = stored {
                assert forall|i: int| 0 <= i < args.len() implies row[i] == t.merged_arg(
                    #[trigger] args[i],
                    rowid,
                    held,
                    aux,
                    i,
                ) by {}
                assert(row[0] == t.merged_arg(args[0], rowid, held, aux, 0));
                assert forall|k: int| 0 <= k < t.n_dim2 implies told_box(t, row)[k] == wanted_box(
                    t,
                    args,
                    old_row,
                )[k] by {
                    assert(row[k + 1] == t.merged_arg(args[k + 1], rowid, held, aux, k + 1));
                }
                assert forall|k: int| 0 <= k < t.aux_columns.len() implies crate::value::owned_all(
                    t.row_aux(row),
                )[k] == wanted_aux(t, s, args, old_row)[k] by {
                    let i = t.n_dim2 + 1 + k;
                    assert(row[i] == t.merged_arg(args[i], rowid, held, aux, i));
                    lemma_aux_is_kept(t, s, rowid, k);
                }
            }
        }
        assert(told_box(t, row) =~= wanted_box(t, args, old_row));
        assert(crate::value::owned_all(t.row_aux(row)) =~= wanted_aux(t, s, args, old_row));
    }
}

/// Auxiliary columns that are known are no errors.
proof fn lemma_aux_is_kept(t: TableView, s: StoreView, rowid: i64, k: int)
    requires
        t.aux_of(s, rowid) is Some,
        0 <= k < t.aux_columns.len(),
    ensures
        stored_as(t.aux_of(s, rowid)->0[k]) == t.aux_of(s, rowid)->0[k],
{
    if let AuxRowView::Values(values) = s.aux[rowid] {
        assert(crate::value::owned_all(values.take(t.aux_columns.len() as int))[k]
            == values.take(t.aux_columns.len() as int)[k].owned());
    }
}

/// An update is refused for three reasons only: there are too few arguments, the new box is not a
/// proper one, or a stored third row has the new row id. Nothing is changed then. Otherwise it ends
/// well, or it waits for something that it was not told, where no read and no change fails.
pub proof fn lemma_update_is_refused_for_cause(
    t: TableView,
    s: StoreView,
    rowid: i64,
    args: Seq<ArgView>,
    old_row: Option<CellView>,
)
    requires
        t.is_tree(s),
        t.numbers_left((2 * t.max_cells()) as int),
        is_sound(t, s),
        is_stored(t, s, rowid, old_row),
        has_aux(s, rowid),
        args.len() >= width_of(t) ==> wanted_id(args, old_row) is Some,
    ensures
        ({
            let (r, t2, s2) = t.update(s, rowid, args);
            let id = wanted_id(args, old_row)->0;
            let proper = is_proper(wanted_box(t, args, old_row), t.n_dim2 as int);
            let taken = id != rowid && exists|c: CellView| #[trigger]
                t.rows(s).contains(c) && c.rowid == id;
            &&& args.len() < width_of(t) ==> r == Err::<(), Stop>(
                Stop::Code(ResultCode::InvalidArgs),
            ) && t2 == t && s2 == s
            &&& args.len() >= width_of(t) && proper && !taken ==> fares(t, s, r, s2)
            &&& args.len() >= width_of(t) && (!proper || taken) ==> {
                &&& r is Err
                &&& t2 == t
                &&& r == Err::<(), Stop>(Stop::Code(ResultCode::ConstraintViolation)) && s2 == s
                    || r == Err::<(), Stop>(Stop::Wait) && outcome::lacks(s2)
            }
        }),
{
    if args.len() >= width_of(t) {
        let f = t.forest(s);
        let id = wanted_id(args, old_row)->0;
        lemma_update_args(t, s, rowid, args, old_row);
        let (ra, sa) = t.update_args(s, rowid, args);
        if let Ok(row) = ra {
            lemma_row_coords(t, row);
            assert(t.assigned_rowid(row) == id);
            outcome::lemma_home_fares(t, s, id);
            t.lemma_read_home(s, id);
            if f.home.contains_key(id) {
                assert(t.node_count != 0);
                forest_rows::lemma_rows_by_id(f, t.n_dim2 as nat, t.node_count, id);
                let cells = f.pages[f.home[id]];
                let i = forest::lemma_place(cells, id);
                assert(f.holds(cells[i]));
                assert(t.rows(s).contains(cells[i]));
            }
            if exists|c: CellView| #[trigger] t.rows(s).contains(c) && c.rowid == id {
                let c = choose|c: CellView| #[trigger] t.rows(s).contains(c) && c.rowid == id;
                assert(f.holds(c));
                assert(t.node_count != 0);
                forest_rows::lemma_rows_by_id(f, t.n_dim2 as nat, t.node_count, id);
            }
            outcome::lemma_goes_nowhere(s);
            if t.check_update(s, rowid, row).0 is Ok {
                delete_outcome::lemma_update_ends_well(t, s, rowid, args);
            }
        }
    }
}

/// After an update a lookup by the new row id gives back what the arguments gave, and what was stored
/// before in place of each NULL; the stored rows are those from before without the old one, and the
/// new one.
pub proof fn lemma_updated_row_is_read_back(
    t: TableView,
    s: StoreView,
    rowid: i64,
    args: Seq<ArgView>,
    old_row: Option<CellView>,
    c: CursorView,
    key: Seq<ArgView>,
)
    requires
        t.is_tree(s),
        t.numbers_left((2 * t.max_cells()) as int),
        is_sound(t, s),
        is_stored(t, s, rowid, old_row),
        has_aux(s, rowid),
        t.update(s, rowid, args).0 is Ok,
        wanted_id(args, old_row) is Some,
        c.table().same_shape(t),
        key.len() > 0,
        key[0].integer == wanted_id(args, old_row),
    ensures
        ({
            let (r, t2, s2) = t.update(s, rowid, args);
            let (code, found, s3) = c.filter(s2, key, "rowid_lookup"@);
            let id = wanted_id(args, old_row)->0;
            &&& args.len() >= width_of(t)
            &&& code == Ok::<ResultCode, Stop>(ResultCode::OK)
            &&& reads(
                found,
                t,
                id as int,
                wanted_box(t, args, old_row),
                wanted_aux(t, s, args, old_row),
            )
            &&& t2.is_tree(s2)
            &&& forall|row: CellView| #[trigger]
                t2.rows(s2).contains(row) && row.rowid != id ==> t.rows(s).contains(row)
                    && row.rowid != rowid
            &&& forall|row: CellView| #[trigger]
                t.rows(s).contains(row) && row.rowid != rowid ==> t2.rows(s2).contains(row)
        }),
{
    lemma_update_args(t, s, rowid, args, old_row);
    let (r, t2, s2) = t.update(s, rowid, args);
    let row = t.update_args(s, rowid, args).0->Ok_0;
    let cell = lookup_laws::updated_row(t, s, rowid, args);
    assert(t.check_update(s, rowid, row).1 == s);
    assert(cell.rowid == wanted_id(args, old_row)->0);
    lookup_laws::lemma_update_then_lookup(t, s, rowid, args, c, key);
    lookup_laws::lemma_update_keeps_tree(t, s, rowid, args);
    let (code, found, s3) = c.filter(s2, key, "rowid_lookup"@);
    lemma_row_coords(t, row);
    let coords = wanted_box(t, args, old_row);
    assert forall|k: int| 0 <= k < t2.n_dim2 implies #[trigger] cell.coords[k] == coords[k] by {
        assert(t.row_coords(row)[k] == told_box(t, row)[k]);
    }
    lemma_shown_row_reads(found, t2, s2, cell, coords, wanted_aux(t, s, args, old_row));
}

/// An update whose new box is a proper one, and whose new row id is the old one or that of no stored
/// row, succeeds as soon as it is told all that it asks for, where no read and no change fails.
pub proof fn lemma_update_succeeds(
    t: TableView,
    s: StoreView,
    rowid: i64,
    args: Seq<ArgView>,
    old_row: Option<CellView>,
)
    requires
        t.is_tree(s),
        t.numbers_left((2 * t.max_cells()) as int),
        is_sound(t, s),
        is_stored(t, s, rowid, old_row),
        has_aux(s, rowid),
        args.len() >= width_of(t),
        wanted_id(args, old_row) is Some,
        is_proper(wanted_box(t, args, old_row), t.n_dim2 as int),
        wanted_id(args, old_row)->0 == rowid || forall|c: CellView| #[trigger]
            t.rows(s).contains(c) ==> c.rowid != wanted_id(args, old_row)->0,
        !outcome::lacks(t.update(s, rowid, args).2),
    ensures
        t.update(s, rowid, args).0 == Ok::<(), Stop>(()),
{
    lemma_update_is_refused_for_cause(t, s, rowid, args, old_row);
}

} // verus!
