//! The row ids that rows get that bring none: no stored row has them.

use vstd::prelude::*;
use crate::cursor::CursorView;
use crate::delete_outcome;
use crate::insert_laws;
use crate::insert_outcome;
use crate::lookup_laws;
use crate::node::CellView;
use crate::outcome;
use crate::outcome::{fares, is_sound};
use crate::removal_laws;
use crate::row_laws;
use crate::row_laws::{
    has_aux, is_proper, is_stored, reads, told_id, wanted_aux, wanted_box, wanted_id, width_of,
};
use crate::store::{Stop, StoreView};
use crate::table::TableView;
use crate::value::{ArgView, ResultCode};

verus! {

/// No stored row has a row id above the highest counted.
pub open spec fn is_counted(t: TableView, s: StoreView) -> bool {
    forall|c: CellView| #[trigger] t.rows(s).contains(c) ==> c.rowid <= t.row_count
}

/// Inserting and deleting rows keeps every stored row id counted. A deletion counts none less and none
/// more, so that no row id is given out a second time.
pub proof fn lemma_rows_stay_counted(t: TableView, s: StoreView, args: Seq<ArgView>, rowid: i64)
    requires
        t.is_tree(s),
        t.numbers_left((2 * t.max_cells()) as int),
        t.row_count < i64::MAX,
        is_counted(t, s),
    ensures
        t.insert(s, args) matches (Ok(id), t2, s2) ==> is_counted(t2, s2) && id <= t2.row_count
            && t.row_count <= t2.row_count && (args[0].integer is None ==> id == t.row_count + 1),
        t.delete(s, rowid) matches (Ok(()), t2, s2) ==> is_counted(t2, s2) && t2.row_count
            == t.row_count,
{
    insert_laws::lemma_insert_keeps_tree(t, s, args);
    removal_laws::lemma_delete_keeps_tree(t, s, rowid);
}

/// A row without a row id is inserted under one that no stored row has, so that it is refused only for
/// its box.
pub proof fn lemma_insert_without_rowid(t: TableView, s: StoreView, args: Seq<ArgView>)
    requires
        t.is_tree(s),
        t.node_count <= i64::MAX - 2,
        t.row_count < i64::MAX,
        is_sound(t, s),
        is_counted(t, s),
        args.len() >= width_of(t),
        args[0].integer is None,
    ensures
        ({
            let (r, t2, s2) = t.insert(s, args);
            if is_proper(row_laws::told_box(t, args), t.n_dim2 as int) {
                fares(t, s, r, s2) && (r matches Ok(id) ==> id == t.row_count + 1)
            } else {
                r == Err::<i64, Stop>(Stop::Code(ResultCode::ConstraintViolation)) && s2 == s
            }
        }),
{
    row_laws::lemma_insert_is_refused_for_cause(t, s, args);
    assert(told_id(t, args) == t.row_count + 1);
}

/// Behind the highest row id comes the lowest.
pub proof fn lemma_row_ids_start_again(t: TableView, s: StoreView, args: Seq<ArgView>)
    requires
        t.is_tree(s),
        t.node_count <= i64::MAX - 2,
        t.row_count == i64::MAX,
        args.len() > 0,
        args[0].integer is None,
    ensures
        t.insert(s, args) matches (Ok(id), t2, s2) ==> id == i64::MIN && t2.row_count == i64::MIN,
{
    insert_laws::lemma_insert_keeps_tree(t, s, args);
}

/// An update to a row without a row id gives it the one behind the highest counted, which no stored row
/// has. It is refused only for its box; otherwise it ends well, or it waits for something that it was
/// not told, where no read and no change fails.
pub proof fn lemma_update_without_rowid(
    t: TableView,
    s: StoreView,
    rowid: i64,
    args: Seq<ArgView>,
    old_row: Option<CellView>,
)
    requires
        t.is_tree(s),
        t.numbers_left((2 * t.max_cells()) as int),
        t.row_count < i64::MAX,
        is_sound(t, s),
        is_counted(t, s),
        is_stored(t, s, rowid, old_row),
        has_aux(s, rowid),
        args.len() >= width_of(t),
        wanted_id(args, old_row) is None,
    ensures
        ({
            let (r, t2, s2) = t.update(s, rowid, args);
            let proper = is_proper(wanted_box(t, args, old_row), t.n_dim2 as int);
            &&& proper ==> fares(t, s, r, s2)
            &&& !proper ==> {
                &&& r is Err
                &&& t2 == t
                &&& r == Err::<(), Stop>(Stop::Code(ResultCode::ConstraintViolation)) && s2 == s
                    || r == Err::<(), Stop>(Stop::Wait) && outcome::lacks(s2)
            }
        }),
{
    outcome::lemma_goes_nowhere(s);
    row_laws::lemma_update_args(t, s, rowid, args, old_row);
    let (ra, sa) = t.update_args(s, rowid, args);
    if let Ok(row) = ra {
        row_laws::lemma_row_coords(t, row);
        let id = t.assigned_rowid(row);
        assert(id == t.row_count + 1);
        outcome::lemma_home_fares(t, s, id);
        t.lemma_read_home(s, id);
        let f = t.forest(s);
        if f.home.contains_key(id) {
            assert(t.node_count != 0);
            crate::forest_rows::lemma_rows_by_id(f, t.n_dim2 as nat, t.node_count, id);
            let cells = f.pages[f.home[id]];
            let i = crate::forest::lemma_place(cells, id);
            assert(f.holds(cells[i]));
            assert(t.rows(s).contains(cells[i]));
        }
        if t.check_update(s, rowid, row).0 is Ok {
            delete_outcome::lemma_delete_ends_well(t, s, rowid);
            let (r3, t3, s3) = t.delete(s, rowid);
            if r3 is Ok {
                removal_laws::lemma_delete_keeps_tree(t, s, rowid);
                outcome::lemma_sound_by_shape(t, t3, s3);
                assert(t3.row_coords(row) =~= t.row_coords(row));
                assert(t3.assigned_rowid(row) == id);
                insert_outcome::lemma_insert_ends_well(t3, s3, row);
                let (r4, t4, s4) = t3.insert(s3, row);
                outcome::lemma_sound_by_shape(t, t3, s4);
                outcome::lemma_then(t, s, s3, r4, s4);
            }
        }
    }
}

/// After an update to a row without a row id, a lookup by the row id behind the highest counted before
/// gives back what the arguments gave, and what was stored before in place of each NULL.
pub proof fn lemma_update_without_rowid_is_read_back(
    t: TableView,
    s: StoreView,
    rowid: i64,
    args: Seq<ArgView>,
    old_row: Option<CellView>,
    c: CursorView,
    key: Seq<ArgView>,
)
    requires
        t.is_tree(s),
        t.numbers_left((2 * t.max_cells()) as int),
        t.row_count < i64::MAX,
        is_sound(t, s),
        is_counted(t, s),
        is_stored(t, s, rowid, old_row),
        has_aux(s, rowid),
        t.update(s, rowid, args).0 is Ok,
        wanted_id(args, old_row) is None,
        c.table().same_shape(t),
        key.len() > 0,
        key[0].integer == Some((t.row_count + 1) as i64),
    ensures
        ({
            let (r, t2, s2) = t.update(s, rowid, args);
            let (code, found, s3) = c.filter(s2, key, "rowid_lookup"@);
            &&& code == Ok::<ResultCode, Stop>(ResultCode::OK)
            &&& reads(
                found,
                t,
                t.row_count + 1,
                wanted_box(t, args, old_row),
                wanted_aux(t, s, args, old_row),
            )
            &&& is_counted(t2, s2)
        }),
{
    row_laws::lemma_update_args(t, s, rowid, args, old_row);
    let (r, t2, s2) = t.update(s, rowid, args);
    let row = t.update_args(s, rowid, args).0->Ok_0;
    assert(t.check_update(s, rowid, row).1 == s);
    removal_laws::lemma_delete_keeps_tree(t, s, rowid);
    let (r3, t3, s3) = t.delete(s, rowid);
    insert_laws::lemma_insert_keeps_tree(t3, s3, row);
    let cell = lookup_laws::updated_row(t, s, rowid, args);
    assert(cell.rowid == t.row_count + 1);
    lookup_laws::lemma_update_then_lookup(t, s, rowid, args, c, key);
    lookup_laws::lemma_update_keeps_tree(t, s, rowid, args);
    let (code, found, s4) = c.filter(s2, key, "rowid_lookup"@);
    row_laws::lemma_row_coords(t, row);
    let coords = wanted_box(t, args, old_row);
    assert forall|k: int| 0 <= k < t2.n_dim2 implies #[trigger] cell.coords[k] == coords[k] by {
        assert(t.row_coords(row)[k] == row_laws::told_box(t, row)[k]);
    }
    row_laws::lemma_shown_row_reads(found, t2, s2, cell, coords, wanted_aux(t, s, args, old_row));
}

} // verus!
