//! When operations succeed: on a tree whose root is a leaf, everything that they read is in the
//! root, and they end well as soon as the changes that they ask for are made.

use vstd::prelude::*;
use crate::bytes;
use crate::node;
use crate::node::{CellView, NodeView};
use crate::page_laws;
use crate::store::{NodeRowView, NumberRow, Stop, StoreView, WriteView};
use crate::table;
use crate::table::TableView;
use crate::tree_delete::DetachedView;
use crate::value;
use crate::value::{ArgView, ValueView};

verus! {

/// The next `k` changes succeed.
pub open spec fn changes_succeed(s: StoreView, k: nat) -> bool {
    &&& s.log.len() + k <= s.acks.len()
    &&& forall|i: int| s.log.len() <= i < s.log.len() + k ==> #[trigger] s.acks[i]
}

/// The root is known and is a leaf: the tree has no level below it.
pub open spec fn root_is_leaf(t: TableView, s: StoreView) -> bool {
    &&& s.nodes.contains_key(1)
    &&& s.nodes[1] matches NodeRowView::Blob(data) && node::page_depth(
        bytes::fitted(data, t.node_size as nat),
    ) == 0
}

/// The cells of the root.
pub open spec fn root_cells(t: TableView, s: StoreView) -> Seq<CellView> {
    t.cells(bytes::fitted(s.nodes[1]->Blob_0, t.node_size as nat))
}

/// A change that is to succeed does.
proof fn lemma_change_succeeds(s: StoreView, w: WriteView, k: nat)
    requires
        k > 0,
        changes_succeed(s, k),
    ensures
        s.issue(w).0 is Ok,
        changes_succeed(s.issue(w).1, (k - 1) as nat),
        s.issue(w).1 == (StoreView { log: s.log.push(w), ..s }).applied(w),
{
    assert(s.acks[s.log.len() as int]);
}

/// The leaf that is chosen in a tree without inner levels is the root.
proof fn lemma_root_is_chosen(t: TableView, s: StoreView)
    requires
        t.wf(),
        s.connected,
        root_is_leaf(t, s),
    ensures
        t.choose_leaf(s, t.n_dim2 as nat) == (
            Ok::<Option<NodeView>, Stop>(Some(t.node_from(1, s.nodes[1]->Blob_0))),
            s,
        ),
{
    reveal(TableView::choose_leaf);
    reveal(TableView::reach_leaf);
    let root = t.node_from(1, s.nodes[1]->Blob_0);
    assert(root.tree_depth() == 0);
}

/// Putting a cell into a root with room succeeds when two changes do.
proof fn lemma_root_insertion_succeeds(
    t: TableView,
    s: StoreView,
    rowid: i64,
    cell: CellView,
    aux: Seq<ValueView>,
)
    requires
        t.wf(),
        s.wf(t),
        s.connected,
        t.node_count != 0,
        root_is_leaf(t, s),
        root_cells(t, s).len() < t.max_cells(),
        aux.len() == t.aux_columns.len(),
        changes_succeed(s, 2),
    ensures
        ({
            let (r, t2, s2) = t.insert_leaf_row(s, rowid, cell, aux);
            &&& r is Ok
            &&& t2.same_shape(t)
            &&& t2.node_count == t.node_count
            &&& s2.wf(t2)
            &&& s2.connected
            &&& s2.acks == s.acks
            &&& s2.log.len() == s.log.len() + 2
            &&& root_is_leaf(t2, s2)
            &&& root_cells(t2, s2) == root_cells(t, s).push(cell.kept(t.n_dim2 as nat))
            &&& s2.rowids == s.rowids.insert(rowid, NumberRow::Number(1))
        }),
{
    let t1 = TableView {
        row_count: if rowid > t.row_count {
            rowid
        } else {
            t.row_count
        },
        ..t
    };
    lemma_root_is_chosen(t1, s);
    let root = t1.node_from(1, s.nodes[1]->Blob_0);
    assert(StoreView::sound_page(t, 1, s.nodes[1]));
    reveal(TableView::place_in_leaf);
    let count = node::page_count(root.data);
    let data = root.placed(
        t1.n_dim2 as nat,
        t1.n_bytes_per_cell as nat,
        count as int,
        cell,
    ).counted(count + 1).data;
    let w = WriteView::Node { nodeno: 1, data };
    t1.lemma_append_holds(root.data, cell);
    t1.lemma_slot_inside(count as int);
    t1.lemma_room();
    page_laws::lemma_append_cell(root.data, t.n_dim2 as nat, t.n_bytes_per_cell as nat, cell);
    t1.lemma_sound_page(1, data);
    t.lemma_wf_by_shape(t1, s);
    t1.lemma_issue_wf(s, w);
    lemma_change_succeeds(s, w, 2);
    let s4 = s.issue(w).1;
    assert(t1.place_in_leaf(s, Some(root), cell) == (Ok::<i64, Stop>(1i64), t1, s4));
    reveal(TableView::adjust);
    assert(t1.get_parent_nodeno(s4, 1) == (Ok::<Option<i64>, Stop>(None), s4));
    assert(t1.adjust(s4, 1, 0) == (Ok::<(), Stop>(()), s4));
    lemma_change_succeeds(
        s4,
        WriteView::Rowid { rowid, nodeno: 1, aux: value::owned_all(aux) },
        1,
    );
}

/// A new row with a proper box is inserted into a root with room, given that the two changes that
/// it takes succeed.
pub proof fn lemma_insert_into_root_succeeds(t: TableView, s: StoreView, args: Seq<ArgView>)
    requires
        t.wf(),
        s.wf(t),
        s.connected,
        t.node_count != 0,
        root_is_leaf(t, s),
        root_cells(t, s).len() < t.max_cells(),
        args.len() >= t.row_width(),
        t.proper_box(t.row_coords(args)),
        s.rowids.contains_key(t.assigned_rowid(args)),
        s.rowids[t.assigned_rowid(args)] == NumberRow::Missing,
        changes_succeed(s, 2),
    ensures
        ({
            let (r, t2, s2) = t.insert(s, args);
            let cell = CellView { rowid: t.assigned_rowid(args), coords: t.row_coords(args) };
            &&& r == Ok::<i64, Stop>(t.assigned_rowid(args))
            &&& t2.wf()
            &&& t2.same_shape(t)
            &&& t2.node_count == t.node_count
            &&& s2.wf(t2)
            &&& s2.connected
            &&& s2.acks == s.acks
            &&& s2.log.len() == s.log.len() + 2
            &&& root_is_leaf(t2, s2)
            &&& root_cells(t2, s2) == root_cells(t, s).push(cell)
            &&& s2.rowids == s.rowids.insert(cell.rowid, NumberRow::Number(1))
        }),
{
    let t1 = t.counted_in(args);
    let cell = CellView { rowid: t.assigned_rowid(args), coords: t.row_coords(args) };
    t.lemma_wf_by_shape(t1, s);
    lemma_root_insertion_succeeds(t1, s, cell.rowid, cell, t.row_aux(args));
    assert(cell.kept(t.n_dim2 as nat).coords =~= cell.coords);
}

/// The first row with a proper box is inserted, given that the six changes that it takes succeed:
/// three to create the shadow tables, and three to write the empty root, the row and its entry.
pub proof fn lemma_first_insert_succeeds(t: TableView, s: StoreView, args: Seq<ArgView>)
    requires
        t.wf(),
        s.wf(t),
        s.connected,
        t.node_count == 0,
        args.len() >= t.row_width(),
        t.proper_box(t.row_coords(args)),
        changes_succeed(s, 6),
    ensures
        t.insert(s, args).0 == Ok::<i64, Stop>(t.assigned_rowid(args)),
{
    let rowid = t.assigned_rowid(args);
    let t1 = t.counted_in(args);
    let t0 = TableView {
        row_count: if rowid > t1.row_count {
            rowid
        } else {
            t1.row_count
        },
        ..t1
    };
    let cell = CellView { rowid, coords: t.row_coords(args) };
    let aux = t.row_aux(args);
    t.lemma_wf_by_shape(t0, s);
    lemma_creation_succeeds(t0, s);
    let (created, t2, s2) = t0.create_shadow_tables(s);
    t0.lemma_wf_by_shape(t2, s2);
    t2.lemma_room();
    lemma_root_insertion_succeeds(t2, s2, rowid, cell, aux);
    assert(t2.row_count == t0.row_count);
    assert(t1.insert_leaf_row(s, rowid, cell, aux) == t2.insert_leaf_row(s2, rowid, cell, aux));
}

/// Creating the shadow tables takes four of six changes that succeed, and leaves an empty root.
proof fn lemma_creation_succeeds(t: TableView, s: StoreView)
    requires
        t.wf(),
        s.wf(t),
        changes_succeed(s, 6),
    ensures
        ({
            let (created, t2, s2) = t.create_shadow_tables(s);
            &&& created is Ok
            &&& s2.wf(t)
            &&& s2.connected == s.connected
            &&& root_is_leaf(t, s2)
            &&& root_cells(t, s2).len() == 0
            &&& changes_succeed(s2, 2)
            &&& t2 == (TableView { node_count: 1, depth: 0, ..t })
        }),
{
    let page = node::with_depth(node::empty_page(t.node_size as nat), 0);
    let ws = seq![
        WriteView::CreateNodeTable,
        WriteView::CreateRowidTable,
        WriteView::CreateParentTable,
        WriteView::Node { nodeno: 1, data: page },
    ];
    let w1 = ws.drop_first();
    let w2 = w1.drop_first();
    let w3 = w2.drop_first();
    lemma_change_succeeds(s, ws[0], 6);
    let s1 = s.issue(ws[0]).1;
    lemma_change_succeeds(s1, w1[0], 5);
    let s2 = s1.issue(w1[0]).1;
    lemma_change_succeeds(s2, w2[0], 4);
    let s3 = s2.issue(w2[0]).1;
    lemma_change_succeeds(s3, w3[0], 3);
    let s4 = s3.issue(w3[0]).1;
    assert(s.issue_all(ws) == s1.issue_all(w1));
    assert(s1.issue_all(w1) == s2.issue_all(w2));
    assert(s2.issue_all(w2) == s3.issue_all(w3));
    assert(w3.drop_first().len() == 0);
    assert(s3.issue_all(w3) == s4.issue_all(w3.drop_first()));
    assert(s4.issue_all(w3.drop_first()) == (Ok::<(), Stop>(()), s4));
    t.lemma_room();
    t.lemma_fresh_holds(1, 0);
    t.lemma_sound_page(1, page);
    t.lemma_issue_all_wf(s, ws);
    assert(t.create_shadow_tables(s).2 == s4);
    assert(bytes::fitted(page, t.node_size as nat) =~= page);
}

/// A row in a root that is a leaf is deleted, given that the changes that it takes succeed: the root
/// without the row, the entry of the row, and, where the root becomes empty, the emptied root.
pub proof fn lemma_delete_from_root_succeeds(t: TableView, s: StoreView, rowid: i64)
    requires
        t.wf(),
        s.wf(t),
        s.connected,
        root_is_leaf(t, s),
        s.rowids.contains_key(rowid),
        s.rowids[rowid] == NumberRow::Number(1),
        table::index_of_rowid(root_cells(t, s), rowid) is Some,
        changes_succeed(s, 3),
    ensures
        ({
            let (r, t2, s2) = t.delete(s, rowid);
            let cells = root_cells(t, s);
            &&& r is Ok
            &&& t2.same_shape(t)
            &&& t2.node_count == t.node_count
            &&& root_is_leaf(t2, s2)
            &&& root_cells(t2, s2) == cells.remove(table::index_of_rowid(cells, rowid)->0)
            &&& s2.rowids == s.rowids.insert(rowid, NumberRow::Missing)
        }),
{
    let n = t.node_from(1, s.nodes[1]->Blob_0);
    assert(t.read_node(s, 1) == (Ok::<Option<NodeView>, Stop>(Some(n)), s));
    assert(StoreView::sound_page(t, 1, s.nodes[1]));
    let cells = t.cells(n.data);
    table::lemma_found_by_rowid(cells, rowid);
    let idx = table::index_of_rowid(cells, rowid)->0;
    let data = node::without_cell(n.data, t.n_bytes_per_cell as nat, idx);
    t.lemma_room();
    t.lemma_without_holds(n.data, idx);
    page_laws::lemma_delete_cell(n.data, t.n_dim2 as nat, t.n_bytes_per_cell as nat, idx);
    t.lemma_sound_page(1, data);
    let w = WriteView::Node { nodeno: 1, data };
    lemma_change_succeeds(s, w, 3);
    let s3 = s.issue(w).1;
    assert(s3.nodes[1] == NodeRowView::Blob(data));
    lemma_root_fix_succeeds(t, s3, data);
    reveal(TableView::take_out);
    let (r1, t1, s1, p1) = t.take_out(s, rowid);
    assert(t.take_out(s, rowid) == t.fix(s3, 1, 0, Seq::empty(), 0));
    let d = WriteView::DeleteRowid { rowid };
    lemma_change_succeeds(s1, d, 1);
    let s2 = s1.issue(d).1;
    lemma_root_stays(t1, s2, p1);
    reveal(TableView::unlink);
    reveal(TableView::reinsert_all);
    assert(t.unlink(s, rowid) == (Ok::<(), Stop>(()), t1, s2, p1));
    t.lemma_sound_page(1, s2.nodes[1]->Blob_0);
}

/// Inserting a new row into a root that is a leaf with room, and deleting it again, gives the cells
/// of the root and the map of the row ids back as they were, given that the changes succeed.
pub proof fn lemma_delete_undoes_insert(t: TableView, s: StoreView, args: Seq<ArgView>)
    requires
        t.wf(),
        s.wf(t),
        s.connected,
        t.node_count != 0,
        root_is_leaf(t, s),
        root_cells(t, s).len() < t.max_cells(),
        forall|i: int|
            0 <= i < root_cells(t, s).len() ==> #[trigger] root_cells(t, s)[i].rowid
                != t.assigned_rowid(args),
        args.len() >= t.row_width(),
        t.proper_box(t.row_coords(args)),
        s.rowids.contains_key(t.assigned_rowid(args)),
        s.rowids[t.assigned_rowid(args)] == NumberRow::Missing,
        changes_succeed(s, 5),
    ensures
        ({
            let (r, t2, s2) = t.insert(s, args);
            let (r3, t3, s3) = t2.delete(s2, t.assigned_rowid(args));
            &&& r == Ok::<i64, Stop>(t.assigned_rowid(args))
            &&& r3 is Ok
            &&& t3.same_shape(t)
            &&& t3.node_count == t.node_count
            &&& root_is_leaf(t3, s3)
            &&& root_cells(t3, s3) == root_cells(t, s)
            &&& s3.rowids == s.rowids
        }),
{
    let rowid = t.assigned_rowid(args);
    lemma_insert_into_root_succeeds(t, s, args);
    let (r, t2, s2) = t.insert(s, args);
    let cells = root_cells(t, s);
    let more = root_cells(t2, s2);
    assert forall|j: int| 0 <= j < cells.len() implies #[trigger] more[j].rowid != rowid by {
        assert(more[j] == cells[j]);
    }
    table::lemma_index_of_rowid(more, rowid, cells.len() as int);
    lemma_delete_from_root_succeeds(t2, s2, rowid);
    assert(more.remove(cells.len() as int) =~= cells);
    let s3 = t2.delete(s2, rowid).2;
    assert(s3.rowids =~= s.rowids);
}

/// Restoring the tree around a root that is a leaf succeeds with at most one change.
proof fn lemma_root_fix_succeeds(t: TableView, s: StoreView, data: Seq<u8>)
    requires
        t.wf(),
        t.holds(data),
        node::page_depth(data) == 0,
        s.nodes.contains_key(1),
        s.nodes[1] == NodeRowView::Blob(data),
        changes_succeed(s, 2),
    ensures
        ({
            let (r, t2, s2, p2) = t.fix(s, 1, 0, Seq::empty(), 0);
            &&& r is Ok
            &&& p2.len() == 0
            &&& changes_succeed(s2, 1)
            &&& s2.nodes.contains_key(1)
            &&& s2.nodes[1] matches NodeRowView::Blob(after) && t.holds(after) && node::page_depth(
                after,
            ) == 0 && t.cells(after) == t.cells(data)
            &&& t2.wf()
            &&& t2.same_shape(t)
            &&& t2.node_count == t.node_count
            &&& s2.rowids == s.rowids
        }),
{
    reveal(TableView::fix);
    reveal(TableView::fix_inner);
    t.lemma_sound_page(1, data);
    let n = t.node_from(1, data);
    assert(t.read_node(s, 1) == (Ok::<Option<NodeView>, Stop>(Some(n)), s));
    assert(n.data == data);
    if node::page_count(data) == 0 {
        let emptied = n.counted(0).deepened(0).data;
        t.lemma_room();
        assert(emptied.len() == t.node_size);
        assert(emptied[0] == 0 && emptied[1] == 0 && emptied[2] == 0 && emptied[3] == 0);
        assert(t.holds(emptied));
        assert(t.cells(emptied) =~= t.cells(data));
        lemma_change_succeeds(s, WriteView::Node { nodeno: 1, data: emptied }, 2);
    } else {
        reveal(TableView::tighten);
        assert(t.get_parent_nodeno(s, 1) == (Ok::<Option<i64>, Stop>(None), s));
    }
}

/// A root that is a leaf is not lowered.
proof fn lemma_root_stays(
    t: TableView,
    s: StoreView,
    pending: Seq<DetachedView>,
)
    requires
        t.wf(),
        s.nodes.contains_key(1),
        s.nodes[1] matches NodeRowView::Blob(data) && t.holds(data) && node::page_depth(data) == 0,
    ensures
        t.collapse(s, pending) == (Ok::<(), Stop>(()), t, s, pending),
{
    reveal(TableView::collapse);
    t.lemma_sound_page(1, s.nodes[1]->Blob_0);
}

} // verus!
