//! What operations do where a row that they need is not there, cannot be read, or does not fit the
//! others.

use vstd::prelude::*;
use crate::bytes;
use crate::cursor::CursorView;
use crate::node;
use crate::node::{CellView, NodeView};
use crate::page_laws;
use crate::row_laws::{is_proper, told_box, told_id, width_of};
use crate::store::{NodeRowView, NumberRow, Stop, StoreView};
use crate::store_laws::known;
use crate::table;
use crate::table::TableView;
use crate::tree_delete::DetachedView;
use crate::value::{ArgView, ResultCode, ValueView};

verus! {

/// The cells of a stored page.
pub open spec fn cells_in(t: TableView, page: Seq<u8>) -> Seq<CellView> {
    t.cells(bytes::fitted(page, t.node_size as nat))
}

/// A page that is known not to be there, or not to be readable.
pub open spec fn is_away(s: StoreView, n: i64) -> bool {
    known(s.nodes, n) == Some(NodeRowView::Missing) || known(s.nodes, n) == Some(
        NodeRowView::Failed,
    )
}

/// The page of a node is known, and lists no cell with this number.
pub open spec fn lists_not(t: TableView, s: StoreView, n: i64, number: i64) -> bool {
    known(s.nodes, n) matches Some(NodeRowView::Blob(page)) && forall|i: int|
        0 <= i < cells_in(t, page).len() ==> (#[trigger] cells_in(t, page)[i]).rowid != number
}

/// Seeing to the boxes above a node: a node that is not there, is empty or has no parent needs
/// nothing. A parent that is not there, or does not list the node, is an error, and so is a way that
/// goes on for longer than there are nodes. Nothing is changed then.
pub proof fn lemma_faults_on_the_way_up(t: TableView, s: StoreView, n: i64, p: i64, hops: nat)
    requires
        t.wf(),
        n != 0,
        p != 0,
    ensures
        hops > 100 && hops > t.node_count ==> {
            &&& t.tighten(s, n, hops) == (Err::<(), Stop>(Stop::Code(ResultCode::Error)), s)
            &&& t.adjust(s, n, hops) == (Err::<(), Stop>(Stop::Code(ResultCode::Error)), s)
        },
        hops <= 100 ==> {
            &&& known(s.nodes, n) == Some(NodeRowView::Missing) ==> {
                &&& t.tighten(s, n, hops) == (Ok::<(), Stop>(()), s)
                &&& t.adjust(s, n, hops) == (Ok::<(), Stop>(()), s)
            }
            &&& known(s.nodes, n) == Some(NodeRowView::Failed) ==> {
                &&& t.tighten(s, n, hops) == (Err::<(), Stop>(Stop::Code(ResultCode::Error)), s)
                &&& t.adjust(s, n, hops) == (Err::<(), Stop>(Stop::Code(ResultCode::Error)), s)
            }
            &&& forall|page: Seq<u8>| #[trigger]
                known(s.nodes, n) == Some(NodeRowView::Blob(page)) && (cells_in(t, page).len() == 0
                    || n == 1 || n > 1 && known(s.parents, n) == Some(NumberRow::Missing)) ==> {
                    &&& t.tighten(s, n, hops) == (Ok::<(), Stop>(()), s)
                    &&& t.adjust(s, n, hops) == (Ok::<(), Stop>(()), s)
                }
            &&& forall|page: Seq<u8>| #[trigger]
                known(s.nodes, n) == Some(NodeRowView::Blob(page)) && cells_in(t, page).len() > 0
                    && n > 1 && known(s.parents, n) == Some(NumberRow::Number(p)) && (is_away(s, p)
                    || lists_not(t, s, p, n)) ==> {
                    &&& t.tighten(s, n, hops) == (Err::<(), Stop>(Stop::Code(ResultCode::Error)), s)
                    &&& t.adjust(s, n, hops) == (Err::<(), Stop>(Stop::Code(ResultCode::Error)), s)
                }
        },
{
    reveal(TableView::tighten);
    reveal(TableView::adjust);
    if let Some(NodeRowView::Blob(page)) = known(s.nodes, p) {
        table::lemma_found_by_rowid(cells_in(t, page), n);
    }
}

/// Taking a node out of its parent: a node whose parent is not noted or not there, or does not list it,
/// shows that the tree is corrupt. Nothing is changed then.
pub proof fn lemma_faults_of_taking_apart(t: TableView, s: StoreView, n: i64, p: i64, guard: nat)
    requires
        t.wf(),
        n > 1,
        p != 0,
    ensures
        known(s.parents, n) == Some(NumberRow::Missing) ==> t.detach(s, n, guard) == (
            Err::<(), Stop>(Stop::Code(ResultCode::Corrupt)),
            t,
            s,
        ),
        known(s.parents, n) == Some(NumberRow::Number(p)) && (known(s.nodes, p) == Some(
            NodeRowView::Missing,
        ) || lists_not(t, s, p, n)) ==> t.detach(s, n, guard) == (
            Err::<(), Stop>(Stop::Code(ResultCode::Corrupt)),
            t,
            s,
        ),
{
    reveal(TableView::detach);
    if let Some(NodeRowView::Blob(page)) = known(s.nodes, p) {
        table::lemma_found_by_rowid(cells_in(t, page), n);
    }
}

/// Lowering the tree: where there is no root there is nothing to lower, and a root whose only child is
/// not there shows that the tree is corrupt.
pub proof fn lemma_faults_of_lowering(
    t: TableView,
    s: StoreView,
    pending: Seq<DetachedView>,
    page: Seq<u8>,
)
    requires
        t.wf(),
    ensures
        known(s.nodes, 1) == Some(NodeRowView::Missing) ==> t.collapse(s, pending) == (
            Ok::<(), Stop>(()),
            t,
            s,
            pending,
        ),
        known(s.nodes, 1) == Some(NodeRowView::Blob(page)) && page.len() >= 4 && page[0] + page[1] > 0
            && page[2] == 0 && page[3] == 1 && cells_in(t, page)[0].rowid != 0 && known(
            s.nodes,
            cells_in(t, page)[0].rowid,
        ) == Some(NodeRowView::Missing) ==> t.collapse(s, pending) == (
            Err::<(), Stop>(Stop::Code(ResultCode::Corrupt)),
            t,
            s,
            pending,
        ),
{
    reveal(TableView::collapse);
}

/// Taking out a row that is not noted, or is not in the node that is noted for it, takes nothing out.
/// Reading such a row gives none, and so does looking it up.
pub proof fn lemma_row_that_is_not_there(t: TableView, c: CursorView, s: StoreView, r: i64, n: i64)
    requires
        t.wf(),
        c.table().same_shape(t),
        s.connected,
        n != 0,
        known(s.rowids, r) == Some(NumberRow::Missing) || known(s.rowids, r) == Some(
            NumberRow::Number(n),
        ) && (known(s.nodes, n) == Some(NodeRowView::Missing) || lists_not(t, s, n, r)),
    ensures
        t.take_out(s, r) == (Ok::<(), Stop>(()), t, s, Seq::<DetachedView>::empty()),
        t.stored_row(s, r) == (Ok::<Option<(CellView, Seq<ValueView>)>, Stop>(None), s),
        c.find_row(s, r) == (Ok::<Option<CellView>, Stop>(None), s),
{
    reveal(TableView::take_out);
    reveal(CursorView::find_row);
    if let Some(NodeRowView::Blob(page)) = known(s.nodes, n) {
        table::lemma_found_by_rowid(cells_in(t, page), r);
        assert(c.table().cells(bytes::fitted(page, t.node_size as nat)) =~= cells_in(t, page));
    }
}

/// An insertion that cannot read whether its row id is taken fails, and writes nothing.
pub proof fn lemma_row_id_that_cannot_be_read(t: TableView, s: StoreView, args: Seq<ArgView>)
    requires
        t.wf(),
        s.connected,
        t.node_count > 0,
        t.row_count < i64::MAX,
        args.len() >= width_of(t),
        is_proper(told_box(t, args), t.n_dim2 as int),
        known(s.rowids, told_id(t, args) as i64) == Some(NumberRow::Failed),
    ensures
        t.insert(s, args).0 == Err::<i64, Stop>(Stop::Code(ResultCode::Error)),
        t.insert(s, args).2 == s,
{
    crate::row_laws::lemma_row_coords(t, args);
}

/// The leaf for a new row: none where the root cannot be read. A root that is not there counts as an
/// empty leaf, and so does any root without a connection.
pub proof fn lemma_leaf_without_root(t: TableView, s: StoreView)
    requires
        t.wf(),
    ensures
        s.connected && known(s.nodes, 1) == Some(NodeRowView::Failed) ==> t.choose_leaf(
            s,
            t.n_dim2 as nat,
        ) == (Ok::<Option<NodeView>, Stop>(None), s),
        !s.connected || known(s.nodes, 1) == Some(NodeRowView::Missing) ==> (t.choose_leaf(
            s,
            t.n_dim2 as nat,
        ).0 matches Ok(Some(leaf)) && leaf.node_no == 1 && leaf.data == Seq::new(
            t.node_size as nat,
            |i: int| 0u8,
        )) && t.choose_leaf(s, t.n_dim2 as nat).1 == s,
{
    reveal(TableView::choose_leaf);
    reveal(TableView::reach_leaf);
    let fresh = NodeView::fresh(1, 0, t.node_size as nat);
    assert(fresh.data =~= Seq::new(t.node_size as nat, |i: int| 0u8));
    assert(fresh.tree_depth() == 0);
}

/// A row for which there is no leaf gets a new node of its own, with the next number.
pub proof fn lemma_row_without_leaf(t: TableView, s: StoreView, cell: CellView)
    requires
        t.wf(),
        t.node_count < i64::MAX,
        cell.kept(t.n_dim2 as nat) == cell,
    ensures
        ({
            let (r, t2, s2) = t.place_in_leaf(s, None, cell);
            &&& t2.node_count == t.node_count + 1
            &&& t2.same_shape(t)
            &&& t2.row_count == t.row_count
            &&& r matches Ok(n) ==> {
                &&& n == t.node_count + 1
                &&& known(s2.nodes, n) matches Some(NodeRowView::Blob(page)) && t.cells(page) == seq![
                    cell,
                ]
            }
        }),
{
    reveal(TableView::place_in_leaf);
    t.lemma_room();
    t.lemma_slot_inside(0);
    let n = (t.node_count + 1) as i64;
    let fresh = NodeView::fresh(n, 0, t.node_size as nat);
    let width = t.n_bytes_per_cell as nat;
    assert(node::page_count(fresh.data) == 0);
    page_laws::lemma_append_cell(fresh.data, t.n_dim2 as nat, width, cell);
    assert(t.cells(fresh.data) =~= Seq::empty());
    assert(Seq::<CellView>::empty().push(cell) =~= seq![cell]);
}

/// A subtree that is put back into a tree which is not higher goes below the root, behind its last cell
/// where the root has room, and the root is noted as its parent.
pub proof fn lemma_subtree_that_goes_to_the_root(
    t: TableView,
    s: StoreView,
    cell: CellView,
    height: nat,
    page: Seq<u8>,
)
    requires
        t.wf(),
        s.wf(t),
        page.len() == t.node_size,
        known(s.nodes, 1) == Some(NodeRowView::Blob(page)),
        256 * page[0] + page[1] <= height,
        256 * page[2] + page[3] < t.max_cells(),
        cell.kept(t.n_dim2 as nat) == cell,
        t.insert_internal(s, cell, height).0 is Ok,
    ensures
        ({
            let (r, t2, s2) = t.insert_internal(s, cell, height);
            &&& t2 == t
            &&& (known(s2.nodes, 1) matches Some(NodeRowView::Blob(root)) && t.cells(root) == t.cells(
                page,
            ).push(cell))
            &&& known(s2.parents, cell.rowid) == Some(NumberRow::Number(1))
        }),
{
    reveal(TableView::descend);
    reveal(TableView::adjust);
    assert(bytes::fitted(page, t.node_size as nat) =~= page);
    t.lemma_room();
    t.lemma_slot_inside(node::page_count(page) as int);
    page_laws::lemma_append_cell(page, t.n_dim2 as nat, t.n_bytes_per_cell as nat, cell);
}

} // verus!
