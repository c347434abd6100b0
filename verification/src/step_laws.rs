//! What single steps of an insertion or a deletion do to the pages of the tree.

use vstd::prelude::*;
use crate::bytes;
use crate::node;
use crate::node::{CellView, NodeView};
use crate::page_laws;
use crate::split;
use crate::store::{NodeRowView, NumberRow, Stop, StoreView, WriteView};
use crate::store_laws;
use crate::store_laws::known;
use crate::table::TableView;
use crate::tree_delete::DetachedView;
use crate::tree_laws;
use crate::value::ResultCode;

verus! {

/// Creating the shadow tables: a table each for the pages, the rows and the parents, and then a page
/// of zeros as the root, which is the only node. Once these four changes succeed, so does the creation.
pub proof fn lemma_shadow_tables_created(t: TableView, s: StoreView)
    requires
        t.wf(),
    ensures
        ({
            let (r, t2, s2) = t.create_shadow_tables(s);
            let page = Seq::new(t.node_size as nat, |i: int| 0u8);
            let n = s.log.len() as int;
            &&& r is Ok ==> {
                &&& s2.log == s.log + seq![
                    WriteView::CreateNodeTable,
                    WriteView::CreateRowidTable,
                    WriteView::CreateParentTable,
                    WriteView::Node { nodeno: 1, data: page },
                ]
                &&& known(s2.nodes, 1) == Some(NodeRowView::Blob(page))
                &&& t2.same_shape(t)
                &&& t2.row_count == t.row_count
                &&& t2.node_count == 1
                &&& t2.depth == 0
            }
            &&& r is Err ==> t2 == t
            &&& n + 4 <= s.acks.len() && s.acks[n] && s.acks[n + 1] && s.acks[n + 2] && s.acks[n
                + 3] ==> r is Ok
        }),
{
    let page = node::with_depth(node::empty_page(t.node_size as nat), 0);
    let zeros = Seq::new(t.node_size as nat, |i: int| 0u8);
    assert(page =~= zeros);
    let ws = seq![
        WriteView::CreateNodeTable,
        WriteView::CreateRowidTable,
        WriteView::CreateParentTable,
        WriteView::Node { nodeno: 1, data: page },
    ];
    let w1 = ws.skip(1);
    let w2 = w1.skip(1);
    let w3 = w2.skip(1);
    let s1 = s.issue(ws[0]).1;
    let s2 = s1.issue(w1[0]).1;
    let s3 = s2.issue(w2[0]).1;
    let s4 = s3.issue(w3[0]).1;
    store_laws::lemma_changes_in_turn(s, ws);
    store_laws::lemma_changes_in_turn(s1, w1);
    store_laws::lemma_changes_in_turn(s2, w2);
    store_laws::lemma_changes_in_turn(s3, w3);
    store_laws::lemma_changes_in_turn(s4, w3.skip(1));
    store_laws::lemma_changes_are_seen(s, ws[0], 1);
    store_laws::lemma_changes_are_seen(s1, w1[0], 1);
    store_laws::lemma_changes_are_seen(s2, w2[0], 1);
    store_laws::lemma_changes_are_seen(s3, w3[0], 1);
    if t.create_shadow_tables(s).0 is Ok {
        assert(t.create_shadow_tables(s).2 == s4);
        assert(s4.log =~= s.log + seq![
            WriteView::CreateNodeTable,
            WriteView::CreateRowidTable,
            WriteView::CreateParentTable,
            WriteView::Node { nodeno: 1, data: zeros },
        ]);
    }
}

/// A row is put behind the last cell of its leaf as long as the leaf has room, and no node is made for
/// it. A leaf is split only when it is full, into two new nodes
/// that become its only cells; the root is then one level higher.
pub proof fn lemma_leaf_is_split_when_full(t: TableView, s: StoreView, n: NodeView, cell: CellView)
    requires
        t.wf(),
        t.holds(n.data),
        cell.kept(t.n_dim2 as nat) == cell,
        t.node_count <= i64::MAX - 2,
    ensures
        ({
            let (r, t2, s2) = t.place_in_leaf(s, Some(n), cell);
            if t.cells(n.data).len() < t.max_cells() {
                &&& t2 == t
                &&& r matches Ok(m) ==> {
                    &&& m == n.node_no
                    &&& known(s2.nodes, n.node_no) matches Some(NodeRowView::Blob(page)) && t.cells(
                        page,
                    ) == t.cells(n.data).push(cell)
                }
            } else {
                &&& t2 == (TableView { node_count: t2.node_count, ..t })
                &&& t2.node_count == t.node_count + 2
                &&& r matches Ok(m) ==> {
                    &&& m == t.node_count + 1 || m == t.node_count + 2
                    &&& known(s2.nodes, n.node_no) matches Some(NodeRowView::Blob(page))
                        && count_in(page) == 2 && t.cells(page)[0].rowid == t.node_count + 1
                        && t.cells(page)[1].rowid == t.node_count + 2 && (n.node_no == 1
                        && depth_in(n.data) < 0xffff ==> depth_in(page) == depth_in(n.data) + 1)
                }
            }
        }),
{
    reveal(TableView::place_in_leaf);
    t.lemma_room();
    let count = node::page_count(n.data);
    let width = t.n_bytes_per_cell as nat;
    if count < t.max_cells() {
        t.lemma_slot_inside(count as int);
        page_laws::lemma_append_cell(n.data, t.n_dim2 as nat, width, cell);
    } else {
        reveal(TableView::split_leaf);
        reveal(TableView::divide_leaf);
        let t1 = TableView { node_count: (t.node_count + 2) as i64, ..t };
        let left_no = (t.node_count + 1) as i64;
        let ratings = t1.rate_axes(s, n, cell, 0, Seq::empty()).0->Ok_0;
        let (left, right) = split::halves(t1, n, cell, t.n_dim2 as nat, ratings);
        tree_laws::lemma_promoted(t1, n, left, right, left_no);
    }
}

/// The depth of a root page, in its first two bytes.
pub open spec fn depth_in(page: Seq<u8>) -> int {
    256 * page[0] + page[1]
}

/// The number of cells of a page, in the two bytes behind the depth.
pub open spec fn count_in(page: Seq<u8>) -> int {
    256 * page[2] + page[3]
}

/// A tree whose root is a leaf, or has no or more than one child, is not lowered.
pub proof fn lemma_root_stays_high(
    t: TableView,
    s: StoreView,
    pending: Seq<DetachedView>,
    page: Seq<u8>,
)
    requires
        t.wf(),
        page.len() == t.node_size,
        known(s.nodes, 1) == Some(NodeRowView::Blob(page)),
        depth_in(page) == 0 || count_in(page) != 1,
    ensures
        t.collapse(s, pending) == (Ok::<(), Stop>(()), t, s, pending),
{
    reveal(TableView::collapse);
    assert(bytes::fitted(page, t.node_size as nat) =~= page);
}

/// A root with a single child is emptied and holds a lower depth: none where the child is a leaf, and
/// else one less, but at least one. The child is dropped, and its cells are put on the pending list.
pub proof fn lemma_root_is_lowered(
    t: TableView,
    s: StoreView,
    pending: Seq<DetachedView>,
    page: Seq<u8>,
    leaf: bool,
)
    requires
        t.wf(),
        s.wf(t),
        page.len() == t.node_size,
        known(s.nodes, 1) == Some(NodeRowView::Blob(page)),
        depth_in(page) > 0,
        count_in(page) == 1,
        t.cells(page)[0].rowid > 1,
        leaf == !t.forest(s).inner(t.cells(page)[0].rowid),
        t.forest(s).pages.contains_key(t.cells(page)[0].rowid),
        t.collapse(s, pending).0 is Ok,
    ensures
        ({
            let (r, t2, s2, p2) = t.collapse(s, pending);
            let child = t.cells(page)[0].rowid;
            let depth: int = if leaf {
                0
            } else if depth_in(page) == 1 {
                1
            } else {
                depth_in(page) - 1
            };
            &&& known(s2.nodes, child) == Some(NodeRowView::Missing)
            &&& known(s2.parents, child) == Some(NumberRow::Missing)
            &&& (known(s2.nodes, 1) matches Some(NodeRowView::Blob(root)) && root.len() == page.len()
                && depth_in(root) == depth && count_in(root) == 0)
            &&& t2 == (TableView { depth: t2.depth, ..t })
            &&& t2.depth == depth
            &&& p2.len() == pending.len() + 1
            &&& p2.drop_last() == pending
            &&& p2.last().height == depth
            &&& p2.last().cells == t.forest(s).pages[child]
        }),
{
    reveal(TableView::collapse);
    let child_no = t.cells(page)[0].rowid;
    assert(bytes::fitted(page, t.node_size as nat) =~= page);
    t.lemma_read(s, 1);
    t.lemma_read(s, child_no);
    let root = t.read_node(s, 1).0->Ok_0->0;
    let child = t.read_node(s, child_no).0->Ok_0->0;
    assert(root.data == page);
    t.lemma_told_leaf(s, child);
    let depth = TableView::lowered_depth(root.tree_depth(), leaf);
    let lowered = root.counted(0).deepened(depth);
    node::lemma_count_round_trip(root.data, 0);
    node::lemma_depth_round_trip(node::with_count(root.data, 0), depth);
    let w = WriteView::Node { nodeno: 1, data: lowered.data };
    let s1 = s.issue(w).1;
    let ws = seq![
        WriteView::DeleteNode { nodeno: child_no },
        WriteView::DeleteParent { nodeno: child_no },
    ];
    store_laws::lemma_changes_in_turn(s1, ws);
    let s2 = s1.issue(ws[0]).1;
    let rest = ws.skip(1);
    store_laws::lemma_changes_in_turn(s2, rest);
    let s3 = s2.issue(rest[0]).1;
    store_laws::lemma_changes_in_turn(s3, rest.skip(1));
    let p2 = t.collapse(s, pending).3;
    assert(p2.drop_last() =~= pending);
    assert(t.collapse(s, pending).2 == s3);
}

/// A leaf, other than the root, that a deletion leaves with fewer cells than a third of a page is taken
/// apart and its cells are put on the pending list. No other node is.
pub proof fn lemma_small_leaf_is_taken_apart(
    t: TableView,
    s: StoreView,
    nodeno: i64,
    height: nat,
    pending: Seq<DetachedView>,
    guard: nat,
)
    requires
        t.wf(),
        s.wf(t),
        t.forest(s).pages.contains_key(nodeno),
        nodeno != 0,
        t.fix(s, nodeno, height, pending, guard).0 is Ok,
    ensures
        ({
            let cells = t.forest(s).pages[nodeno];
            let p2 = t.fix(s, nodeno, height, pending, guard).3;
            if height == 0 && nodeno != 1 && 3 * cells.len() + 3 <= t.max_cells() {
                &&& p2.len() == pending.len() + 1
                &&& p2.drop_last() == pending
                &&& p2.last().height == 0
                &&& p2.last().cells == cells
            } else {
                p2 == pending
            }
        }),
{
    reveal(TableView::fix);
    t.lemma_read(s, nodeno);
    let n = t.read_node(s, nodeno).0->Ok_0->0;
    assert(t.cells(n.data).len() == node::page_count(n.data));
    let p2 = t.fix(s, nodeno, height, pending, guard).3;
    assert(p2 == pending || p2.drop_last() =~= pending);
}

/// A root that has no cells left becomes an empty leaf.
pub proof fn lemma_empty_root_becomes_a_leaf(t: TableView, s: StoreView, page: Seq<u8>)
    requires
        t.wf(),
        page.len() == t.node_size,
        known(s.nodes, 1) == Some(NodeRowView::Blob(page)),
        count_in(page) == 0,
        t.fix_inner(s, 1, 0).0 is Ok,
    ensures
        ({
            let (r, t2, s2) = t.fix_inner(s, 1, 0);
            &&& (known(s2.nodes, 1) matches Some(NodeRowView::Blob(root)) && root.len() == page.len()
                && depth_in(root) == 0 && count_in(root) == 0)
            &&& t2 == (TableView { depth: 0, ..t })
        }),
{
    reveal(TableView::fix_inner);
    assert(bytes::fitted(page, t.node_size as nat) =~= page);
    let root = t.read_node(s, 1).0->Ok_0->0;
    assert(root.data == page);
    node::lemma_count_round_trip(root.data, 0);
    node::lemma_depth_round_trip(node::with_count(root.data, 0), 0);
}

/// What a deletion took off the tree goes back one node after the other, the last one first, and its
/// cells from the first on. A row that is known to have no auxiliary columns any more gets NULLs.
pub proof fn lemma_taken_off_goes_back(
    t: TableView,
    s: StoreView,
    pending: Seq<DetachedView>,
    cell: CellView,
)
    ensures
        pending.len() == 0 ==> t.reinsert_all(s, pending) == (Ok::<(), Stop>(()), t, s),
        pending.len() > 0 ==> match t.reinsert_cells(s, pending[pending.len() - 1], 0) {
            (Ok(()), t1, s1) => t.reinsert_all(s, pending) == t1.reinsert_all(
                s1,
                pending.take(pending.len() - 1),
            ),
            (Err(stop), t1, s1) => t.reinsert_all(s, pending) == (Err::<(), Stop>(stop), t1, s1),
        },
        t.read_rowid_aux_values(s, cell.rowid) == (
            Err::<Seq<crate::value::ValueView>, Stop>(Stop::Code(ResultCode::NotFound)),
            s,
        ) ==> t.reinsert_cell(s, cell, 0) == t.insert_leaf_row(
            s,
            cell.rowid,
            cell,
            Seq::new(t.aux_columns.len(), |i: int| crate::value::ValueView::Null),
        ),
{
    reveal(TableView::reinsert_all);
    reveal(TableView::reinsert_cell);
    if pending.len() > 0 {
        assert(pending.take(pending.len() - 1) =~= pending.drop_last());
    }
    assert(crate::tree_delete::nulls(t.aux_columns.len()) =~= Seq::new(
        t.aux_columns.len(),
        |i: int| crate::value::ValueView::Null,
    ));
}

} // verus!
