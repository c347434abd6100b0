//! What becomes of a row of a shadow table that is read, row by row.

use vstd::prelude::*;
use crate::cursor;
use crate::cursor::CursorView;
use crate::node::NodeView;
use crate::row_laws::stored_as;
use crate::store::{AuxRowView, NodeRowView, NumberRow, RequestView, Stop, StoreView, WriteView};
use crate::store_laws::known;
use crate::table::TableView;
use crate::value;
use crate::value::{ResultCode, ValueView};

verus! {

/// A node is what its page says: its bytes, cut or filled up with zeros to the size of a page, and for
/// the root the depth in its first two bytes.
pub open spec fn is_node_of(t: TableView, n: NodeView, nodeno: i64, page: Seq<u8>) -> bool {
    &&& n.node_no == nodeno
    &&& !n.is_dirty
    &&& n.data.len() == t.node_size
    &&& forall|i: int|
        0 <= i < t.node_size ==> #[trigger] n.data[i] == if i < page.len() {
            page[i]
        } else {
            0u8
        }
    &&& nodeno == 1 ==> n.depth == 256 * page[0] + page[1]
    &&& nodeno != 1 ==> n.depth == 0
}

/// Reading a node: a page that is there gives the node that it says, one that is not there gives none,
/// and one that cannot be read an error. There is no node 0. The root is an empty leaf where it is not
/// there. A cursor reads the same nodes, but takes one that it cannot read for one that is not there.
pub proof fn lemma_nodes_that_are_read(t: TableView, c: CursorView, s: StoreView, nodeno: i64)
    requires
        t.wf(),
        c.table().same_shape(t),
        s.connected,
        nodeno != 0,
    ensures
        t.read_node(s, 0) == (Ok::<Option<NodeView>, Stop>(None), s),
        known(s.nodes, nodeno) == Some(NodeRowView::Failed) ==> {
            &&& t.read_node(s, nodeno) == (
                Err::<Option<NodeView>, Stop>(Stop::Code(ResultCode::Error)),
                s,
            )
            &&& nodeno == 1 ==> t.load_root_node(s) == (
                Err::<NodeView, Stop>(Stop::Code(ResultCode::Error)),
                s,
            )
            &&& c.load_node(s, nodeno) == (Ok::<Option<NodeView>, Stop>(None), s)
        },
        known(s.nodes, nodeno) == Some(NodeRowView::Missing) ==> {
            &&& t.read_node(s, nodeno) == (Ok::<Option<NodeView>, Stop>(None), s)
            &&& nodeno == 1 ==> (t.load_root_node(s).0 matches Ok(root) && root.node_no == 1
                && root.depth == 0 && root.data == Seq::new(t.node_size as nat, |i: int| 0u8))
                && t.load_root_node(s).1 == s
            &&& c.load_node(s, nodeno) == (Ok::<Option<NodeView>, Stop>(None), s)
        },
        forall|page: Seq<u8>| #[trigger]
            known(s.nodes, nodeno) == Some(NodeRowView::Blob(page)) ==> {
                &&& (t.read_node(s, nodeno).0 matches Ok(Some(n)) && is_node_of(t, n, nodeno, page))
                &&& t.read_node(s, nodeno).1 == s
                &&& nodeno == 1 ==> t.load_root_node(s) == (
                    Ok::<NodeView, Stop>(t.read_node(s, 1).0->Ok_0->0),
                    s,
                )
                &&& c.load_node(s, nodeno) == t.read_node(s, nodeno)
            },
        known(s.nodes, nodeno) is None ==> {
            let asked = StoreView { pending: Some(RequestView::Node(nodeno)), ..s };
            &&& t.read_node(s, nodeno) == (Err::<Option<NodeView>, Stop>(Stop::Wait), asked)
            &&& nodeno == 1 ==> t.load_root_node(s) == (Err::<NodeView, Stop>(Stop::Wait), asked)
            &&& c.load_node(s, nodeno) == (Err::<Option<NodeView>, Stop>(Stop::Wait), asked)
        },
{
    assert(NodeView::fresh(1, 0, t.node_size as nat).data =~= Seq::new(
        t.node_size as nat,
        |i: int| 0u8,
    ));
    assert forall|page: Seq<u8>| #[trigger]
        known(s.nodes, nodeno) == Some(NodeRowView::Blob(page)) implies is_node_of(
        t,
        t.read_node(s, nodeno).0->Ok_0->0,
        nodeno,
        page,
    ) by {
        let n = t.read_node(s, nodeno).0->Ok_0->0;
        assert(n == t.node_from(nodeno, page));
    }
}

/// A cursor without a connection reads no node, and no auxiliary columns where its table has some and
/// it is on a row.
pub proof fn lemma_cursor_without_connection(c: CursorView, s: StoreView, nodeno: i64)
    requires
        !s.connected,
    ensures
        c.load_node(s, nodeno) == (Ok::<Option<NodeView>, Stop>(None), s),
        c.aux_columns.len() > 0 && c.rowid != 0 ==> c.load_aux(s).0 == Ok::<ResultCode, Stop>(
            ResultCode::Error,
        ),
{
}

/// What a number that is read gives: the number where the row is there, none where it is not, and an
/// error where it cannot be read.
pub open spec fn is_number_read(
    row: Option<NumberRow>,
    r: Result<Option<i64>, Stop>,
    s: StoreView,
    asked: RequestView,
    s2: StoreView,
) -> bool {
    match row {
        None => r == Err::<Option<i64>, Stop>(Stop::Wait) && s2 == (StoreView {
            pending: Some(asked),
            ..s
        }),
        Some(NumberRow::Failed) => r == Err::<Option<i64>, Stop>(Stop::Code(ResultCode::Error)) && s2
            == s,
        Some(NumberRow::Missing) => r == Ok::<Option<i64>, Stop>(None) && s2 == s,
        Some(NumberRow::Number(n)) => r == Ok::<Option<i64>, Stop>(Some(n)) && s2 == s,
    }
}

/// Reading the parent of a node and the node of a row. The root has no parent.
pub proof fn lemma_numbers_that_are_read(t: TableView, s: StoreView, key: i64)
    ensures
        key <= 1 ==> t.get_parent_nodeno(s, key) == (Ok::<Option<i64>, Stop>(None), s),
        key > 1 ==> is_number_read(
            known(s.parents, key),
            t.get_parent_nodeno(s, key).0,
            s,
            RequestView::Parent(key),
            t.get_parent_nodeno(s, key).1,
        ),
        is_number_read(
            known(s.rowids, key),
            t.get_rowid_nodeno(s, key).0,
            s,
            RequestView::RowidNode(key),
            t.get_rowid_nodeno(s, key).1,
        ),
{
}

/// A node without cells is a leaf. So is the root where the depth that it holds is 0, and any other
/// node whose first cell is not known as a child of it.
pub proof fn lemma_leaves_are_told(t: TableView, s: StoreView, n: NodeView)
    requires
        t.wf(),
        n.node_no > 1 || n.node_no == 1,
    ensures
        n.node_no == 1 ==> t.is_leaf(s, n) == (
            Ok::<bool, Stop>(256 * n.data[0] + n.data[1] == 0),
            s,
        ),
        n.node_no != 1 && 256 * n.data[2] + n.data[3] == 0 ==> t.is_leaf(s, n) == (
            Ok::<bool, Stop>(true),
            s,
        ),
        n.node_no != 1 && 256 * n.data[2] + n.data[3] > 0 && t.cells(n.data)[0].rowid > 1 ==> (
        match known(s.parents, t.cells(n.data)[0].rowid) {
            None => t.is_leaf(s, n).0 == Err::<bool, Stop>(Stop::Wait),
            Some(NumberRow::Failed) => t.is_leaf(s, n).0 == Err::<bool, Stop>(
                Stop::Code(ResultCode::Error),
            ),
            Some(NumberRow::Missing) => t.is_leaf(s, n).0 == Ok::<bool, Stop>(true),
            Some(NumberRow::Number(p)) => t.is_leaf(s, n).0 == Ok::<bool, Stop>(p != n.node_no),
        }),
        n.node_no != 1 && 256 * n.data[2] + n.data[3] > 0 && t.cells(n.data)[0].rowid <= 1
            ==> t.is_leaf(s, n) == (Ok::<bool, Stop>(true), s),
{
    assert(t.cells(n.data).len() == crate::node::page_count(n.data));
}

/// Reading the auxiliary columns of a row for a table: none for a table without any, the first values
/// that are stored where there are enough, and otherwise an error that says which of the reasons it is.
pub proof fn lemma_aux_that_is_read(t: TableView, s: StoreView, rowid: i64)
    ensures
        ({
            let (r, s2) = t.read_rowid_aux_values(s, rowid);
            let n = t.aux_columns.len();
            &&& n == 0 ==> r == Ok::<Seq<ValueView>, Stop>(Seq::empty()) && s2 == s
            &&& n > 0 ==> match known(s.aux, rowid) {
                None => r == Err::<Seq<ValueView>, Stop>(Stop::Wait) && s2 == (StoreView {
                    pending: Some(RequestView::RowidAux(rowid)),
                    ..s
                }),
                Some(AuxRowView::Failed) => r == Err::<Seq<ValueView>, Stop>(
                    Stop::Code(ResultCode::Error),
                ) && s2 == s,
                Some(AuxRowView::Missing) => r == Err::<Seq<ValueView>, Stop>(
                    Stop::Code(ResultCode::NotFound),
                ) && s2 == s,
                Some(AuxRowView::Values(values)) => if values.len() < n {
                    r == Err::<Seq<ValueView>, Stop>(Stop::Code(ResultCode::Corrupt)) && s2 == s
                } else {
                    &&& (r matches Ok(read) && read.len() == n && forall|k: int|
                        0 <= k < n ==> #[trigger] read[k] == stored_as(values[k]))
                    &&& s2 == s
                },
            }
        }),
{
}

/// Reading the auxiliary columns of the row that a cursor is on: all values that are stored, or none
/// where there are none. Nothing but these values changes of the cursor.
pub proof fn lemma_aux_that_a_cursor_reads(c: CursorView, s: StoreView)
    requires
        s.connected,
    ensures
        ({
            let (r, c2, s2) = c.load_aux(s);
            &&& c2 == (CursorView { aux_values: c2.aux_values, ..c })
            &&& c.aux_columns.len() == 0 || c.rowid == 0 ==> r == Ok::<ResultCode, Stop>(
                ResultCode::OK,
            ) && c2.aux_values.len() == 0 && s2 == s
            &&& c.aux_columns.len() > 0 && c.rowid != 0 ==> match known(s.aux, c.rowid) {
                None => r == Err::<ResultCode, Stop>(Stop::Wait) && s2 == (StoreView {
                    pending: Some(RequestView::RowidAux(c.rowid)),
                    ..s
                }),
                Some(AuxRowView::Failed) => r == Ok::<ResultCode, Stop>(ResultCode::Error)
                    && c2.aux_values.len() == 0 && s2 == s,
                Some(AuxRowView::Missing) => r == Ok::<ResultCode, Stop>(ResultCode::OK)
                    && c2.aux_values.len() == 0 && s2 == s,
                Some(AuxRowView::Values(values)) => {
                    &&& r == Ok::<ResultCode, Stop>(ResultCode::OK)
                    &&& c2.aux_values.len() == values.len()
                    &&& forall|k: int|
                        0 <= k < values.len() ==> #[trigger] c2.aux_values[k] == stored_as(values[k])
                    &&& s2 == s
                },
            }
        }),
{
}

/// Writing the node and the auxiliary columns of a row: as many values as the table has auxiliary
/// columns, or nothing is written.
pub proof fn lemma_row_that_is_written(
    t: TableView,
    s: StoreView,
    rowid: i64,
    nodeno: i64,
    aux: Seq<ValueView>,
)
    ensures
        ({
            let (r, s2) = t.write_rowid_map(s, rowid, nodeno, aux);
            let stored = Seq::new(aux.len(), |k: int| stored_as(aux[k]));
            &&& aux.len() != t.aux_columns.len() ==> r == Err::<(), Stop>(
                Stop::Code(ResultCode::InvalidArgs),
            ) && s2 == s
            &&& aux.len() == t.aux_columns.len() && r is Ok ==> {
                &&& s2.log == s.log.push(WriteView::Rowid { rowid, nodeno, aux: stored })
                &&& known(s2.rowids, rowid) == Some(NumberRow::Number(nodeno))
                &&& known(s2.aux, rowid) == Some(AuxRowView::Values(stored))
            }
            &&& aux.len() == t.aux_columns.len() && s.log.len() < s.acks.len()
                && s.acks[s.log.len() as int] ==> r is Ok
        }),
{
    assert(value::owned_all(aux) =~= Seq::new(aux.len(), |k: int| stored_as(aux[k])));
}

/// The index string of a query that brings none is the one of a plan without constraints.
pub proof fn lemma_missing_index_string(idx: &str, num: i32)
    ensures
        cursor::index_string(None) == seq!['q', 'u', 'e', 'r', 'y'],
        cursor::index_string(Some((idx, num))) == idx@,
{
    reveal_strlit("query");
    assert("query"@ =~= seq!['q', 'u', 'e', 'r', 'y']);
}

} // verus!
