//! Reading nodes and maps, and the single changes to them.

use vstd::prelude::*;
use crate::bytes;
use crate::node;
use crate::node::{NodeView, RtreeNode};
use crate::store::{
    AuxRow, AuxRowView, NodeRow, NodeRowView, NumberRow, ShadowStore, Stop, StoreView, Write,
    WriteView,
};
use crate::table::{RtreeTable, TableView};
use crate::value;
use crate::value::{ResultCode, Value, ValueView};

verus! {

/// The model of a node that was read, if there was one.
pub open spec fn node_result(r: Result<Option<RtreeNode>, Stop>) -> Result<Option<NodeView>, Stop> {
    match r {
        Ok(Some(n)) => Ok(Some(n@)),
        Ok(None) => Ok(None),
        Err(stop) => Err(stop),
    }
}

/// The model of a root that was read.
pub open spec fn root_result(r: Result<RtreeNode, Stop>) -> Result<NodeView, Stop> {
    match r {
        Ok(n) => Ok(n@),
        Err(stop) => Err(stop),
    }
}

/// The model of values that were read.
pub open spec fn values_result(r: Result<Vec<Value>, Stop>) -> Result<Seq<ValueView>, Stop> {
    match r {
        Ok(values) => Ok(value::value_views(values@)),
        Err(stop) => Err(stop),
    }
}

/// A number that was read, if there was one.
pub open spec fn number_outcome(r: (Result<NumberRow, Stop>, StoreView)) -> (
    Result<Option<i64>, Stop>,
    StoreView,
) {
    match r {
        (Ok(NumberRow::Failed), s) => (Err(Stop::Code(ResultCode::Error)), s),
        (Ok(NumberRow::Missing), s) => (Ok(None), s),
        (Ok(NumberRow::Number(n)), s) => (Ok(Some(n)), s),
        (Err(stop), s) => (Err(stop), s),
    }
}

impl TableView {
    /// A stored page as a node.
    pub open spec fn node_from(self, nodeno: i64, data: Seq<u8>) -> NodeView {
        NodeView {
            node_no: nodeno,
            depth: if nodeno == 1 {
                bytes::be16(data[0], data[1]) as usize
            } else {
                0
            },
            data: bytes::fitted(data, self.node_size as nat),
            is_dirty: false,
        }
    }

    /// Reading a node. Node 0 is never there.
    pub open spec fn read_node(self, s: StoreView, nodeno: i64) -> (
        Result<Option<NodeView>, Stop>,
        StoreView,
    ) {
        if nodeno == 0 {
            (Ok(None), s)
        } else {
            match s.fetch_node(nodeno) {
                (Ok(NodeRowView::Failed), s1) => (Err(Stop::Code(ResultCode::Error)), s1),
                (Ok(NodeRowView::Missing), s1) => (Ok(None), s1),
                (Ok(NodeRowView::Blob(data)), s1) => (Ok(Some(self.node_from(nodeno, data))), s1),
                (Err(stop), s1) => (Err(stop), s1),
            }
        }
    }

    /// Reading the root, which is empty where it is not there.
    pub open spec fn load_root_node(self, s: StoreView) -> (Result<NodeView, Stop>, StoreView) {
        match s.fetch_node(1) {
            (Ok(NodeRowView::Failed), s1) => (Err(Stop::Code(ResultCode::Error)), s1),
            (Ok(NodeRowView::Missing), s1) => (
                Ok(NodeView::fresh(1, 0, self.node_size as nat)),
                s1,
            ),
            (Ok(NodeRowView::Blob(data)), s1) => (Ok(self.node_from(1, data)), s1),
            (Err(stop), s1) => (Err(stop), s1),
        }
    }

    /// Reading the parent of a node. The root has none.
    pub open spec fn get_parent_nodeno(self, s: StoreView, nodeno: i64) -> (
        Result<Option<i64>, Stop>,
        StoreView,
    ) {
        if nodeno <= 1 {
            (Ok(None), s)
        } else {
            number_outcome(s.fetch_parent(nodeno))
        }
    }

    /// Whether a node is a leaf. The root says so itself: the depth that it holds is 0. Any other
    /// node is one where it has no cells, or where its first cell is not one of its children.
    pub open spec fn is_leaf(self, s: StoreView, n: NodeView) -> (Result<bool, Stop>, StoreView) {
        let cells = self.cells(n.data);
        if n.node_no == 1 {
            (Ok(n.tree_depth() == 0), s)
        } else if cells.len() == 0 {
            (Ok(true), s)
        } else {
            match self.get_parent_nodeno(s, cells[0].rowid) {
                (Ok(parent), s1) => (Ok(parent != Some(n.node_no)), s1),
                (Err(stop), s1) => (Err(stop), s1),
            }
        }
    }

    /// Reading the node of a row.
    pub open spec fn get_rowid_nodeno(self, s: StoreView, rowid: i64) -> (
        Result<Option<i64>, Stop>,
        StoreView,
    ) {
        number_outcome(s.fetch_rowid(rowid))
    }

    /// Reading the auxiliary columns of a row. A table without any reads nothing.
    pub open spec fn read_rowid_aux_values(self, s: StoreView, rowid: i64) -> (
        Result<Seq<ValueView>, Stop>,
        StoreView,
    ) {
        if self.aux_columns.len() == 0 {
            (Ok(Seq::empty()), s)
        } else {
            match s.fetch_aux(rowid) {
                (Ok(AuxRowView::Failed), s1) => (Err(Stop::Code(ResultCode::Error)), s1),
                (Ok(AuxRowView::Missing), s1) => (Err(Stop::Code(ResultCode::NotFound)), s1),
                (Ok(AuxRowView::Values(values)), s1) => if values.len() < self.aux_columns.len() {
                    (Err(Stop::Code(ResultCode::Corrupt)), s1)
                } else {
                    (Ok(value::owned_all(values.take(self.aux_columns.len() as int))), s1)
                },
                (Err(stop), s1) => (Err(stop), s1),
            }
        }
    }

    /// Writing the node and the auxiliary columns of a row.
    pub open spec fn write_rowid_map(
        self,
        s: StoreView,
        rowid: i64,
        nodeno: i64,
        aux: Seq<ValueView>,
    ) -> (Result<(), Stop>, StoreView) {
        if aux.len() != self.aux_columns.len() {
            (Err(Stop::Code(ResultCode::InvalidArgs)), s)
        } else {
            s.issue(WriteView::Rowid { rowid, nodeno, aux: value::owned_all(aux) })
        }
    }

    /// Creating the shadow tables with an empty root.
    pub open spec fn create_shadow_tables(self, s: StoreView) -> (
        Result<(), Stop>,
        TableView,
        StoreView,
    ) {
        let ws = seq![
            WriteView::CreateNodeTable,
            WriteView::CreateRowidTable,
            WriteView::CreateParentTable,
            WriteView::Node {
                nodeno: 1,
                data: node::with_depth(node::empty_page(self.node_size as nat), 0),
            },
        ];
        match s.issue_all(ws) {
            (Ok(()), s1) => (Ok(()), TableView { node_count: 1, depth: 0, ..self }, s1),
            (Err(stop), s1) => (Err(stop), self, s1),
        }
    }

    /// A page of the table in the store is a sound one.
    pub proof fn lemma_sound_page(self, nodeno: i64, data: Seq<u8>)
        requires
            self.wf(),
            self.holds(data),
        ensures
            StoreView::sound_page(self, nodeno, NodeRowView::Blob(data)),
            bytes::fitted(data, self.node_size as nat) == data,
    {
        assert(bytes::fitted(data, self.node_size as nat) =~= data);
    }

    /// Which pages a table can work with depends on its shape alone.
    pub proof fn lemma_wf_by_shape(self, other: TableView, s: StoreView)
        requires
            s.wf(self),
            self.node_size == other.node_size,
            self.n_bytes_per_cell == other.n_bytes_per_cell,
        ensures
            s.wf(other),
    {
        assert forall|n: i64| #[trigger] s.nodes.contains_key(n) implies StoreView::sound_page(
            other,
            n,
            s.nodes[n],
        ) by {
            assert(StoreView::sound_page(self, n, s.nodes[n]));
        }
    }

    /// The page of a fresh node is a page of the table.
    pub proof fn lemma_fresh_holds(self, nodeno: i64, depth: usize)
        requires
            self.wf(),
        ensures
            self.holds(NodeView::fresh(nodeno, depth, self.node_size as nat).data),
            node::page_count(NodeView::fresh(nodeno, depth, self.node_size as nat).data) == 0,
    {
        self.lemma_room();
    }
}

impl RtreeTable {
    pub fn read_node(&self, store: &mut ShadowStore, node_no: i64) -> (r: Result<
        Option<RtreeNode>,
        Stop,
    >)
        requires
            self@.wf(),
            old(store)@.wf(self@),
        ensures
            (node_result(r), final(store)@) == self@.read_node(old(store)@, node_no),
            final(store)@.wf(self@),
            r matches Ok(Some(n)) ==> self@.holds(n.data@),
    {
        if node_no == 0 {
            return Ok(None);
        }
        match store.fetch_node(node_no) {
            Ok(NodeRow::Failed) => Err(Stop::Code(ResultCode::Error)),
            Ok(NodeRow::Missing) => Ok(None),
            Ok(NodeRow::Blob(blob)) => {
                assert(StoreView::sound_page(self@, node_no, old(store)@.nodes[node_no]));
                let depth: usize = if node_no == 1 {
                    (blob[0] as usize) * 256 + (blob[1] as usize)
                } else {
                    0
                };
                let data: Vec<u8> = bytes::fit(&blob, self.node_size);
                Ok(Some(RtreeNode { node_no, depth, data, is_dirty: false }))
            },
            Err(stop) => Err(stop),
        }
    }

    pub fn load_root_node(&self, store: &mut ShadowStore) -> (r: Result<RtreeNode, Stop>)
        requires
            self@.wf(),
            old(store)@.wf(self@),
        ensures
            (root_result(r), final(store)@) == self@.load_root_node(old(store)@),
            final(store)@.wf(self@),
            r matches Ok(n) ==> self@.holds(n.data@),
    {
        match store.fetch_node(1) {
            Ok(NodeRow::Failed) => Err(Stop::Code(ResultCode::Error)),
            Ok(NodeRow::Missing) => {
                proof {
                    self@.lemma_fresh_holds(1, 0);
                }
                Ok(RtreeNode::new(1, 0, self.node_size))
            },
            Ok(NodeRow::Blob(blob)) => {
                assert(StoreView::sound_page(self@, 1, old(store)@.nodes[1]));
                let depth: usize = (blob[0] as usize) * 256 + (blob[1] as usize);
                let data: Vec<u8> = bytes::fit(&blob, self.node_size);
                Ok(RtreeNode { node_no: 1, depth, data, is_dirty: false })
            },
            Err(stop) => Err(stop),
        }
    }

    pub fn get_parent_nodeno(&self, store: &mut ShadowStore, nodeno: i64) -> (r: Result<
        Option<i64>,
        Stop,
    >)
        ensures
            (r, final(store)@) == self@.get_parent_nodeno(old(store)@, nodeno),
    {
        if nodeno <= 1 {
            return Ok(None);
        }
        match store.fetch_parent(nodeno) {
            Ok(NumberRow::Failed) => Err(Stop::Code(ResultCode::Error)),
            Ok(NumberRow::Missing) => Ok(None),
            Ok(NumberRow::Number(n)) => Ok(Some(n)),
            Err(stop) => Err(stop),
        }
    }

    /// Whether a node is a leaf.
    pub fn is_leaf(&self, store: &mut ShadowStore, node: &RtreeNode) -> (r: Result<bool, Stop>)
        requires
            self@.wf(),
            self@.holds(node.data@),
        ensures
            (r, final(store)@) == self@.is_leaf(old(store)@, node@),
            forall|t: TableView| old(store)@.wf(t) ==> #[trigger] final(store)@.wf(t),
    {
        if node.node_no == 1 {
            return Ok(node.tree_depth() == 0);
        }
        if node.cell_count() == 0 {
            return Ok(true);
        }
        proof {
            self@.lemma_cell_inside(node.data@, 0);
        }
        let first: i64 = node.get_cell(self.n_dim2, self.n_bytes_per_cell, 0).rowid;
        match self.get_parent_nodeno(store, first) {
            Ok(Some(parent)) => Ok(parent != node.node_no),
            Ok(None) => Ok(true),
            Err(stop) => Err(stop),
        }
    }

    pub fn get_rowid_nodeno(&self, store: &mut ShadowStore, rowid: i64) -> (r: Result<
        Option<i64>,
        Stop,
    >)
        ensures
            (r, final(store)@) == self@.get_rowid_nodeno(old(store)@, rowid),
    {
        match store.fetch_rowid(rowid) {
            Ok(NumberRow::Failed) => Err(Stop::Code(ResultCode::Error)),
            Ok(NumberRow::Missing) => Ok(None),
            Ok(NumberRow::Number(n)) => Ok(Some(n)),
            Err(stop) => Err(stop),
        }
    }

    pub fn read_rowid_aux_values(&self, store: &mut ShadowStore, rowid: i64) -> (r: Result<
        Vec<Value>,
        Stop,
    >)
        ensures
            (values_result(r), final(store)@) == self@.read_rowid_aux_values(old(store)@, rowid),
            r matches Ok(values) ==> values.len() == self.aux_columns.len(),
    {
        let n: usize = self.aux_columns.len();
        if n == 0 {
            let none: Vec<Value> = Vec::new();
            assert(value::value_views(none@) =~= Seq::empty());
            return Ok(none);
        }
        match store.fetch_aux(rowid) {
            Ok(AuxRow::Failed) => Err(Stop::Code(ResultCode::Error)),
            Ok(AuxRow::Missing) => Err(Stop::Code(ResultCode::NotFound)),
            Ok(AuxRow::Values(row)) => {
                if row.len() < n {
                    return Err(Stop::Code(ResultCode::Corrupt));
                }
                let mut out: Vec<Value> = Vec::new();
                let mut i: usize = 0;
                while i < n
                    invariant
                        i <= n <= row.len(),
                        out.len() == i,
                        forall|j: int| 0 <= j < i ==> #[trigger] out@[j]@ == row@[j]@.owned(),
                    decreases n - i,
                {
                    out.push(value::value_to_owned(&row[i]));
                    i = i + 1;
                }
                assert(value::value_views(out@) =~= value::owned_all(
                    value::value_views(row@).take(n as int),
                ));
                Ok(out)
            },
            Err(stop) => Err(stop),
        }
    }

    pub fn write_node(&self, store: &mut ShadowStore, node_no: i64, node: &RtreeNode) -> (r: Result<
        (),
        Stop,
    >)
        requires
            self@.wf(),
            old(store)@.wf(self@),
            self@.holds(node.data@),
        ensures
            (r, final(store)@) == old(store)@.issue(
                WriteView::Node { nodeno: node_no, data: node.data@ },
            ),
            final(store)@.wf(self@),
    {
        proof {
            self@.lemma_sound_page(node_no, node.data@);
        }
        store.issue(Write::Node { nodeno: node_no, data: bytes::copy_bytes(&node.data) })
    }

    pub fn write_rowid_map(
        &self,
        store: &mut ShadowStore,
        rowid: i64,
        nodeno: i64,
        aux: &Vec<Value>,
    ) -> (r: Result<(), Stop>)
        ensures
            (r, final(store)@) == self@.write_rowid_map(
                old(store)@,
                rowid,
                nodeno,
                value::value_views(aux@),
            ),
            forall|t: TableView| old(store)@.wf(t) ==> #[trigger] final(store)@.wf(t),
    {
        if aux.len() != self.aux_columns.len() {
            return Err(Stop::Code(ResultCode::InvalidArgs));
        }
        store.issue(Write::Rowid { rowid, nodeno, aux: value::values_to_owned(aux) })
    }

    pub fn write_parent_map(&self, store: &mut ShadowStore, nodeno: i64, parentnode: i64) -> (r:
        Result<(), Stop>)
        ensures
            (r, final(store)@) == old(store)@.issue(WriteView::Parent { nodeno, parentnode }),
            forall|t: TableView| old(store)@.wf(t) ==> #[trigger] final(store)@.wf(t),
    {
        store.issue(Write::Parent { nodeno, parentnode })
    }

    pub fn delete_rowid_map(&self, store: &mut ShadowStore, rowid: i64) -> (r: Result<(), Stop>)
        ensures
            (r, final(store)@) == old(store)@.issue(WriteView::DeleteRowid { rowid }),
            forall|t: TableView| old(store)@.wf(t) ==> #[trigger] final(store)@.wf(t),
    {
        store.issue(Write::DeleteRowid { rowid })
    }

    pub fn delete_shadow_node_row(&self, store: &mut ShadowStore, nodeno: i64) -> (r: Result<
        (),
        Stop,
    >)
        ensures
            (r, final(store)@) == old(store)@.issue(WriteView::DeleteNode { nodeno }),
            forall|t: TableView| old(store)@.wf(t) ==> #[trigger] final(store)@.wf(t),
    {
        store.issue(Write::DeleteNode { nodeno })
    }

    pub fn delete_shadow_parent_row(&self, store: &mut ShadowStore, nodeno: i64) -> (r: Result<
        (),
        Stop,
    >)
        ensures
            (r, final(store)@) == old(store)@.issue(WriteView::DeleteParent { nodeno }),
            forall|t: TableView| old(store)@.wf(t) ==> #[trigger] final(store)@.wf(t),
    {
        store.issue(Write::DeleteParent { nodeno })
    }

    /// Creates the shadow tables with an empty root.
    pub fn create_shadow_tables(&mut self, store: &mut ShadowStore) -> (r: Result<(), Stop>)
        requires
            old(self)@.wf(),
            old(store)@.wf(old(self)@),
        ensures
            (r, final(self)@, final(store)@) == old(self)@.create_shadow_tables(old(store)@),
            final(self)@.wf(),
            final(self)@.same_shape(old(self)@),
            final(store)@.wf(final(self)@),
    {
        let mut root = RtreeNode::new(1, 0, self.node_size);
        root.set_depth(0);
        let ghost page = node::empty_page(self.node_size as nat);
        assert(root.data@ =~= node::with_depth(page, 0));
        let mut ws: Vec<Write> = Vec::new();
        ws.push(Write::CreateNodeTable);
        ws.push(Write::CreateRowidTable);
        ws.push(Write::CreateParentTable);
        ws.push(Write::Node { nodeno: 1, data: root.data });
        proof {
            let views = seq![
                WriteView::CreateNodeTable,
                WriteView::CreateRowidTable,
                WriteView::CreateParentTable,
                WriteView::Node { nodeno: 1, data: node::with_depth(page, 0) },
            ];
            assert(crate::store::write_views(ws@) =~= views);
            self@.lemma_fresh_holds(1, 0);
            self@.lemma_issue_all_wf(store@, views);
        }
        match store.issue_all(ws) {
            Ok(()) => {},
            Err(stop) => {
                return Err(stop);
            },
        }
        self.node_count = 1;
        self.depth = 0;
        proof {
            old(self)@.lemma_wf_by_shape(self@, store@);
        }
        Ok(())
    }
}

impl TableView {
    /// The change keeps every page one that the table can work with.
    pub open spec fn keeps_wf(self, w: WriteView) -> bool {
        w matches WriteView::Node { nodeno, data } ==> self.holds(data)
    }

    pub proof fn lemma_issue_wf(self, s: StoreView, w: WriteView)
        requires
            self.wf(),
            s.wf(self),
            self.keeps_wf(w),
        ensures
            s.issue(w).1.wf(self),
    {
        if let WriteView::Node { nodeno, data } = w {
            self.lemma_sound_page(nodeno, data);
        }
    }

    pub proof fn lemma_issue_all_wf(self, s: StoreView, ws: Seq<WriteView>)
        requires
            self.wf(),
            s.wf(self),
            forall|i: int| 0 <= i < ws.len() ==> #[trigger] self.keeps_wf(ws[i]),
        ensures
            s.issue_all(ws).1.wf(self),
        decreases ws.len(),
    {
        if ws.len() > 0 {
            self.lemma_issue_wf(s, ws[0]);
            if s.issue(ws[0]).0 is Ok {
                assert forall|i: int| 0 <= i < ws.drop_first().len() implies #[trigger] self.keeps_wf(
                    ws.drop_first()[i],
                ) by {
                    assert(self.keeps_wf(ws[i + 1]));
                }
                self.lemma_issue_all_wf(s.issue(ws[0]).1, ws.drop_first());
            }
        }
    }
}

} // verus!
