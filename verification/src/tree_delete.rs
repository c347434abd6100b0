//! Deleting rows: taking a cell out, detaching nodes with too few cells, reinserting what they
//! held and lowering the tree.

use vstd::prelude::*;
use crate::geometry;
use crate::node;
use crate::node::{CellView, NodeView, RtreeCell, RtreeNode};
use crate::store::{ShadowStore, Stop, StoreView, WriteView};
use crate::table;
use crate::table::{RtreeTable, TableView};
use crate::value;
use crate::value::{ResultCode, Value, ValueView};

verus! {

/// Cells of a detached node, to be inserted again `height` levels above the leaves.
#[derive(Clone, Debug)]
pub struct Detached {
    pub cells: Vec<RtreeCell>,
    pub height: usize,
}

/// The model of the cells of a detached node.
#[verifier::ext_equal]
pub struct DetachedView {
    pub cells: Seq<CellView>,
    pub height: usize,
}

impl View for Detached {
    type V = DetachedView;

    open spec fn view(&self) -> DetachedView {
        DetachedView { cells: node::cell_views(self.cells@), height: self.height }
    }
}

/// The models of the detached nodes of a list.
pub open spec fn detached_views(pending: Seq<Detached>) -> Seq<DetachedView> {
    Seq::new(pending.len(), |i: int| pending[i]@)
}

/// NULL for every auxiliary column.
pub open spec fn nulls(n: nat) -> Seq<ValueView> {
    Seq::new(n, |i: int| ValueView::Null)
}

impl TableView {
    /// Walking from a node to the root and setting the box of each node in its parent to the
    /// union of its cells. `hops` levels were climbed already.
    #[verifier::opaque]
    pub open spec fn tighten(self, s: StoreView, nodeno: i64, hops: nat) -> (
        Result<(), Stop>,
        StoreView,
    )
        decreases self.max_hops() + 1 - hops,
    {
        if hops > self.max_hops() {
            (Err(Stop::Code(ResultCode::Error)), s)
        } else {
            match self.read_node(s, nodeno) {
                (Err(stop), s1) => (Err(stop), s1),
                (Ok(None), s1) => (Ok(()), s1),
                (Ok(Some(n)), s1) => if self.cells(n.data).len() == 0 {
                    (Ok(()), s1)
                } else {
                    match self.get_parent_nodeno(s1, nodeno) {
                        (Err(stop), s2) => (Err(stop), s2),
                        (Ok(None), s2) => (Ok(()), s2),
                        (Ok(Some(parent_no)), s2) => match self.read_node(s2, parent_no) {
                            (Err(stop), s3) => (Err(stop), s3),
                            (Ok(None), s3) => (Err(Stop::Code(ResultCode::Error)), s3),
                            (Ok(Some(parent)), s3) => match table::index_of_rowid(
                                self.cells(parent.data),
                                nodeno,
                            ) {
                                None => (Err(Stop::Code(ResultCode::Error)), s3),
                                Some(idx) => match s3.issue(
                                    WriteView::Node {
                                        nodeno: parent_no,
                                        data: node::with_cell(
                                            parent.data,
                                            self.n_dim2 as nat,
                                            self.n_bytes_per_cell as nat,
                                            idx,
                                            CellView {
                                                rowid: nodeno,
                                                coords: geometry::union_of_all(
                                                    self.cells(n.data),
                                                    self.n_dim2 as nat,
                                                ).coords,
                                            },
                                        ),
                                    },
                                ) {
                                    (Err(stop), s4) => (Err(stop), s4),
                                    (Ok(()), s4) => self.tighten(s4, parent_no, hops + 1),
                                },
                            },
                        },
                    }
                },
            }
        }
    }

    /// Restoring the tree after a cell of an inner node was taken out: the boxes above it are
    /// tightened. The root may have too few cells; without any it becomes an empty leaf.
    #[verifier::opaque]
    pub open spec fn fix_inner(self, s: StoreView, nodeno: i64, guard: nat) -> (
        Result<(), Stop>,
        TableView,
        StoreView,
    ) {
        if guard + 1 > self.max_fixes() {
            (Err(Stop::Code(ResultCode::Corrupt)), self, s)
        } else {
            match self.read_node(s, nodeno) {
                (Err(stop), s1) => (Err(stop), self, s1),
                (Ok(None), s1) => (Ok(()), self, s1),
                (Ok(Some(n)), s1) => {
                    let count = node::page_count(n.data);
                    if nodeno == 1 && count == 0 {
                        self.reset_root(s1, n)
                    } else if count == 0 || (nodeno == 1 && count < self.min_cells()) {
                        (Ok(()), self, s1)
                    } else {
                        let (r, s2) = self.tighten(s1, nodeno, 0);
                        (r, self, s2)
                    }
                },
            }
        }
    }

    /// Making the root an empty leaf.
    pub open spec fn reset_root(self, s: StoreView, root: NodeView) -> (
        Result<(), Stop>,
        TableView,
        StoreView,
    ) {
        match s.issue(WriteView::Node { nodeno: 1, data: root.counted(0).deepened(0).data }) {
            (Err(stop), s1) => (Err(stop), self, s1),
            (Ok(()), s1) => (Ok(()), TableView { depth: 0, ..self }, s1),
        }
    }

    /// Restoring the tree after a cell of `nodeno`, `height` levels above the leaves, was taken
    /// out. A leaf with too few cells, other than the root, is taken out of its parent and its
    /// cells are put on the pending list.
    #[verifier::opaque]
    pub open spec fn fix(
        self,
        s: StoreView,
        nodeno: i64,
        height: nat,
        pending: Seq<DetachedView>,
        guard: nat,
    ) -> (Result<(), Stop>, TableView, StoreView, Seq<DetachedView>) {
        if guard + 1 > self.max_fixes() {
            (Err(Stop::Code(ResultCode::Corrupt)), self, s, pending)
        } else {
            match self.read_node(s, nodeno) {
                (Ok(Some(n)), s1) => if height == 0 && nodeno != 1 && node::page_count(n.data)
                    < self.min_cells() {
                    match self.detach(s1, nodeno, guard + 1) {
                        (Err(stop), t2, s2) => (Err(stop), t2, s2, pending),
                        (Ok(()), t2, s2) => (
                            Ok(()),
                            t2,
                            s2,
                            pending.push(DetachedView { cells: self.cells(n.data), height: 0 }),
                        ),
                    }
                } else {
                    let (r, t2, s2) = self.fix_inner(s, nodeno, guard);
                    (r, t2, s2, pending)
                },
                _ => {
                    let (r, t2, s2) = self.fix_inner(s, nodeno, guard);
                    (r, t2, s2, pending)
                },
            }
        }
    }

    /// The changes that drop a node.
    pub open spec fn drop_writes(nodeno: i64) -> Seq<WriteView> {
        seq![WriteView::DeleteNode { nodeno }, WriteView::DeleteParent { nodeno }]
    }

    /// Taking a node out of its parent and dropping it. The parent is restored first, unless it has
    /// no cells left and is not the root: such a parent is taken out in turn.
    #[verifier::opaque]
    pub open spec fn detach(self, s: StoreView, nodeno: i64, guard: nat) -> (
        Result<(), Stop>,
        TableView,
        StoreView,
    )
        decreases self.max_fixes() + 1 - guard,
    {
        match self.get_parent_nodeno(s, nodeno) {
            (Err(stop), s1) => (Err(stop), self, s1),
            (Ok(None), s1) => (Err(Stop::Code(ResultCode::Corrupt)), self, s1),
            (Ok(Some(parent_no)), s1) => match self.read_node(s1, parent_no) {
                (Err(stop), s2) => (Err(stop), self, s2),
                (Ok(None), s2) => (Err(Stop::Code(ResultCode::Corrupt)), self, s2),
                (Ok(Some(parent)), s2) => match table::index_of_rowid(
                    self.cells(parent.data),
                    nodeno,
                ) {
                    None => (Err(Stop::Code(ResultCode::Corrupt)), self, s2),
                    Some(idx) => {
                        let data = node::without_cell(
                            parent.data,
                            self.n_bytes_per_cell as nat,
                            idx,
                        );
                        match s2.issue(WriteView::Node { nodeno: parent_no, data }) {
                            (Err(stop), s3) => (Err(stop), self, s3),
                            (Ok(()), s3) => if parent_no != 1 && node::page_count(data) == 0 {
                                match s3.issue_all(TableView::drop_writes(nodeno)) {
                                    (Err(stop), s4) => (Err(stop), self, s4),
                                    (Ok(()), s4) => if guard + 1 > self.max_fixes() {
                                        (Err(Stop::Code(ResultCode::Corrupt)), self, s4)
                                    } else {
                                        self.detach(s4, parent_no, guard + 1)
                                    },
                                }
                            } else {
                                match self.fix_inner(s3, parent_no, guard) {
                                    (Err(stop), t4, s4) => (Err(stop), t4, s4),
                                    (Ok(()), t4, s4) => {
                                        let (r, s5) = s4.issue_all(
                                            TableView::drop_writes(nodeno),
                                        );
                                        (r, t4, s5)
                                    },
                                }
                            },
                        }
                    },
                },
            },
        }
    }

    /// The depth that a root holds once its only child is dropped: 0 where the child is a leaf.
    pub open spec fn lowered_depth(depth: nat, child_is_leaf: bool) -> nat {
        if child_is_leaf {
            0
        } else if depth > 1 {
            (depth - 1) as nat
        } else {
            1
        }
    }

    /// Lowering the tree: when the root has a single child, the child is dropped, the root holds a
    /// lower depth, and the cells of the child are put on the pending list.
    #[verifier::opaque]
    pub open spec fn collapse(self, s: StoreView, pending: Seq<DetachedView>) -> (
        Result<(), Stop>,
        TableView,
        StoreView,
        Seq<DetachedView>,
    ) {
        match self.read_node(s, 1) {
            (Err(stop), s1) => (Err(stop), self, s1, pending),
            (Ok(None), s1) => (Ok(()), self, s1, pending),
            (Ok(Some(root)), s1) => {
                if root.tree_depth() == 0 || node::page_count(root.data) != 1 {
                    (Ok(()), self, s1, pending)
                } else {
                    let child_no = self.cells(root.data)[0].rowid;
                    match self.read_node(s1, child_no) {
                        (Err(stop), s2) => (Err(stop), self, s2, pending),
                        (Ok(None), s2) => (Err(Stop::Code(ResultCode::Corrupt)), self, s2, pending),
                        (Ok(Some(child)), s2) => match self.is_leaf(s2, child) {
                            (Err(stop), s3) => (Err(stop), self, s3, pending),
                            (Ok(child_is_leaf), s3) => self.lower_root(
                                s3,
                                root,
                                child,
                                TableView::lowered_depth(root.tree_depth(), child_is_leaf),
                                pending,
                            ),
                        },
                    }
                }
            },
        }
    }

    /// Dropping the only child of the root, which is emptied and gets the given depth.
    pub open spec fn lower_root(
        self,
        s: StoreView,
        root: NodeView,
        child: NodeView,
        depth: nat,
        pending: Seq<DetachedView>,
    ) -> (Result<(), Stop>, TableView, StoreView, Seq<DetachedView>) {
        let lowered = root.counted(0).deepened(depth);
        match s.issue(WriteView::Node { nodeno: 1, data: lowered.data }) {
            (Err(stop), s1) => (Err(stop), self, s1, pending),
            (Ok(()), s1) => {
                let t1 = TableView { depth: depth as usize, ..self };
                match s1.issue_all(
                    seq![
                        WriteView::DeleteNode { nodeno: child.node_no },
                        WriteView::DeleteParent { nodeno: child.node_no },
                    ],
                ) {
                    (Err(stop), s2) => (Err(stop), t1, s2, pending),
                    (Ok(()), s2) => (
                        Ok(()),
                        t1,
                        s2,
                        pending.push(
                            DetachedView { cells: self.cells(child.data), height: depth as usize },
                        ),
                    ),
                }
            },
        }
    }

    /// Inserting one detached cell again.
    #[verifier::opaque]
    pub open spec fn reinsert_cell(self, s: StoreView, cell: CellView, height: usize) -> (
        Result<(), Stop>,
        TableView,
        StoreView,
    ) {
        if height == 0 {
            match self.read_rowid_aux_values(s, cell.rowid) {
                (Ok(aux), s1) => self.insert_leaf_row(s1, cell.rowid, cell, aux),
                (Err(Stop::Code(ResultCode::NotFound)), s1) => self.insert_leaf_row(
                    s1,
                    cell.rowid,
                    cell,
                    nulls(self.aux_columns.len()),
                ),
                (Err(stop), s1) => (Err(stop), self, s1),
            }
        } else {
            self.insert_internal(s, cell, height as nat)
        }
    }

    /// Inserting the cells of a detached node again, from the `j`-th on.
    #[verifier::opaque]
    pub open spec fn reinsert_cells(self, s: StoreView, node: DetachedView, j: int) -> (
        Result<(), Stop>,
        TableView,
        StoreView,
    )
        decreases node.cells.len() - j,
    {
        if j >= node.cells.len() {
            (Ok(()), self, s)
        } else {
            match self.reinsert_cell(s, node.cells[j], node.height) {
                (Err(stop), t1, s1) => (Err(stop), t1, s1),
                (Ok(()), t1, s1) => t1.reinsert_cells(s1, node, j + 1),
            }
        }
    }

    /// Inserting the cells of the pending list again. What came off the tree last goes back first.
    #[verifier::opaque]
    pub open spec fn reinsert_all(self, s: StoreView, pending: Seq<DetachedView>) -> (
        Result<(), Stop>,
        TableView,
        StoreView,
    )
        decreases pending.len(),
    {
        if pending.len() == 0 {
            (Ok(()), self, s)
        } else {
            match self.reinsert_cells(s, pending.last(), 0) {
                (Err(stop), t1, s1) => (Err(stop), t1, s1),
                (Ok(()), t1, s1) => t1.reinsert_all(s1, pending.drop_last()),
            }
        }
    }

    /// Taking the cell of a row out of its node. A row that is not found changes nothing.
    #[verifier::opaque]
    pub open spec fn take_out(self, s: StoreView, rowid: i64) -> (
        Result<(), Stop>,
        TableView,
        StoreView,
        Seq<DetachedView>,
    ) {
        match self.get_rowid_nodeno(s, rowid) {
            (Err(stop), s1) => (Err(stop), self, s1, Seq::empty()),
            (Ok(None), s1) => (Ok(()), self, s1, Seq::empty()),
            (Ok(Some(nodeno)), s1) => match self.read_node(s1, nodeno) {
                (Err(stop), s2) => (Err(stop), self, s2, Seq::empty()),
                (Ok(None), s2) => (Ok(()), self, s2, Seq::empty()),
                (Ok(Some(n)), s2) => match table::index_of_rowid(self.cells(n.data), rowid) {
                    None => (Ok(()), self, s2, Seq::empty()),
                    Some(idx) => match s2.issue(
                        WriteView::Node {
                            nodeno,
                            data: node::without_cell(n.data, self.n_bytes_per_cell as nat, idx),
                        },
                    ) {
                        (Err(stop), s3) => (Err(stop), self, s3, Seq::empty()),
                        (Ok(()), s3) => self.fix(s3, nodeno, 0, Seq::empty(), 0),
                    },
                },
            },
        }
    }

    /// The first half of a deletion: the cell of the row is taken out, the row is forgotten and
    /// the tree is lowered where it can be. What came off the tree is on the pending list.
    #[verifier::opaque]
    pub open spec fn unlink(self, s: StoreView, rowid: i64) -> (
        Result<(), Stop>,
        TableView,
        StoreView,
        Seq<DetachedView>,
    ) {
        match self.take_out(s, rowid) {
            (Err(stop), t1, s1, p1) => (Err(stop), t1, s1, p1),
            (Ok(()), t1, s1, p1) => match s1.issue(WriteView::DeleteRowid { rowid }) {
                (Err(stop), s2) => (Err(stop), t1, s2, p1),
                (Ok(()), s2) => t1.collapse(s2, p1),
            },
        }
    }

    /// Deleting a row: unlinking it, then inserting again what came off the tree.
    pub open spec fn delete(self, s: StoreView, rowid: i64) -> (
        Result<(), Stop>,
        TableView,
        StoreView,
    ) {
        if !s.connected {
            (Err(Stop::Code(ResultCode::InvalidArgs)), self, s)
        } else {
            match self.unlink(s, rowid) {
                (Err(stop), t1, s1, _) => (Err(stop), t1, s1),
                (Ok(()), t1, s1, p1) => t1.reinsert_all(s1, p1),
            }
        }
    }

    /// Node numbers are left for `k` splits.
    pub open spec fn numbers_left(self, k: int) -> bool {
        self.node_count + 2 * k + 8 <= i64::MAX
    }

    /// Deleting the page's own cell keeps a page one of the table.
    pub proof fn lemma_without_holds(self, data: Seq<u8>, i: int)
        requires
            self.wf(),
            self.holds(data),
            0 <= i < node::page_count(data),
        ensures
            self.holds(node::without_cell(data, self.n_bytes_per_cell as nat, i)),
    {
        self.lemma_room();
        crate::page_laws::lemma_delete_cell(
            data,
            self.n_dim2 as nat,
            self.n_bytes_per_cell as nat,
            i,
        );
    }
}

impl RtreeTable {
    /// Walks toward the root and replaces the box of each node in its parent with the tight union
    /// of the cells of the node.
    pub fn tighten_ancestry_mbr(&self, store: &mut ShadowStore, nodeno: i64) -> (r: Result<
        (),
        Stop,
    >)
        requires
            self@.wf(),
            old(store)@.wf(self@),
        ensures
            (r, final(store)@) == self@.tighten(old(store)@, nodeno, 0),
            final(store)@.wf(self@),
    {
        let mut current: i64 = nodeno;
        let limit: u64 = self.max_hops();
        let mut hops: u64 = 0;
        loop
            invariant
                self@.wf(),
                store@.wf(self@),
                limit == self@.max_hops(),
                hops <= limit + 1,
                self@.tighten(store@, current, hops as nat) == self@.tighten(
                    old(store)@,
                    nodeno,
                    0,
                ),
            decreases limit + 1 - hops,
        {
            reveal(TableView::tighten);
            if hops > limit {
                return Err(Stop::Code(ResultCode::Error));
            }
            let node: RtreeNode = match self.read_node(store, current) {
                Ok(Some(node)) => node,
                Ok(None) => {
                    return Ok(());
                },
                Err(stop) => {
                    return Err(stop);
                },
            };
            let tight: RtreeCell = match geometry::union_mbr_of_node_cells(
                self,
                &node,
                self.n_dim2,
            ) {
                Some(tight) => tight,
                None => {
                    return Ok(());
                },
            };
            let parent_no: i64 = match self.get_parent_nodeno(store, current) {
                Ok(Some(parent_no)) => parent_no,
                Ok(None) => {
                    return Ok(());
                },
                Err(stop) => {
                    return Err(stop);
                },
            };
            let mut parent: RtreeNode = match self.read_node(store, parent_no) {
                Ok(Some(parent)) => parent,
                Ok(None) => {
                    return Err(Stop::Code(ResultCode::Error));
                },
                Err(stop) => {
                    return Err(stop);
                },
            };
            let idx: usize = match self.find_cell_index(&parent, current) {
                Some(idx) => idx,
                None => {
                    return Err(Stop::Code(ResultCode::Error));
                },
            };
            let pointer = RtreeCell { rowid: current, coords: tight.coords };
            proof {
                self@.lemma_cell_inside(parent.data@, idx as int);
                self@.lemma_set_holds(parent.data@, idx as int, pointer@);
            }
            parent.set_cell(self.n_dim2, self.n_bytes_per_cell, idx, &pointer);
            match self.write_node(store, parent_no, &parent) {
                Ok(()) => {},
                Err(stop) => {
                    return Err(stop);
                },
            }
            current = parent_no;
            hops = hops + 1;
        }
    }

    /// The cells of a node.
    fn cells_of(&self, node: &RtreeNode) -> (r: Vec<RtreeCell>)
        requires
            self@.wf(),
            self@.holds(node.data@),
        ensures
            node::cell_views(r@) == self@.cells(node.data@),
    {
        let n: usize = node.cell_count();
        let ghost cells = self@.cells(node.data@);
        let mut out: Vec<RtreeCell> = Vec::new();
        let mut i: usize = 0;
        while i < n
            invariant
                self@.wf(),
                self@.holds(node.data@),
                cells == self@.cells(node.data@),
                n == cells.len(),
                i <= n,
                out.len() == i,
                forall|j: int| 0 <= j < i ==> #[trigger] out@[j]@ == cells[j],
            decreases n - i,
        {
            proof {
                self@.lemma_cell_inside(node.data@, i as int);
            }
            out.push(node.get_cell(self.n_dim2, self.n_bytes_per_cell, i));
            i = i + 1;
        }
        assert(node::cell_views(out@) =~= cells);
        out
    }

    /// Restores the tree after a cell of an inner node was taken out, or one of a leaf that has
    /// enough cells left.
    fn fix_inner(&mut self, store: &mut ShadowStore, nodeno: i64, guard: u64) -> (r: Result<(), Stop>)
        requires
            old(self)@.wf(),
            old(store)@.wf(old(self)@),
            guard < u64::MAX,
        ensures
            (r, final(self)@, final(store)@) == old(self)@.fix_inner(
                old(store)@,
                nodeno,
                guard as nat,
            ),
            final(self)@.wf(),
            final(self)@.same_shape(old(self)@),
            final(store)@.wf(final(self)@),
            final(self).node_count == old(self).node_count,
    {
        reveal(TableView::fix_inner);
        let ghost t = self@;
        if guard + 1 > self.max_fixes() {
            return Err(Stop::Code(ResultCode::Corrupt));
        }
        let mut node: RtreeNode = match self.read_node(store, nodeno) {
            Ok(Some(node)) => node,
            Ok(None) => {
                return Ok(());
            },
            Err(stop) => {
                return Err(stop);
            },
        };
        let n: usize = node.cell_count();
        if nodeno == 1 && n == 0 {
            proof {
                t.lemma_room();
                node::lemma_count_round_trip(node.data@, 0);
                node::lemma_depth_round_trip(node::with_count(node.data@, 0), 0);
            }
            node.set_cell_count(0);
            node.set_depth(0);
            match self.write_node(store, 1, &node) {
                Ok(()) => {},
                Err(stop) => {
                    return Err(stop);
                },
            }
            self.depth = 0;
            proof {
                t.lemma_wf_by_shape(self@, store@);
            }
            return Ok(());
        }
        if n == 0 || (nodeno == 1 && n < self.min_cells()) {
            return Ok(());
        }
        self.tighten_ancestry_mbr(store, nodeno)
    }

    /// Takes a node out of its parent and drops it. A parent other than the root that has no cells
    /// left is taken out in turn.
    fn detach(&mut self, store: &mut ShadowStore, nodeno: i64, guard: u64) -> (r: Result<(), Stop>)
        requires
            old(self)@.wf(),
            old(store)@.wf(old(self)@),
            guard <= old(self)@.max_fixes(),
        ensures
            (r, final(self)@, final(store)@) == old(self)@.detach(
                old(store)@,
                nodeno,
                guard as nat,
            ),
            final(self)@.wf(),
            final(self)@.same_shape(old(self)@),
            final(store)@.wf(final(self)@),
            final(self).node_count == old(self).node_count,
        decreases old(self)@.max_fixes() - guard,
    {
        reveal(TableView::detach);
        let parent_no: i64 = match self.get_parent_nodeno(store, nodeno) {
            Ok(Some(parent_no)) => parent_no,
            Ok(None) => {
                return Err(Stop::Code(ResultCode::Corrupt));
            },
            Err(stop) => {
                return Err(stop);
            },
        };
        let mut parent: RtreeNode = match self.read_node(store, parent_no) {
            Ok(Some(parent)) => parent,
            Ok(None) => {
                return Err(Stop::Code(ResultCode::Corrupt));
            },
            Err(stop) => {
                return Err(stop);
            },
        };
        let idx: usize = match self.find_cell_index(&parent, nodeno) {
            Some(idx) => idx,
            None => {
                return Err(Stop::Code(ResultCode::Corrupt));
            },
        };
        self.delete_cell_from_node(&mut parent, idx);
        match self.write_node(store, parent_no, &parent) {
            Ok(()) => {},
            Err(stop) => {
                return Err(stop);
            },
        }
        if parent_no != 1 && parent.cell_count() == 0 {
            match self.drop_node_rows(store, nodeno) {
                Ok(()) => {},
                Err(stop) => {
                    return Err(stop);
                },
            }
            if guard + 1 > self.max_fixes() {
                return Err(Stop::Code(ResultCode::Corrupt));
            }
            return self.detach(store, parent_no, guard + 1);
        }
        match self.fix_inner(store, parent_no, guard) {
            Ok(()) => {},
            Err(stop) => {
                return Err(stop);
            },
        }
        self.drop_node_rows(store, nodeno)
    }

    /// After removing a cell, enforces the minimum fill: detaches a leaf with too few cells, and the
    /// nodes above it that have none left, then queues the cells of the leaf for reinsertion.
    pub fn fix_after_cell_removal(
        &mut self,
        store: &mut ShadowStore,
        nodeno: i64,
        height: usize,
        pending: &mut Vec<Detached>,
        depth_guard: &mut usize,
    ) -> (r: Result<(), Stop>)
        requires
            old(self)@.wf(),
            old(store)@.wf(old(self)@),
            *old(depth_guard) < usize::MAX,
        ensures
            (r, final(self)@, final(store)@, detached_views(final(pending)@)) == old(self)@.fix(
                old(store)@,
                nodeno,
                height as nat,
                detached_views(old(pending)@),
                *old(depth_guard) as nat,
            ),
            final(self)@.wf(),
            final(self)@.same_shape(old(self)@),
            final(store)@.wf(final(self)@),
            final(self).node_count == old(self).node_count,
            *final(depth_guard) == *old(depth_guard) + 1,
            final(pending)@.len() <= old(pending)@.len() + 1,
            old(pending)@.len() <= final(pending)@.len(),
            forall|i: int| 0 <= i < old(pending)@.len() ==> final(pending)@[i] == old(pending)@[i],
            forall|i: int|
                old(pending)@.len() <= i < final(pending)@.len() ==>
                    #[trigger] final(pending)@[i].cells.len() <= old(self)@.max_cells(),
    {
        reveal(TableView::fix);
        let guard: u64 = *depth_guard as u64;
        *depth_guard = *depth_guard + 1;
        if guard + 1 > self.max_fixes() {
            return Err(Stop::Code(ResultCode::Corrupt));
        }
        if height == 0 && nodeno != 1 {
            match self.read_node(store, nodeno) {
                Ok(Some(node)) => {
                    if node.cell_count() < self.min_cells() {
                        let cells: Vec<RtreeCell> = self.cells_of(&node);
                        assert(cells.len() == node::cell_views(cells@).len());
                        match self.detach(store, nodeno, guard + 1) {
                            Ok(()) => {},
                            Err(stop) => {
                                return Err(stop);
                            },
                        }
                        let ghost before = pending@;
                        let detached = Detached { cells, height };
                        pending.push(detached);
                        assert(detached_views(pending@) =~= detached_views(before).push(detached@));
                        return Ok(());
                    }
                },
                Ok(None) => {
                    assert(store@ == old(store)@);
                },
                Err(stop) => {
                    reveal(TableView::fix_inner);
                    return Err(stop);
                },
            }
        }
        assert(store@ == old(store)@);
        self.fix_inner(store, nodeno, guard)
    }

    /// Drops the page of a node and its entry in the parent map.
    fn drop_node_rows(&self, store: &mut ShadowStore, nodeno: i64) -> (r: Result<(), Stop>)
        ensures
            (r, final(store)@) == old(store)@.issue_all(
                seq![WriteView::DeleteNode { nodeno }, WriteView::DeleteParent { nodeno }],
            ),
            forall|t: TableView| old(store)@.wf(t) ==> #[trigger] final(store)@.wf(t),
    {
        reveal_with_fuel(StoreView::issue_all, 3);
        let ghost ws = seq![WriteView::DeleteNode { nodeno }, WriteView::DeleteParent { nodeno }];
        assert(ws.drop_first() =~= seq![WriteView::DeleteParent { nodeno }]);
        assert(ws.drop_first().drop_first() =~= Seq::empty());
        match self.delete_shadow_node_row(store, nodeno) {
            Ok(()) => {},
            Err(stop) => {
                return Err(stop);
            },
        }
        self.delete_shadow_parent_row(store, nodeno)
    }

    /// If the root has exactly one subtree after deletes, detaches that child, drops its rows,
    /// lowers the stored depth, and queues its cells for reinsertion.
    pub fn maybe_collapse_root_single_child(
        &mut self,
        store: &mut ShadowStore,
        pending: &mut Vec<Detached>,
    ) -> (r: Result<(), Stop>)
        requires
            old(self)@.wf(),
            old(store)@.wf(old(self)@),
        ensures
            (r, final(self)@, final(store)@, detached_views(final(pending)@))
                == old(self)@.collapse(old(store)@, detached_views(old(pending)@)),
            final(self)@.wf(),
            final(self)@.same_shape(old(self)@),
            final(store)@.wf(final(self)@),
            final(self).node_count == old(self).node_count,
            final(pending)@.len() <= old(pending)@.len() + 1,
            old(pending)@.len() <= final(pending)@.len(),
            forall|i: int| 0 <= i < old(pending)@.len() ==> final(pending)@[i] == old(pending)@[i],
            forall|i: int|
                old(pending)@.len() <= i < final(pending)@.len() ==>
                    #[trigger] final(pending)@[i].cells.len() <= old(self)@.max_cells(),
    {
        reveal(TableView::collapse);
        let ghost t = self@;
        let mut root: RtreeNode = match self.read_node(store, 1) {
            Ok(Some(root)) => root,
            Ok(None) => {
                return Ok(());
            },
            Err(stop) => {
                return Err(stop);
            },
        };
        let depth: usize = root.tree_depth();
        if depth == 0 || root.cell_count() != 1 {
            return Ok(());
        }
        proof {
            t.lemma_cell_inside(root.data@, 0);
        }
        let child_no: i64 = root.get_cell(self.n_dim2, self.n_bytes_per_cell, 0).rowid;
        let child: RtreeNode = match self.read_node(store, child_no) {
            Ok(Some(child)) => child,
            Ok(None) => {
                return Err(Stop::Code(ResultCode::Corrupt));
            },
            Err(stop) => {
                return Err(stop);
            },
        };
        let lowered: usize = match self.is_leaf(store, &child) {
            Ok(true) => 0,
            Ok(false) => if depth > 1 {
                depth - 1
            } else {
                1
            },
            Err(stop) => {
                return Err(stop);
            },
        };
        let cells: Vec<RtreeCell> = self.cells_of(&child);
        assert(cells.len() == node::cell_views(cells@).len());
        proof {
            t.lemma_room();
            node::lemma_count_round_trip(root.data@, 0);
            node::lemma_depth_round_trip(node::with_count(root.data@, 0), lowered as nat);
        }
        root.set_cell_count(0);
        root.set_depth(lowered);
        match self.write_node(store, 1, &root) {
            Ok(()) => {},
            Err(stop) => {
                return Err(stop);
            },
        }
        self.depth = lowered;
        proof {
            t.lemma_wf_by_shape(self@, store@);
        }
        match self.drop_node_rows(store, child_no) {
            Ok(()) => {},
            Err(stop) => {
                return Err(stop);
            },
        }
        let ghost before = pending@;
        let detached = Detached { cells, height: lowered };
        pending.push(detached);
        assert(detached_views(pending@) =~= detached_views(before).push(detached@));
        Ok(())
    }

    /// Inserts one detached cell again.
    fn reinsert_cell(&mut self, store: &mut ShadowStore, cell: &RtreeCell, height: usize) -> (r:
        Result<(), Stop>)
        requires
            old(self)@.wf(),
            old(store)@.wf(old(self)@),
            old(self).node_count <= i64::MAX - 2,
        ensures
            (r, final(self)@, final(store)@) == old(self)@.reinsert_cell(
                old(store)@,
                cell@,
                height,
            ),
            final(self)@.wf(),
            final(self)@.same_shape(old(self)@),
            final(store)@.wf(final(self)@),
            final(self).node_count <= old(self).node_count + 2 || final(self).node_count <= 3,
    {
        reveal(TableView::reinsert_cell);
        if height > 0 {
            return self.insert_internal_cell_at_height(store, cell, height);
        }
        let aux: Vec<Value> = match self.read_rowid_aux_values(store, cell.rowid) {
            Ok(aux) => aux,
            Err(Stop::Code(ResultCode::NotFound)) => {
                let n: usize = self.aux_columns.len();
                let mut aux: Vec<Value> = Vec::new();
                while aux.len() < n
                    invariant
                        aux.len() <= n,
                        forall|j: int| 0 <= j < aux.len() ==> aux@[j] is Null,
                    decreases n - aux.len(),
                {
                    aux.push(Value::Null);
                }
                assert(value::value_views(aux@) =~= nulls(n as nat));
                aux
            },
            Err(stop) => {
                return Err(stop);
            },
        };
        self.insert_leaf_row(store, cell.rowid, cell, &aux)
    }

    /// Inserts the cells of a detached node again.
    fn reinsert_cells(&mut self, store: &mut ShadowStore, node: &Detached) -> (r: Result<(), Stop>)
        requires
            old(self)@.wf(),
            old(store)@.wf(old(self)@),
            old(self)@.numbers_left(node.cells.len() as int),
        ensures
            (r, final(self)@, final(store)@) == old(self)@.reinsert_cells(old(store)@, node@, 0),
            final(self)@.wf(),
            final(self)@.same_shape(old(self)@),
            final(store)@.wf(final(self)@),
            final(self).node_count <= old(self).node_count + 2 * node.cells.len()
                || final(self).node_count <= 3 + 2 * node.cells.len(),
    {
        let n: usize = node.cells.len();
        let mut j: usize = 0;
        while j < n
            invariant
                n == node.cells.len(),
                j <= n,
                self@.wf(),
                store@.wf(self@),
                old(self)@.numbers_left(n as int),
                self@.same_shape(old(self)@),
                self.node_count <= old(self).node_count + 2 * j || self.node_count <= 3 + 2 * j,
                old(self).node_count >= 0,
                self@.reinsert_cells(store@, node@, j as int) == old(self)@.reinsert_cells(
                    old(store)@,
                    node@,
                    0,
                ),
            decreases n - j,
        {
            reveal(TableView::reinsert_cells);
            assert(node@.cells[j as int] == node.cells@[j as int]@);
            match self.reinsert_cell(store, &node.cells[j], node.height) {
                Ok(()) => {},
                Err(stop) => {
                    return Err(stop);
                },
            }
            j = j + 1;
        }
        reveal(TableView::reinsert_cells);
        Ok(())
    }

    /// Takes the cell of a row out of its node.
    fn take_out(&mut self, store: &mut ShadowStore, rowid: i64, pending: &mut Vec<Detached>) -> (r:
        Result<(), Stop>)
        requires
            old(self)@.wf(),
            old(store)@.wf(old(self)@),
            old(pending)@.len() == 0,
        ensures
            (r, final(self)@, final(store)@, detached_views(final(pending)@))
                == old(self)@.take_out(old(store)@, rowid),
            final(self)@.wf(),
            final(self)@.same_shape(old(self)@),
            final(store)@.wf(final(self)@),
            final(self).node_count == old(self).node_count,
            final(pending)@.len() <= 1,
            forall|i: int|
                0 <= i < final(pending)@.len() ==>
                    #[trigger] final(pending)@[i].cells.len() <= old(self)@.max_cells(),
    {
        reveal(TableView::take_out);
        assert(detached_views(pending@) =~= Seq::empty());
        let nodeno: i64 = match self.get_rowid_nodeno(store, rowid) {
            Ok(Some(nodeno)) => nodeno,
            Ok(None) => {
                return Ok(());
            },
            Err(stop) => {
                return Err(stop);
            },
        };
        let mut node: RtreeNode = match self.read_node(store, nodeno) {
            Ok(Some(node)) => node,
            Ok(None) => {
                return Ok(());
            },
            Err(stop) => {
                return Err(stop);
            },
        };
        let cell_idx: usize = match self.find_cell_index(&node, rowid) {
            Some(cell_idx) => cell_idx,
            None => {
                return Ok(());
            },
        };
        self.delete_cell_from_node(&mut node, cell_idx);
        match self.write_node(store, nodeno, &node) {
            Ok(()) => {},
            Err(stop) => {
                return Err(stop);
            },
        }
        let mut depth_guard: usize = 0;
        self.fix_after_cell_removal(store, nodeno, 0, pending, &mut depth_guard)
    }

    /// Deletes a row.
    pub fn delete(&mut self, store: &mut ShadowStore, rowid: i64) -> (r: Result<(), Stop>)
        requires
            old(self)@.wf(),
            old(store)@.wf(old(self)@),
            old(self)@.numbers_left((2 * old(self)@.max_cells()) as int),
        ensures
            (r, final(self)@, final(store)@) == old(self)@.delete(old(store)@, rowid),
            final(self)@.wf(),
            final(self)@.same_shape(old(self)@),
            final(store)@.wf(final(self)@),
            final(self).node_count <= old(self).node_count + 4 * old(self)@.max_cells()
                || final(self).node_count <= 3 + 4 * old(self)@.max_cells(),
    {
        if !store.connected {
            return Err(Stop::Code(ResultCode::InvalidArgs));
        }
        let mut pending: Vec<Detached> = Vec::new();
        assert(store@.connected);
        reveal(TableView::unlink);
        match self.take_out(store, rowid, &mut pending) {
            Ok(()) => {},
            Err(stop) => {
                return Err(stop);
            },
        }
        match self.delete_rowid_map(store, rowid) {
            Ok(()) => {},
            Err(stop) => {
                return Err(stop);
            },
        }
        match self.maybe_collapse_root_single_child(store, &mut pending) {
            Ok(()) => {},
            Err(stop) => {
                return Err(stop);
            },
        }
        let ghost max = old(self)@.max_cells() as int;
        proof {
            old(self)@.lemma_room();
        }
        let ghost t1 = self@;
        let ghost mut done: int = 0;
        while pending.len() > 0
            invariant
                0 <= done,
                pending.len() + done <= 2,
                forall|k: int| 0 <= k < pending@.len() ==> #[trigger] pending@[k].cells.len() <= max,
                t1.numbers_left(2 * max),
                self@.wf(),
                store@.wf(self@),
                self.node_count <= t1.node_count + 2 * max * done || self.node_count <= 3 + 2 * max
                    * done,
                0 <= max <= 251,
                old(self)@.delete(old(store)@, rowid) == self@.reinsert_all(
                    store@,
                    detached_views(pending@),
                ),
                t1.node_count == old(self).node_count,
                max == old(self)@.max_cells(),
                self@.same_shape(old(self)@),
            decreases pending.len(),
        {
            reveal(TableView::reinsert_all);
            let ghost all = detached_views(pending@);
            let ghost held = pending@;
            match pending.pop() {
                None => {
                    return Ok(());
                },
                Some(detached) => {
                    proof {
                        assert(detached == held.last());
                        assert(all.last() == detached@);
                        assert(all.drop_last() =~= detached_views(pending@));
                        if done == 0 {
                            assert(2 * max * done == 0) by (nonlinear_arith)
                                requires
                                    done == 0,
                            ;
                        } else {
                            assert(2 * max * done == 2 * max) by (nonlinear_arith)
                                requires
                                    done == 1,
                            ;
                        }
                        assert(2 * max * (done + 1) == 2 * max * done + 2 * max)
                            by (nonlinear_arith);
                        assert(held[held.len() - 1].cells.len() <= max);
                        assert forall|k: int| 0 <= k < pending@.len() implies #[trigger] pending@[k].cells.len()
                            <= max by {
                            assert(held[k].cells.len() <= max);
                        }
                    }
                    match self.reinsert_cells(store, &detached) {
                        Ok(()) => {},
                        Err(stop) => {
                            return Err(stop);
                        },
                    }
                },
            }
            proof {
                done = done + 1;
            }
        }
        reveal(TableView::reinsert_all);
        assert(2 * max * done <= 4 * max) by (nonlinear_arith)
            requires
                0 <= done <= 2,
                max >= 0,
        ;
        Ok(())
    }
}

} // verus!
