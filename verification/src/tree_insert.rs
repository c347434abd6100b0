//! Descending the tree and inserting rows.

use vstd::prelude::*;
use crate::bytes;
use crate::coord::Area;
use crate::geometry;
use crate::node;
use crate::node::{CellView, NodeView, RtreeCell, RtreeNode};
use crate::split;
use crate::store;
use crate::store::{
    Division, Rating, RatingView, ShadowStore, Stop, StoreView, Write, WriteView,
};
use crate::table;
use crate::table::{RtreeTable, TableView};
use crate::tree_read;
use crate::value;
use crate::value::{ResultCode, Value, ValueView};

verus! {

/// Asking for the areas of the boxes from the `i`-th on, behind those known already.
pub open spec fn areas_from(s: StoreView, cells: Seq<CellView>, i: int, known: Seq<Area>) -> (
    Result<Seq<Area>, Stop>,
    StoreView,
)
    decreases cells.len() - i,
{
    if i >= cells.len() {
        (Ok(known), s)
    } else {
        match s.fetch_area(cells[i].coords) {
            (Ok(area), s1) => areas_from(s1, cells, i + 1, known.push(area)),
            (Err(stop), s1) => (Err(stop), s1),
        }
    }
}

/// The model of a list of areas.
pub open spec fn areas_result(r: Result<Vec<Area>, Stop>) -> Result<Seq<Area>, Stop> {
    match r {
        Ok(areas) => Ok(areas@),
        Err(stop) => Err(stop),
    }
}

impl TableView {
    /// Descending `remaining` levels from `current`, each time to the child with the smallest box.
    /// `depth` is the depth of the tree from `current` on. A child whose page cannot be read
    /// counts as an empty node; from a node without cells there is no way down.
    #[verifier::opaque]
    pub open spec fn descend(
        self,
        s: StoreView,
        current: NodeView,
        n_dim2: nat,
        depth: nat,
        remaining: nat,
    ) -> (Result<Option<NodeView>, Stop>, StoreView)
        decreases remaining,
    {
        let cells = node::page_cells(current.data, n_dim2, self.n_bytes_per_cell as nat);
        if remaining == 0 {
            (Ok(Some(current)), s)
        } else if cells.len() == 0 {
            (Ok(None), s)
        } else {
            match areas_from(s, cells, 0, Seq::empty()) {
                (Err(stop), s1) => (Err(stop), s1),
                (Ok(areas), s1) => {
                    let child = cells[geometry::best_child(areas)].rowid;
                    let below = if depth > 0 {
                        (depth - 1) as nat
                    } else {
                        0
                    };
                    let empty = NodeView::fresh(child, below as usize, self.node_size as nat);
                    let rest = (remaining - 1) as nat;
                    if !s1.connected {
                        self.descend(s1, empty, n_dim2, below, rest)
                    } else {
                        match self.read_node(s1, child) {
                            (Err(Stop::Wait), s2) => (Err(Stop::Wait), s2),
                            (Ok(Some(next)), s2) => self.descend(s2, next, n_dim2, below, rest),
                            (_, s2) => self.descend(s2, empty, n_dim2, below, rest),
                        }
                    }
                },
            }
        }
    }

    /// Descending from `current`, one level after the other, until a leaf is reached, through at
    /// most `left` levels.
    #[verifier::opaque]
    pub open spec fn reach_leaf(self, s: StoreView, current: NodeView, n_dim2: nat, left: nat) -> (
        Result<Option<NodeView>, Stop>,
        StoreView,
    )
        decreases left,
    {
        match self.is_leaf(s, current) {
            (Err(stop), s1) => (Err(stop), s1),
            (Ok(true), s1) => (Ok(Some(current)), s1),
            (Ok(false), s1) => if left == 0 {
                (Err(Stop::Code(ResultCode::Corrupt)), s1)
            } else {
                match self.descend(s1, current, n_dim2, current.tree_depth(), 1) {
                    (Ok(Some(next)), s2) => self.reach_leaf(s2, next, n_dim2, (left - 1) as nat),
                    (r, s2) => (r, s2),
                }
            },
        }
    }

    /// The leaf that a new row goes to. There is none when the root cannot be read or a node on
    /// the way down has no cells. Without a connection the root is empty.
    #[verifier::opaque]
    pub open spec fn choose_leaf(self, s: StoreView, n_dim2: nat) -> (
        Result<Option<NodeView>, Stop>,
        StoreView,
    ) {
        let (root, s1) = if s.connected {
            self.load_root_node(s)
        } else {
            (Ok(NodeView::fresh(1, 0, self.node_size as nat)), s)
        };
        match root {
            Err(Stop::Wait) => (Err(Stop::Wait), s1),
            Err(Stop::Code(_)) => (Ok(None), s1),
            Ok(r) => self.reach_leaf(s1, r, n_dim2, self.max_hops()),
        }
    }

    /// Walking from a node to the root and widening the box of each node in its parent until it
    /// covers the cells of the node. `hops` levels were climbed already.
    #[verifier::opaque]
    pub open spec fn adjust(self, s: StoreView, nodeno: i64, hops: nat) -> (
        Result<(), Stop>,
        StoreView,
    )
        decreases self.max_hops() + 1 - hops,
    {
        if hops > self.max_hops() {
            (Err(Stop::Code(ResultCode::Error)), s)
        } else {
            match self.read_node(s, nodeno) {
                (Err(stop), s1) => (Err(stop), s1),
                (Ok(None), s1) => (Ok(()), s1),
                (Ok(Some(n)), s1) => if self.cells(n.data).len() == 0 {
                    (Ok(()), s1)
                } else {
                    match self.get_parent_nodeno(s1, nodeno) {
                        (Err(stop), s2) => (Err(stop), s2),
                        (Ok(None), s2) => (Ok(()), s2),
                        (Ok(Some(parent_no)), s2) => match self.read_node(s2, parent_no) {
                            (Err(stop), s3) => (Err(stop), s3),
                            (Ok(None), s3) => (Err(Stop::Code(ResultCode::Error)), s3),
                            (Ok(Some(parent)), s3) => match table::index_of_rowid(
                                self.cells(parent.data),
                                nodeno,
                            ) {
                                None => (Err(Stop::Code(ResultCode::Error)), s3),
                                Some(idx) => {
                                    let held = self.cells(parent.data)[idx];
                                    let needed = geometry::union_of_all(
                                        self.cells(n.data),
                                        self.n_dim2 as nat,
                                    );
                                    if geometry::covers(held, needed, self.n_dim2 as nat) {
                                        self.adjust(s3, parent_no, hops + 1)
                                    } else {
                                        match s3.issue(
                                            WriteView::Node {
                                                nodeno: parent_no,
                                                data: node::with_cell(
                                                    parent.data,
                                                    self.n_dim2 as nat,
                                                    self.n_bytes_per_cell as nat,
                                                    idx,
                                                    geometry::union_of(
                                                        held,
                                                        needed,
                                                        self.n_dim2 as nat,
                                                    ),
                                                ),
                                            },
                                        ) {
                                            (Err(stop), s4) => (Err(stop), s4),
                                            (Ok(()), s4) => self.adjust(s4, parent_no, hops + 1),
                                        }
                                    }
                                },
                            },
                        },
                    }
                },
            }
        }
    }

    /// The two children of a split node, with the numbers `left_no` and the one behind it, as the
    /// only cells of the node. The root grows by one level.
    pub open spec fn promoted(
        self,
        n: NodeView,
        left: NodeView,
        right: NodeView,
        left_no: i64,
    ) -> NodeView {
        let n_dim2 = self.n_dim2 as nat;
        let width = self.n_bytes_per_cell as nat;
        let two = n.placed(
            n_dim2,
            width,
            0,
            geometry::box_around(self.cells(left.data), left_no, n_dim2),
        ).placed(
            n_dim2,
            width,
            1,
            geometry::box_around(self.cells(right.data), (left_no + 1) as i64, n_dim2),
        ).counted(2);
        two.deepened(two.tree_depth() + 1)
    }

    /// The node of each listed row becomes `nodeno`.
    pub open spec fn moves(self, cells: Seq<CellView>, nodeno: i64) -> Seq<WriteView> {
        Seq::new(cells.len(), |i: int| WriteView::MoveRow { rowid: cells[i].rowid, nodeno })
    }

    /// Asking for the ratings of the axes that a node and one more cell can be split along, from
    /// axis `d` on.
    #[verifier::opaque]
    pub open spec fn rate_axes(
        self,
        s: StoreView,
        n: NodeView,
        cell: CellView,
        d: nat,
        known: Seq<RatingView>,
    ) -> (Result<Seq<RatingView>, Stop>, StoreView)
        decreases self.n_dim2 - d,
    {
        let n_dim2 = self.n_dim2 as nat;
        if d >= n_dim2 / 2 {
            (Ok(known), s)
        } else {
            let cells = split::arranged(split::all_cells(self, n, cell, n_dim2), d as int);
            match s.rate(split::divisions(cells, self.min_cells(), n_dim2)) {
                (Err(stop), s1) => (Err(stop), s1),
                (Ok(rating), s1) => self.rate_axes(s1, n, cell, d + 1, known.push(rating)),
            }
        }
    }

    /// Splitting a full leaf that one more cell goes to: two new nodes below it, with the numbers
    /// `left_no` and the one behind it, take over its rows. Gives the node that the cell is in.
    #[verifier::opaque]
    pub open spec fn split_leaf(self, s: StoreView, n: NodeView, cell: CellView, left_no: i64) -> (
        Result<i64, Stop>,
        StoreView,
    ) {
        match self.rate_axes(s, n, cell, 0, Seq::empty()) {
            (Err(stop), s1) => (Err(stop), s1),
            (Ok(ratings), s1) => self.divide_leaf(s1, n, cell, left_no, ratings),
        }
    }

    /// The half of a split that holds the row.
    pub open spec fn half_of(self, left: NodeView, rowid: i64, left_no: i64) -> i64 {
        if table::index_of_rowid(self.cells(left.data), rowid) is Some {
            left_no
        } else {
            (left_no + 1) as i64
        }
    }

    /// Splitting a full leaf by the ratings of the axes.
    #[verifier::opaque]
    pub open spec fn divide_leaf(
        self,
        s: StoreView,
        n: NodeView,
        cell: CellView,
        left_no: i64,
        ratings: Seq<RatingView>,
    ) -> (Result<i64, Stop>, StoreView) {
        let right_no = (left_no + 1) as i64;
        let (left, right) = split::halves(self, n, cell, self.n_dim2 as nat, ratings);
        match s.issue_all(
            seq![
                WriteView::Node { nodeno: left_no, data: left.data },
                WriteView::Node { nodeno: right_no, data: right.data },
                WriteView::Parent { nodeno: left_no, parentnode: n.node_no },
                WriteView::Parent { nodeno: right_no, parentnode: n.node_no },
            ],
        ) {
            (Err(stop), s1) => (Err(stop), s1),
            (Ok(()), s1) => match s1.issue_all(
                self.moves(self.cells(left.data), left_no) + self.moves(
                    self.cells(right.data),
                    right_no,
                ),
            ) {
                (Err(stop), s2) => (Err(stop), s2),
                (Ok(()), s2) => match s2.issue(
                    WriteView::Node {
                        nodeno: n.node_no,
                        data: self.promoted(n, left, right, left_no).data,
                    },
                ) {
                    (Err(stop), s3) => (Err(stop), s3),
                    (Ok(()), s3) => (Ok(self.half_of(left, cell.rowid, left_no)), s3),
                },
            },
        }
    }

    /// Putting a cell into a leaf: behind its last cell where there is room, else by splitting it
    /// into two new nodes below it. Without a leaf the cell gets a new node. Gives the node that holds
    /// the cell.
    #[verifier::opaque]
    pub open spec fn place_in_leaf(self, s: StoreView, leaf: Option<NodeView>, cell: CellView) -> (
        Result<i64, Stop>,
        TableView,
        StoreView,
    ) {
        let n_dim2 = self.n_dim2 as nat;
        let width = self.n_bytes_per_cell as nat;
        match leaf {
            Some(n) => {
                let count = node::page_count(n.data);
                if count < self.max_cells() {
                    let data = n.placed(n_dim2, width, count as int, cell).counted(count + 1).data;
                    match s.issue(WriteView::Node { nodeno: n.node_no, data }) {
                        (Ok(()), s1) => (Ok(n.node_no), self, s1),
                        (Err(stop), s1) => (Err(stop), self, s1),
                    }
                } else {
                    let t1 = TableView { node_count: (self.node_count + 2) as i64, ..self };
                    match t1.split_leaf(s, n, cell, (t1.node_count - 1) as i64) {
                        (Ok(nodeno), s1) => (Ok(nodeno), t1, s1),
                        (Err(stop), s1) => (Err(stop), t1, s1),
                    }
                }
            },
            None => {
                let t1 = TableView { node_count: (self.node_count + 1) as i64, ..self };
                let data = NodeView::fresh(t1.node_count, 0, self.node_size as nat).placed(
                    n_dim2,
                    width,
                    0,
                    cell,
                ).counted(1).data;
                match s.issue(WriteView::Node { nodeno: t1.node_count, data }) {
                    (Ok(()), s1) => (Ok(t1.node_count), TableView { depth: 1, ..t1 }, s1),
                    (Err(stop), s1) => (Err(stop), t1, s1),
                }
            },
        }
    }

    /// Inserting one row: into the leaf that is chosen for it, then widening the boxes above and
    /// noting the node of the row.
    pub open spec fn insert_leaf_row(
        self,
        s: StoreView,
        rowid: i64,
        cell: CellView,
        aux: Seq<ValueView>,
    ) -> (Result<(), Stop>, TableView, StoreView) {
        if aux.len() != self.aux_columns.len() {
            (Err(Stop::Code(ResultCode::InvalidArgs)), self, s)
        } else {
            let t1 = TableView {
                row_count: if rowid > self.row_count {
                    rowid
                } else {
                    self.row_count
                },
                ..self
            };
            let (created, t2, s2) = if t1.node_count == 0 {
                t1.create_shadow_tables(s)
            } else {
                (Ok(()), t1, s)
            };
            match created {
                Err(stop) => (Err(stop), t2, s2),
                Ok(()) => match t2.choose_leaf(s2, t2.n_dim2 as nat) {
                    (Err(stop), s3) => (Err(stop), t2, s3),
                    (Ok(leaf), s3) => match t2.place_in_leaf(s3, leaf, cell) {
                        (Err(stop), t4, s4) => (Err(stop), t4, s4),
                        (Ok(nodeno), t4, s4) => match t4.adjust(s4, nodeno, 0) {
                            (Err(stop), s5) => (Err(stop), t4, s5),
                            (Ok(()), s5) => {
                                let (noted, s6) = t4.write_rowid_map(s5, rowid, nodeno, aux);
                                (noted, t4, s6)
                            },
                        },
                    },
                },
            }
        }
    }

    /// The parent of each listed cell's node becomes `parentnode`.
    pub open spec fn adoptions(self, cells: Seq<CellView>, parentnode: i64) -> Seq<WriteView> {
        Seq::new(cells.len(), |i: int| WriteView::Parent { nodeno: cells[i].rowid, parentnode })
    }

    /// The changes that split a full inner node: two new nodes below it take over its children.
    pub open spec fn inner_split_writes(
        self,
        n: NodeView,
        left: NodeView,
        right: NodeView,
        left_no: i64,
    ) -> Seq<WriteView> {
        self.inner_split_writes_to(self.promoted(n, left, right, left_no), left, right, left_no)
    }

    /// The changes that split a full inner node which is to become `parent`.
    pub open spec fn inner_split_writes_to(
        self,
        parent: NodeView,
        left: NodeView,
        right: NodeView,
        left_no: i64,
    ) -> Seq<WriteView> {
        let right_no = (left_no + 1) as i64;
        seq![
            WriteView::Node { nodeno: left_no, data: left.data },
            WriteView::Node { nodeno: right_no, data: right.data },
        ] + self.adoptions(self.cells(left.data), left_no) + self.adoptions(
            self.cells(right.data),
            right_no,
        ) + seq![
            WriteView::Parent { nodeno: left_no, parentnode: parent.node_no },
            WriteView::Parent { nodeno: right_no, parentnode: parent.node_no },
            WriteView::Node { nodeno: parent.node_no, data: parent.data },
        ]
    }

    /// Splitting a full inner node that one more cell goes to.
    #[verifier::opaque]
    pub open spec fn split_internal(self, s: StoreView, nodeno: i64, cell: CellView) -> (
        Result<(), Stop>,
        TableView,
        StoreView,
    ) {
        match self.read_node(s, nodeno) {
            (Err(stop), s1) => (Err(stop), self, s1),
            (Ok(None), s1) => (Err(Stop::Code(ResultCode::Corrupt)), self, s1),
            (Ok(Some(n)), s1) => match self.rate_axes(s1, n, cell, 0, Seq::empty()) {
                (Err(stop), s2) => (Err(stop), self, s2),
                (Ok(ratings), s2) => {
                    let (left, right) = split::halves(self, n, cell, self.n_dim2 as nat, ratings);
                    let t1 = TableView { node_count: (self.node_count + 2) as i64, ..self };
                    let left_no = (t1.node_count - 1) as i64;
                    match s2.issue_all(self.inner_split_writes(n, left, right, left_no)) {
                        (Err(stop), s3) => (Err(stop), t1, s3),
                        (Ok(()), s3) => {
                            let (adjusted, s4) = t1.adjust(s3, nodeno, 0);
                            (adjusted, t1, s4)
                        },
                    }
                },
            },
        }
    }

    /// Reinserting a cell that points to a subtree of the given height.
    pub open spec fn insert_internal(self, s: StoreView, cell: CellView, height: nat) -> (
        Result<(), Stop>,
        TableView,
        StoreView,
    ) {
        match self.load_root_node(s) {
            (Err(stop), s1) => (Err(stop), self, s1),
            (Ok(root), s1) => {
                let levels = root.tree_depth();
                let iterations = if levels > height {
                    (levels - height) as nat
                } else {
                    0
                };
                match self.descend(
                    s1,
                    root,
                    self.n_dim2 as nat,
                    root.tree_depth(),
                    iterations,
                ) {
                    (Err(stop), s2) => (Err(stop), self, s2),
                    (Ok(None), s2) => (Err(Stop::Code(ResultCode::Corrupt)), self, s2),
                    (Ok(Some(target)), s2) => {
                        let count = node::page_count(target.data);
                        if count >= self.max_cells() {
                            self.split_internal(s2, target.node_no, cell)
                        } else {
                            let data = target.placed(
                                self.n_dim2 as nat,
                                self.n_bytes_per_cell as nat,
                                count as int,
                                cell,
                            ).counted(count + 1).data;
                            match s2.issue(WriteView::Node { nodeno: target.node_no, data }) {
                                (Err(stop), s3) => (Err(stop), self, s3),
                                (Ok(()), s3) => match self.adjust(s3, target.node_no, 0) {
                                    (Err(stop), s4) => (Err(stop), self, s4),
                                    (Ok(()), s4) => {
                                        let (noted, s5) = s4.issue(
                                            WriteView::Parent {
                                                nodeno: cell.rowid,
                                                parentnode: target.node_no,
                                            },
                                        );
                                        (noted, self, s5)
                                    },
                                },
                            }
                        }
                    },
                }
            },
        }
    }
}

/// The models of the ratings that were asked for.
pub open spec fn ratings_result(r: Result<Vec<Rating>, Stop>) -> Result<Seq<RatingView>, Stop> {
    match r {
        Ok(ratings) => Ok(store::rating_views(ratings@)),
        Err(stop) => Err(stop),
    }
}

fn child_areas(
    table: &RtreeTable,
    store: &mut ShadowStore,
    current: &RtreeNode,
    n_dim2: usize,
) -> (r: Result<Vec<Area>, Stop>)
    requires
        table@.wf(),
        table@.holds(current.data@),
        n_dim2 <= table.n_dim2,
    ensures
        (areas_result(r), final(store)@) == areas_from(
            old(store)@,
            node::page_cells(current.data@, n_dim2 as nat, table.n_bytes_per_cell as nat),
            0,
            Seq::empty(),
        ),
        r matches Ok(areas) ==> areas.len() == node::page_count(current.data@),
        old(store)@.wf(table@) ==> final(store)@.wf(table@),
        final(store)@.connected == old(store)@.connected,
{
    let n_cells: usize = current.cell_count();
    let width: usize = table.n_bytes_per_cell;
    let ghost cells = node::page_cells(current.data@, n_dim2 as nat, width as nat);
    let mut areas: Vec<Area> = Vec::new();
    let mut i: usize = 0;
    while i < n_cells
        invariant
            table@.wf(),
            table@.holds(current.data@),
            n_dim2 <= table.n_dim2,
            width == table.n_bytes_per_cell,
            cells == node::page_cells(current.data@, n_dim2 as nat, width as nat),
            n_cells == cells.len(),
            i <= n_cells,
            areas.len() == i,
            areas_from(store@, cells, i as int, areas@) == areas_from(
                old(store)@,
                cells,
                0,
                Seq::empty(),
            ),
            old(store)@.wf(table@) ==> store@.wf(table@),
            store@.connected == old(store)@.connected,
        decreases n_cells - i,
    {
        proof {
            table@.lemma_cell_inside(current.data@, i as int);
        }
        let coords = current.coords(n_dim2, width, i);
        assert(coords@ == cells[i as int].coords);
        match store.fetch_area(&coords) {
            Ok(area) => {
                areas.push(area);
            },
            Err(stop) => {
                return Err(stop);
            },
        }
        i = i + 1;
    }
    Ok(areas)
}

/// Descends from `current` for `iterations` levels, each time to the child with the smallest
/// bounding area, whatever the box of the cell that is to be placed.
pub fn descend_from_root_with_start(
    table: &RtreeTable,
    store: &mut ShadowStore,
    current: RtreeNode,
    _cell: &RtreeCell,
    n_dim2: usize,
    iterations: usize,
) -> (r: Result<Option<RtreeNode>, Stop>)
    requires
        table@.wf(),
        old(store)@.wf(table@),
        table@.holds(current.data@),
        n_dim2 <= table.n_dim2,
    ensures
        (tree_read::node_result(r), final(store)@) == table@.descend(
            old(store)@,
            current@,
            n_dim2 as nat,
            current@.tree_depth(),
            iterations as nat,
        ),
        final(store)@.wf(table@),
        r matches Ok(Some(n)) ==> table@.holds(n.data@),
{
    let width: usize = table.n_bytes_per_cell;
    let mut node: RtreeNode = current;
    let mut depth: usize = node.tree_depth();
    let mut remaining: usize = iterations;
    while remaining > 0
        invariant
            table@.wf(),
            store@.wf(table@),
            table@.holds(node.data@),
            n_dim2 <= table.n_dim2,
            width == table.n_bytes_per_cell,
            table@.descend(
                store@,
                node@,
                n_dim2 as nat,
                depth as nat,
                remaining as nat,
            ) == table@.descend(
                old(store)@,
                current@,
                n_dim2 as nat,
                current@.tree_depth(),
                iterations as nat,
            ),
        decreases remaining,
    {
        reveal(TableView::descend);
        let n_cells: usize = node.cell_count();
        if n_cells == 0 {
            return Ok(None);
        }
        let areas: Vec<Area> = match child_areas(table, store, &node, n_dim2) {
            Ok(areas) => areas,
            Err(stop) => {
                return Err(stop);
            },
        };
        let best_idx: usize = geometry::choose_child(&areas);
        proof {
            table@.lemma_cell_inside(node.data@, best_idx as int);
        }
        let child: i64 = node.get_cell(n_dim2, width, best_idx).rowid;
        let below: usize = if depth > 0 {
            depth - 1
        } else {
            0
        };
        proof {
            table@.lemma_fresh_holds(child, below);
        }
        if store.connected {
            match table.read_node(store, child) {
                Ok(Some(next)) => {
                    node = next;
                },
                Err(Stop::Wait) => {
                    return Err(Stop::Wait);
                },
                _ => {
                    node = RtreeNode::new(child, below, table.node_size);
                },
            }
        } else {
            node = RtreeNode::new(child, below, table.node_size);
        }
        depth = below;
        remaining = remaining - 1;
    }
    reveal(TableView::descend);
    Ok(Some(node))
}

/// The leaf that a new row goes to.
pub fn choose_leaf(
    table: &RtreeTable,
    store: &mut ShadowStore,
    cell: &RtreeCell,
    n_dim2: usize,
) -> (r: Result<Option<RtreeNode>, Stop>)
    requires
        table@.wf(),
        old(store)@.wf(table@),
        n_dim2 <= table.n_dim2,
    ensures
        (tree_read::node_result(r), final(store)@) == table@.choose_leaf(
            old(store)@,
            n_dim2 as nat,
        ),
        final(store)@.wf(table@),
        r matches Ok(Some(n)) ==> table@.holds(n.data@),
{
    reveal(TableView::choose_leaf);
    let root: RtreeNode = if store.connected {
        match table.load_root_node(store) {
            Ok(root) => root,
            Err(Stop::Wait) => {
                return Err(Stop::Wait);
            },
            Err(Stop::Code(_)) => {
                return Ok(None);
            },
        }
    } else {
        proof {
            table@.lemma_fresh_holds(1, 0);
        }
        RtreeNode::new(1, 0, table.node_size)
    };
    let mut current: RtreeNode = root;
    let mut left: u64 = table.max_hops();
    loop
        invariant
            table@.wf(),
            store@.wf(table@),
            table@.holds(current.data@),
            n_dim2 <= table.n_dim2,
            table@.reach_leaf(store@, current@, n_dim2 as nat, left as nat) == table@.choose_leaf(
                old(store)@,
                n_dim2 as nat,
            ),
        decreases left,
    {
        reveal(TableView::reach_leaf);
        match table.is_leaf(store, &current) {
            Ok(true) => {
                return Ok(Some(current));
            },
            Ok(false) => {},
            Err(stop) => {
                return Err(stop);
            },
        }
        if left == 0 {
            return Err(Stop::Code(ResultCode::Corrupt));
        }
        match descend_from_root_with_start(table, store, current, cell, n_dim2, 1) {
            Ok(Some(next)) => {
                current = next;
            },
            Ok(None) => {
                return Ok(None);
            },
            Err(stop) => {
                return Err(stop);
            },
        }
        left = left - 1;
    }
}

impl RtreeTable {
    /// Walks toward the root and expands the cell of each node in its parent so that it covers
    /// the tight bounding box of the node.
    pub fn adjust_ancestry_mbr(&self, store: &mut ShadowStore, nodeno: i64) -> (r: Result<(), Stop>)
        requires
            self@.wf(),
            old(store)@.wf(self@),
        ensures
            (r, final(store)@) == self@.adjust(old(store)@, nodeno, 0),
            final(store)@.wf(self@),
    {
        let mut current: i64 = nodeno;
        let limit: u64 = self.max_hops();
        let mut hops: u64 = 0;
        loop
            invariant
                self@.wf(),
                store@.wf(self@),
                limit == self@.max_hops(),
                hops <= limit + 1,
                self@.adjust(store@, current, hops as nat) == self@.adjust(old(store)@, nodeno, 0),
            decreases limit + 1 - hops,
        {
            reveal(TableView::adjust);
            if hops > limit {
                return Err(Stop::Code(ResultCode::Error));
            }
            let node: RtreeNode = match self.read_node(store, current) {
                Ok(Some(node)) => node,
                Ok(None) => {
                    return Ok(());
                },
                Err(stop) => {
                    return Err(stop);
                },
            };
            let needed: RtreeCell = match geometry::union_mbr_of_node_cells(
                self,
                &node,
                self.n_dim2,
            ) {
                Some(needed) => needed,
                None => {
                    return Ok(());
                },
            };
            let parent_no: i64 = match self.get_parent_nodeno(store, current) {
                Ok(Some(parent_no)) => parent_no,
                Ok(None) => {
                    return Ok(());
                },
                Err(stop) => {
                    return Err(stop);
                },
            };
            let mut parent: RtreeNode = match self.read_node(store, parent_no) {
                Ok(Some(parent)) => parent,
                Ok(None) => {
                    return Err(Stop::Code(ResultCode::Error));
                },
                Err(stop) => {
                    return Err(stop);
                },
            };
            let idx: usize = match self.find_cell_index(&parent, current) {
                Some(idx) => idx,
                None => {
                    return Err(Stop::Code(ResultCode::Error));
                },
            };
            proof {
                self@.lemma_cell_inside(parent.data@, idx as int);
            }
            let held: RtreeCell = parent.get_cell(self.n_dim2, self.n_bytes_per_cell, idx);
            if !geometry::cell_contains_mbr(&held, &needed, self.n_dim2) {
                let merged: RtreeCell = geometry::cell_union_mbr_coords(
                    &held,
                    &needed,
                    self.n_dim2,
                );
                proof {
                    self@.lemma_set_holds(parent.data@, idx as int, merged@);
                }
                parent.set_cell(self.n_dim2, self.n_bytes_per_cell, idx, &merged);
                match self.write_node(store, parent_no, &parent) {
                    Ok(()) => {},
                    Err(stop) => {
                        return Err(stop);
                    },
                }
            }
            current = parent_no;
            hops = hops + 1;
        }
    }

    /// Turns `node`, split into `left` and `right`, into the parent of the two.
    fn promote(&self, node: &mut RtreeNode, left: &RtreeNode, right: &RtreeNode, left_no: i64)
        requires
            self@.wf(),
            self@.holds(old(node).data@),
            self@.holds(left.data@),
            self@.holds(right.data@),
            left_no < i64::MAX,
        ensures
            final(node)@ == self@.promoted(old(node)@, left@, right@, left_no),
            self@.holds(final(node).data@),
    {
        let cell_left = geometry::bounding_cell_for_child_node(self, left, left_no, self.n_dim2);
        let cell_right = geometry::bounding_cell_for_child_node(
            self,
            right,
            left_no + 1,
            self.n_dim2,
        );
        proof {
            self@.lemma_room();
            self@.lemma_slot_inside(0);
            self@.lemma_slot_inside(1);
        }
        node.set_cell(self.n_dim2, self.n_bytes_per_cell, 0, &cell_left);
        node.set_cell(self.n_dim2, self.n_bytes_per_cell, 1, &cell_right);
        let ghost unheaded = node.data@;
        node.set_cell_count(2);
        proof {
            node::lemma_count_round_trip(unheaded, 2);
        }
        let depth: usize = node.tree_depth() + 1;
        node.set_depth(depth);
    }

    /// Asks for the ratings of the axes that a node and one more cell can be split along.
    fn rate_axes(&self, store: &mut ShadowStore, node: &RtreeNode, cell: &RtreeCell) -> (r: Result<
        Vec<Rating>,
        Stop,
    >)
        requires
            self@.wf(),
            old(store)@.wf(self@),
            self@.holds(node.data@),
        ensures
            (ratings_result(r), final(store)@) == self@.rate_axes(
                old(store)@,
                node@,
                cell@,
                0,
                Seq::empty(),
            ),
            final(store)@.wf(self@),
            r matches Ok(ratings) ==> ratings.len() <= 5,
    {
        let n_dim: usize = self.n_dim2 / 2;
        let mut known: Vec<Rating> = Vec::new();
        let mut d: usize = 0;
        assert(store::rating_views(known@) =~= Seq::empty());
        while d < n_dim
            invariant
                self@.wf(),
                store@.wf(self@),
                self@.holds(node.data@),
                n_dim == self.n_dim2 / 2,
                d <= n_dim <= 5,
                known.len() == d,
                self@.rate_axes(
                    store@,
                    node@,
                    cell@,
                    d as nat,
                    store::rating_views(known@),
                ) == self@.rate_axes(old(store)@, node@, cell@, 0, Seq::empty()),
            decreases n_dim - d,
        {
            reveal(TableView::rate_axes);
            let ghost before = known@;
            let divisions: Vec<Division> = split::divisions_along(self, node, cell, self.n_dim2, d);
            match store.rate(divisions) {
                Ok(rating) => {
                    known.push(rating);
                    assert(store::rating_views(known@) =~= store::rating_views(before).push(
                        rating@,
                    ));
                },
                Err(stop) => {
                    return Err(stop);
                },
            }
            d = d + 1;
        }
        reveal(TableView::rate_axes);
        Ok(known)
    }

    /// Splits a full leaf: allocates two child nodes, moves the rows to them and stores two bounding
    /// cells in the leaf. Gives the node that the new row is in.
    fn split_leaf(
        &self,
        store: &mut ShadowStore,
        leaf: RtreeNode,
        cell: &RtreeCell,
        left_no: i64,
    ) -> (r: Result<i64, Stop>)
        requires
            self@.wf(),
            old(store)@.wf(self@),
            self@.holds(leaf.data@),
            left_no < i64::MAX,
        ensures
            (r, final(store)@) == self@.split_leaf(old(store)@, leaf@, cell@, left_no),
            final(store)@.wf(self@),
    {
        reveal(TableView::split_leaf);
        let ratings: Vec<Rating> = match self.rate_axes(store, &leaf, cell) {
            Ok(ratings) => ratings,
            Err(stop) => {
                return Err(stop);
            },
        };
        self.divide_leaf(store, leaf, cell, left_no, &ratings)
    }

    /// Splits a full leaf by the ratings of the axes.
    fn divide_leaf(
        &self,
        store: &mut ShadowStore,
        leaf: RtreeNode,
        cell: &RtreeCell,
        left_no: i64,
        ratings: &Vec<Rating>,
    ) -> (r: Result<i64, Stop>)
        requires
            self@.wf(),
            old(store)@.wf(self@),
            self@.holds(leaf.data@),
            left_no < i64::MAX,
            ratings.len() <= 5,
        ensures
            (r, final(store)@) == self@.divide_leaf(
                old(store)@,
                leaf@,
                cell@,
                left_no,
                store::rating_views(ratings@),
            ),
            final(store)@.wf(self@),
    {
        reveal(TableView::divide_leaf);
        let mut node: RtreeNode = leaf;
        let nodeno: i64 = node.node_no;
        let right_no: i64 = left_no + 1;
        let (left, right) = split::split_node(self, &node, cell, self.n_dim2, ratings);
        self.promote(&mut node, &left, &right, left_no);
        let mut ws: Vec<Write> = Vec::new();
        ws.push(Write::Node { nodeno: left_no, data: bytes::copy_bytes(&left.data) });
        ws.push(Write::Node { nodeno: right_no, data: bytes::copy_bytes(&right.data) });
        ws.push(Write::Parent { nodeno: left_no, parentnode: nodeno });
        ws.push(Write::Parent { nodeno: right_no, parentnode: nodeno });
        let mut moves: Vec<Write> = Vec::new();
        assert(store::write_views(moves@) =~= Seq::empty());
        let n_left: usize = left.cell_count();
        let n_right: usize = right.cell_count();
        proof {
            self@.lemma_room();
            split::lemma_split_keeps_cells(
                self@,
                leaf@,
                cell@,
                store::rating_views(ratings@),
            );
        }
        self.move_rows(&left, n_left, left_no, &mut moves);
        self.move_rows(&right, n_right, right_no, &mut moves);
        proof {
            let views = seq![
                WriteView::Node { nodeno: left_no, data: left.data@ },
                WriteView::Node { nodeno: right_no, data: right.data@ },
                WriteView::Parent { nodeno: left_no, parentnode: nodeno },
                WriteView::Parent { nodeno: right_no, parentnode: nodeno },
            ];
            assert(store::write_views(ws@) =~= views);
            self@.lemma_issue_all_wf(store@, views);
            let moved = self@.moves(self@.cells(left.data@), left_no) + self@.moves(
                self@.cells(right.data@),
                right_no,
            );
            assert(self@.cells(left.data@).take(n_left as int) =~= self@.cells(left.data@));
            assert(self@.cells(right.data@).take(n_right as int) =~= self@.cells(right.data@));
            assert(store::write_views(moves@) =~= moved);
            assert forall|i: int| 0 <= i < moved.len() implies #[trigger] self@.keeps_wf(
                moved[i],
            ) by {}
            self@.lemma_issue_all_wf(store@.issue_all(views).1, moved);
        }
        match store.issue_all(ws) {
            Ok(()) => {},
            Err(stop) => {
                return Err(stop);
            },
        }
        match store.issue_all(moves) {
            Ok(()) => {},
            Err(stop) => {
                return Err(stop);
            },
        }
        match self.write_node(store, nodeno, &node) {
            Ok(()) => {},
            Err(stop) => {
                return Err(stop);
            },
        }
        match self.find_cell_index(&left, cell.rowid) {
            Some(_) => Ok(left_no),
            None => Ok(right_no),
        }
    }

    /// Notes `nodeno` as the node of the first `n` rows of `node`.
    fn move_rows(&self, node: &RtreeNode, n: usize, nodeno: i64, ws: &mut Vec<Write>)
        requires
            self@.wf(),
            self@.holds(node.data@),
            n <= node::page_count(node.data@),
        ensures
            store::write_views(final(ws)@) == store::write_views(old(ws)@) + self@.moves(
                self@.cells(node.data@).take(n as int),
                nodeno,
            ),
    {
        let ghost cells = self@.cells(node.data@).take(n as int);
        let mut i: usize = 0;
        while i < n
            invariant
                self@.wf(),
                self@.holds(node.data@),
                n <= node::page_count(node.data@),
                cells == self@.cells(node.data@).take(n as int),
                i <= n,
                ws.len() == old(ws).len() + i,
                forall|j: int| 0 <= j < old(ws).len() ==> #[trigger] ws@[j]@ == old(ws)@[j]@,
                forall|j: int|
                    0 <= j < i ==> #[trigger] ws@[old(ws).len() + j]@ == (WriteView::MoveRow {
                        rowid: cells[j].rowid,
                        nodeno,
                    }),
            decreases n - i,
        {
            proof {
                self@.lemma_cell_inside(node.data@, i as int);
            }
            let c: RtreeCell = node.get_cell(self.n_dim2, self.n_bytes_per_cell, i);
            assert(c@ == cells[i as int]);
            ws.push(Write::MoveRow { rowid: c.rowid, nodeno });
            i = i + 1;
        }
        assert forall|j: int|
            old(ws).len() <= j < old(ws).len() + n implies #[trigger] ws@[j]@ == self@.moves(
            cells,
            nodeno,
        )[j - old(ws).len()] by {
            assert(ws@[old(ws).len() + (j - old(ws).len())]@ == (WriteView::MoveRow {
                rowid: cells[j - old(ws).len()].rowid,
                nodeno,
            }));
        }
        assert(store::write_views(ws@) =~= store::write_views(old(ws)@) + self@.moves(
            cells,
            nodeno,
        ));
    }

    /// Puts a cell into a leaf, or into a new node where there is no leaf. Gives the node that
    /// holds the cell.
    fn place_in_leaf(
        &mut self,
        store: &mut ShadowStore,
        leaf: Option<RtreeNode>,
        cell: &RtreeCell,
    ) -> (r: Result<i64, Stop>)
        requires
            old(self)@.wf(),
            old(store)@.wf(old(self)@),
            leaf matches Some(n) ==> old(self)@.holds(n.data@),
            old(self).node_count <= i64::MAX - 2,
        ensures
            (r, final(self)@, final(store)@) == old(self)@.place_in_leaf(
                old(store)@,
                match leaf {
                    Some(n) => Some(n@),
                    None => None,
                },
                cell@,
            ),
            final(self)@.wf(),
            final(self)@.same_shape(old(self)@),
            final(store)@.wf(final(self)@),
            final(self).node_count <= old(self).node_count + 2,
    {
        reveal(TableView::place_in_leaf);
        let ghost t = self@;
        let n_dim2: usize = self.n_dim2;
        let width: usize = self.n_bytes_per_cell;
        proof {
            t.lemma_room();
        }
        match leaf {
            Some(mut node) => {
                let n_cells: usize = node.cell_count();
                let nodeno: i64 = node.node_no;
                if n_cells < self.max_cells() {
                    proof {
                        t.lemma_append_holds(node.data@, cell@);
                        t.lemma_slot_inside(n_cells as int);
                    }
                    node.set_cell(n_dim2, width, n_cells, cell);
                    node.set_cell_count(n_cells + 1);
                    match self.write_node(store, nodeno, &node) {
                        Ok(()) => Ok(nodeno),
                        Err(stop) => Err(stop),
                    }
                } else {
                    self.node_count = self.node_count + 2;
                    proof {
                        t.lemma_wf_by_shape(self@, store@);
                    }
                    let left_no: i64 = self.node_count - 1;
                    self.split_leaf(store, node, cell, left_no)
                }
            },
            None => {
                self.node_count = self.node_count + 1;
                let new_node_no: i64 = self.node_count;
                let mut new_node = RtreeNode::new(new_node_no, 0, self.node_size);
                proof {
                    t.lemma_wf_by_shape(self@, store@);
                    t.lemma_fresh_holds(new_node_no, 0);
                    t.lemma_append_holds(new_node.data@, cell@);
                    t.lemma_slot_inside(0);
                }
                new_node.set_cell(n_dim2, width, 0, cell);
                new_node.set_cell_count(1);
                match self.write_node(store, new_node_no, &new_node) {
                    Ok(()) => {},
                    Err(stop) => {
                        return Err(stop);
                    },
                }
                let ghost t1 = self@;
                self.depth = 1;
                proof {
                    t1.lemma_wf_by_shape(self@, store@);
                }
                Ok(new_node_no)
            },
        }
    }

    /// Inserts one leaf row (coordinates and auxiliary columns) at `rowid`.
    pub fn insert_leaf_row(
        &mut self,
        store: &mut ShadowStore,
        rowid: i64,
        cell: &RtreeCell,
        aux: &Vec<Value>,
    ) -> (r: Result<(), Stop>)
        requires
            old(self)@.wf(),
            old(store)@.wf(old(self)@),
            old(self).node_count <= i64::MAX - 2,
        ensures
            (r, final(self)@, final(store)@) == old(self)@.insert_leaf_row(
                old(store)@,
                rowid,
                cell@,
                value::value_views(aux@),
            ),
            final(self)@.wf(),
            final(self)@.same_shape(old(self)@),
            final(store)@.wf(final(self)@),
            final(self).node_count <= old(self).node_count + 2 || final(self).node_count <= 3,
    {
        if aux.len() != self.aux_columns.len() {
            return Err(Stop::Code(ResultCode::InvalidArgs));
        }
        if rowid > self.row_count {
            self.row_count = rowid;
        }
        proof {
            old(self)@.lemma_wf_by_shape(self@, store@);
        }
        if self.node_count == 0 {
            match self.create_shadow_tables(store) {
                Ok(()) => {},
                Err(stop) => {
                    return Err(stop);
                },
            }
        }
        let leaf: Option<RtreeNode> = match choose_leaf(self, store, cell, self.n_dim2) {
            Ok(leaf) => leaf,
            Err(stop) => {
                return Err(stop);
            },
        };
        let leaf_nodeno: i64 = match self.place_in_leaf(store, leaf, cell) {
            Ok(nodeno) => nodeno,
            Err(stop) => {
                return Err(stop);
            },
        };
        match self.adjust_ancestry_mbr(store, leaf_nodeno) {
            Ok(()) => {},
            Err(stop) => {
                return Err(stop);
            },
        }
        self.write_rowid_map(store, rowid, leaf_nodeno, aux)
    }

    /// Splits a full inner node: allocates two child nodes, moves the cells to them, makes them
    /// the parents of the subtrees and stores two bounding cells in `split_nodeno`.
    pub fn split_internal_node_and_promote(
        &mut self,
        store: &mut ShadowStore,
        split_nodeno: i64,
        new_cell: &RtreeCell,
    ) -> (r: Result<(), Stop>)
        requires
            old(self)@.wf(),
            old(store)@.wf(old(self)@),
            old(self).node_count <= i64::MAX - 2,
        ensures
            (r, final(self)@, final(store)@) == old(self)@.split_internal(
                old(store)@,
                split_nodeno,
                new_cell@,
            ),
            final(self)@.wf(),
            final(self)@.same_shape(old(self)@),
            final(store)@.wf(final(self)@),
            final(self).node_count <= old(self).node_count + 2,
    {
        reveal(TableView::split_internal);
        let ghost t = self@;
        let n_dim2: usize = self.n_dim2;
        let width: usize = self.n_bytes_per_cell;
        let mut target: RtreeNode = match self.read_node(store, split_nodeno) {
            Ok(Some(target)) => target,
            Ok(None) => {
                return Err(Stop::Code(ResultCode::Corrupt));
            },
            Err(stop) => {
                return Err(stop);
            },
        };
        let ratings: Vec<Rating> = match self.rate_axes(store, &target, new_cell) {
            Ok(ratings) => ratings,
            Err(stop) => {
                return Err(stop);
            },
        };
        let (left, right) = split::split_node(self, &target, new_cell, n_dim2, &ratings);
        self.node_count = self.node_count + 2;
        let left_no: i64 = self.node_count - 1;
        let ghost n = target@;
        self.promote(&mut target, &left, &right, left_no);
        proof {
            t.lemma_wf_by_shape(self@, store@);
            assert(self@.promoted(n, left@, right@, left_no) == t.promoted(
                n,
                left@,
                right@,
                left_no,
            ));
        }
        let ws: Vec<Write> = self.inner_split_changes(&target, left, right, left_no);
        proof {
            let views = self@.inner_split_writes_to(target@, left@, right@, left_no);
            assert(views =~= t.inner_split_writes(n, left@, right@, left_no));
            assert forall|i: int| 0 <= i < views.len() implies #[trigger] self@.keeps_wf(
                views[i],
            ) by {}
            self@.lemma_issue_all_wf(store@, views);
        }
        match store.issue_all(ws) {
            Ok(()) => {},
            Err(stop) => {
                return Err(stop);
            },
        }
        self.adjust_ancestry_mbr(store, split_nodeno)
    }

    /// The changes that split a full inner node which is to become `parent`.
    fn inner_split_changes(
        &self,
        parent: &RtreeNode,
        left: RtreeNode,
        right: RtreeNode,
        left_no: i64,
    ) -> (ws: Vec<Write>)
        requires
            self@.wf(),
            self@.holds(left.data@),
            self@.holds(right.data@),
            left_no < i64::MAX,
        ensures
            store::write_views(ws@) == self@.inner_split_writes_to(
                parent@,
                left@,
                right@,
                left_no,
            ),
    {
        let right_no: i64 = left_no + 1;
        let mut ws: Vec<Write> = Vec::new();
        ws.push(Write::Node { nodeno: left_no, data: bytes::copy_bytes(&left.data) });
        ws.push(Write::Node { nodeno: right_no, data: bytes::copy_bytes(&right.data) });
        let ghost first = seq![
            WriteView::Node { nodeno: left_no, data: left.data@ },
            WriteView::Node { nodeno: right_no, data: right.data@ },
        ];
        assert(store::write_views(ws@) =~= first);
        self.adopt(&left, left_no, &mut ws);
        self.adopt(&right, right_no, &mut ws);
        let ghost middle = store::write_views(ws@);
        ws.push(Write::Parent { nodeno: left_no, parentnode: parent.node_no });
        ws.push(Write::Parent { nodeno: right_no, parentnode: parent.node_no });
        ws.push(Write::Node { nodeno: parent.node_no, data: bytes::copy_bytes(&parent.data) });
        assert(store::write_views(ws@) =~= middle + seq![
            WriteView::Parent { nodeno: left_no, parentnode: parent.node_no },
            WriteView::Parent { nodeno: right_no, parentnode: parent.node_no },
            WriteView::Node { nodeno: parent.node_no, data: parent.data@ },
        ]);
        ws
    }

    /// Notes `parentnode` as the parent of every child of `node`.
    fn adopt(&self, node: &RtreeNode, parentnode: i64, ws: &mut Vec<Write>)
        requires
            self@.wf(),
            self@.holds(node.data@),
        ensures
            store::write_views(final(ws)@) == store::write_views(old(ws)@) + self@.adoptions(
                self@.cells(node.data@),
                parentnode,
            ),
    {
        let n: usize = node.cell_count();
        let ghost cells = self@.cells(node.data@);
        let mut i: usize = 0;
        while i < n
            invariant
                self@.wf(),
                self@.holds(node.data@),
                cells == self@.cells(node.data@),
                n == cells.len(),
                i <= n,
                ws.len() == old(ws).len() + i,
                forall|j: int| 0 <= j < old(ws).len() ==> #[trigger] ws@[j]@ == old(ws)@[j]@,
                forall|j: int|
                    0 <= j < i ==> #[trigger] ws@[old(ws).len() + j]@ == (WriteView::Parent {
                        nodeno: cells[j].rowid,
                        parentnode,
                    }),
            decreases n - i,
        {
            proof {
                self@.lemma_cell_inside(node.data@, i as int);
            }
            let c: RtreeCell = node.get_cell(self.n_dim2, self.n_bytes_per_cell, i);
            assert(c@ == cells[i as int]);
            ws.push(Write::Parent { nodeno: c.rowid, parentnode });
            i = i + 1;
        }
        assert forall|j: int|
            old(ws).len() <= j < old(ws).len() + n implies #[trigger] ws@[j]@
            == self@.adoptions(cells, parentnode)[j - old(ws).len()] by {
            assert(ws@[old(ws).len() + (j - old(ws).len())]@ == (WriteView::Parent {
                nodeno: cells[j - old(ws).len()].rowid,
                parentnode,
            }));
        }
        assert(store::write_views(ws@) =~= store::write_views(old(ws)@) + self@.adoptions(
            cells,
            parentnode,
        ));
    }

    /// Reinserts one inner cell that points to a subtree of height `cell_height`.
    pub fn insert_internal_cell_at_height(
        &mut self,
        store: &mut ShadowStore,
        cell: &RtreeCell,
        cell_height: usize,
    ) -> (r: Result<(), Stop>)
        requires
            old(self)@.wf(),
            old(store)@.wf(old(self)@),
            old(self).node_count <= i64::MAX - 2,
        ensures
            (r, final(self)@, final(store)@) == old(self)@.insert_internal(
                old(store)@,
                cell@,
                cell_height as nat,
            ),
            final(self)@.wf(),
            final(self)@.same_shape(old(self)@),
            final(store)@.wf(final(self)@),
            final(self).node_count <= old(self).node_count + 2,
    {
        let root: RtreeNode = match self.load_root_node(store) {
            Ok(root) => root,
            Err(stop) => {
                return Err(stop);
            },
        };
        let levels: usize = root.tree_depth();
        let iterations: usize = if levels > cell_height {
            levels - cell_height
        } else {
            0
        };
        let mut target: RtreeNode = match descend_from_root_with_start(
            self,
            store,
            root,
            cell,
            self.n_dim2,
            iterations,
        ) {
            Ok(Some(target)) => target,
            Ok(None) => {
                return Err(Stop::Code(ResultCode::Corrupt));
            },
            Err(stop) => {
                return Err(stop);
            },
        };
        let nodeno: i64 = target.node_no;
        let n: usize = target.cell_count();
        if n >= self.max_cells() {
            return self.split_internal_node_and_promote(store, nodeno, cell);
        }
        proof {
            self@.lemma_append_holds(target.data@, cell@);
            self@.lemma_slot_inside(n as int);
        }
        target.set_cell(self.n_dim2, self.n_bytes_per_cell, n, cell);
        target.set_cell_count(n + 1);
        match self.write_node(store, nodeno, &target) {
            Ok(()) => {},
            Err(stop) => {
                return Err(stop);
            },
        }
        match self.adjust_ancestry_mbr(store, nodeno) {
            Ok(()) => {},
            Err(stop) => {
                return Err(stop);
            },
        }
        self.write_parent_map(store, cell.rowid, nodeno)
    }
}

impl TableView {
    /// Setting a counted cell keeps a page one of the table.
    pub proof fn lemma_set_holds(self, data: Seq<u8>, i: int, cell: CellView)
        requires
            self.wf(),
            self.holds(data),
            0 <= i < node::page_count(data),
        ensures
            self.holds(
                node::with_cell(data, self.n_dim2 as nat, self.n_bytes_per_cell as nat, i, cell),
            ),
    {
        self.lemma_room();
        crate::page_laws::lemma_set_cell_updates(
            data,
            self.n_dim2 as nat,
            self.n_bytes_per_cell as nat,
            i,
            cell,
        );
    }

    /// Appending a cell where there is room keeps a page one of the table, and appends it to the
    /// cells of the page.
    pub proof fn lemma_append_holds(self, data: Seq<u8>, cell: CellView)
        requires
            self.wf(),
            self.holds(data),
            node::page_count(data) < self.max_cells(),
        ensures
            ({
                let count = node::page_count(data);
                let page = node::with_count(
                    node::with_cell(
                        data,
                        self.n_dim2 as nat,
                        self.n_bytes_per_cell as nat,
                        count as int,
                        cell,
                    ),
                    count + 1,
                );
                &&& self.holds(page)
                &&& self.cells(page) == self.cells(data).push(cell.kept(self.n_dim2 as nat))
            }),
    {
        self.lemma_room();
        self.lemma_slot_inside(node::page_count(data) as int);
        crate::page_laws::lemma_append_cell(
            data,
            self.n_dim2 as nat,
            self.n_bytes_per_cell as nat,
            cell,
        );
    }
}

} // verus!
