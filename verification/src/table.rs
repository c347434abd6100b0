//! The table that a tree belongs to: its shape and its counters.

use vstd::prelude::*;
use crate::node;
use crate::node::{RtreeNode, RTREE_MAX_COORDS};
use crate::page_laws;

verus! {

/// Bytes of a node page.
pub const RTREE_NODE_SIZE: usize = 4032;

/// Most auxiliary columns that a table can have.
pub const RTREE_MAX_AUX_COLUMN: usize = 100;

/// An R-tree table.
#[derive(Clone, Debug)]
pub struct RtreeTable {
    /// Number of coordinate columns, two for each dimension.
    pub n_dim2: usize,
    pub n_bytes_per_cell: usize,
    pub node_size: usize,
    pub depth: usize,
    /// The highest row id so far.
    pub row_count: i64,
    /// The highest node number so far; 0 until the shadow tables are created.
    pub node_count: i64,
    pub table_name: String,
    /// Auxiliary column names, kept on the row id table behind the node number.
    pub aux_columns: Vec<String>,
}

/// The model of a table.
#[verifier::ext_equal]
pub struct TableView {
    pub n_dim2: usize,
    pub n_bytes_per_cell: usize,
    pub node_size: usize,
    pub depth: usize,
    pub row_count: i64,
    pub node_count: i64,
    pub table_name: Seq<char>,
    pub aux_columns: Seq<Seq<char>>,
}

/// The characters of each string of a list.
pub open spec fn string_views(strings: Seq<String>) -> Seq<Seq<char>> {
    Seq::new(strings.len(), |i: int| strings[i]@)
}

impl View for RtreeTable {
    type V = TableView;

    open spec fn view(&self) -> TableView {
        TableView {
            n_dim2: self.n_dim2,
            n_bytes_per_cell: self.n_bytes_per_cell,
            node_size: self.node_size,
            depth: self.depth,
            row_count: self.row_count,
            node_count: self.node_count,
            table_name: self.table_name@,
            aux_columns: string_views(self.aux_columns@),
        }
    }
}

impl TableView {
    /// One to five dimensions, cells of a row id and the coordinates, pages of the fixed size.
    pub open spec fn wf(self) -> bool {
        &&& 2 <= self.n_dim2 <= RTREE_MAX_COORDS
        &&& self.n_dim2 % 2 == 0
        &&& self.n_bytes_per_cell == 8 + 4 * self.n_dim2
        &&& self.node_size == RTREE_NODE_SIZE
        &&& self.aux_columns.len() <= RTREE_MAX_AUX_COLUMN
        &&& self.node_count >= 0
    }

    /// The table differs from `other` at most in its counters and its depth.
    pub open spec fn same_shape(self, other: TableView) -> bool {
        &&& self.n_dim2 == other.n_dim2
        &&& self.n_bytes_per_cell == other.n_bytes_per_cell
        &&& self.node_size == other.node_size
        &&& self.table_name == other.table_name
        &&& self.aux_columns == other.aux_columns
    }

    /// How many cells a page has room for.
    pub open spec fn max_cells(self) -> nat {
        ((self.node_size - 4) / self.n_bytes_per_cell as int) as nat
    }

    /// How many cells a node other than the root should have at least.
    pub open spec fn min_cells(self) -> nat {
        self.max_cells() / 3
    }

    /// Most steps from node to node on the way up or down the tree: as many as there are nodes, and
    /// at least 100. A longer way goes in a circle.
    pub open spec fn max_hops(self) -> nat {
        if self.node_count > 100 {
            self.node_count as nat
        } else {
            100
        }
    }

    /// Most nodes that are looked after when one of them has lost a cell: as many as there are, and
    /// at least 500.
    pub open spec fn max_fixes(self) -> nat {
        if self.node_count > 500 {
            self.node_count as nat
        } else {
            500
        }
    }

    /// The bytes are a page of this table: of its size, and with no more cells than fit.
    pub open spec fn holds(self, data: Seq<u8>) -> bool {
        &&& data.len() == self.node_size
        &&& node::page_count(data) <= self.max_cells()
    }

    /// The cells of a page.
    pub open spec fn cells(self, data: Seq<u8>) -> Seq<node::CellView> {
        node::page_cells(data, self.n_dim2 as nat, self.n_bytes_per_cell as nat)
    }

    /// The cells that a page has room for lie inside it.
    pub proof fn lemma_room(self)
        requires
            self.wf(),
        ensures
            83 <= self.max_cells() <= 251,
            node::cell_offset(self.n_bytes_per_cell as nat, self.max_cells() as int)
                <= self.node_size,
            forall|data: Seq<u8>| #[trigger]
                self.holds(data) ==> page_laws::page_fits(data, self.n_bytes_per_cell as nat),
    {
        let n = self.n_dim2;
        assert(n == 2 || n == 4 || n == 6 || n == 8 || n == 10);
        assert(4028int / 16 == 251 && 4028int / 24 == 167 && 4028int / 32 == 125 && 4028int / 40 == 100
            && 4028int / 48 == 83);
        assert(16int * 251 <= 4028 && 24int * 167 <= 4028 && 32int * 125 <= 4028 && 40int * 100 <= 4028
            && 48int * 83 <= 4028);
        assert forall|data: Seq<u8>| #[trigger]
            self.holds(data) implies page_laws::page_fits(data, self.n_bytes_per_cell as nat) by {
            let w = self.n_bytes_per_cell as nat;
            let count = node::page_count(data) as int;
            let max = self.max_cells() as int;
            assert(w * count <= w * max) by (nonlinear_arith)
                requires
                    count <= max,
            ;
        }
    }

    /// A place for a cell that a page has room for lies inside it.
    pub proof fn lemma_slot_inside(self, i: int)
        requires
            self.wf(),
            0 <= i < self.max_cells(),
        ensures
            node::cell_offset(self.n_bytes_per_cell as nat, i) >= 4,
            node::cell_offset(self.n_bytes_per_cell as nat, i) + 8 + 4 * self.n_dim2
                <= self.node_size,
            node::cell_offset(self.n_bytes_per_cell as nat, i + 1) <= self.node_size,
    {
        self.lemma_room();
        node::lemma_cell_room(
            self.n_bytes_per_cell as nat,
            i,
            self.max_cells() - 1,
            self.node_size as int,
        );
    }

    /// A counted cell of a page lies inside it.
    pub proof fn lemma_cell_inside(self, data: Seq<u8>, i: int)
        requires
            self.wf(),
            self.holds(data),
            0 <= i < node::page_count(data),
        ensures
            node::cell_offset(self.n_bytes_per_cell as nat, i) >= 4,
            node::cell_offset(self.n_bytes_per_cell as nat, i) + 8 + 4 * self.n_dim2
                <= data.len(),
            node::cell_offset(self.n_bytes_per_cell as nat, i + 1) <= data.len(),
    {
        self.lemma_slot_inside(i);
    }
}

/// Index of the first cell with the given row id, if there is one.
#[verifier::opaque]
pub open spec fn index_of_rowid(cells: Seq<node::CellView>, rowid: i64) -> Option<int> {
    if exists|i: int| 0 <= i < cells.len() && #[trigger] cells[i].rowid == rowid {
        Some(
            choose|i: int|
                0 <= i < cells.len() && #[trigger] cells[i].rowid == rowid && (forall|j: int|
                    0 <= j < i ==> #[trigger] cells[j].rowid != rowid),
        )
    } else {
        None
    }
}

/// The first cell with a row id, recognised: no earlier cell has it.
pub proof fn lemma_index_of_rowid(cells: Seq<node::CellView>, rowid: i64, i: int)
    requires
        0 <= i < cells.len(),
        cells[i].rowid == rowid,
        forall|j: int| 0 <= j < i ==> #[trigger] cells[j].rowid != rowid,
    ensures
        index_of_rowid(cells, rowid) == Some(i),
{
    reveal(index_of_rowid);
    assert(exists|k: int| 0 <= k < cells.len() && #[trigger] cells[k].rowid == rowid);
    let c = index_of_rowid(cells, rowid)->0;
    assert(0 <= c < cells.len() && cells[c].rowid == rowid && (forall|j: int|
        0 <= j < c ==> #[trigger] cells[j].rowid != rowid));
    assert(c == i);
}

/// What is found under a row id has it, and is the first that has it.
pub proof fn lemma_found_by_rowid(cells: Seq<node::CellView>, rowid: i64)
    ensures
        match index_of_rowid(cells, rowid) {
            Some(i) => 0 <= i < cells.len() && cells[i].rowid == rowid && (forall|j: int|
                0 <= j < i ==> #[trigger] cells[j].rowid != rowid),
            None => forall|j: int| 0 <= j < cells.len() ==> #[trigger] cells[j].rowid != rowid,
        },
{
    reveal(index_of_rowid);
    if exists|i: int| 0 <= i < cells.len() && #[trigger] cells[i].rowid == rowid {
        let i = choose|i: int| 0 <= i < cells.len() && #[trigger] cells[i].rowid == rowid;
        lemma_first_exists(cells, rowid, i);
    }
}

proof fn lemma_first_exists(cells: Seq<node::CellView>, rowid: i64, i: int)
    requires
        0 <= i < cells.len(),
        cells[i].rowid == rowid,
    ensures
        exists|k: int|
            0 <= k < cells.len() && #[trigger] cells[k].rowid == rowid && (forall|j: int|
                0 <= j < k ==> #[trigger] cells[j].rowid != rowid),
    decreases i,
{
    if exists|j: int| 0 <= j < i && #[trigger] cells[j].rowid == rowid {
        let j = choose|j: int| 0 <= j < i && #[trigger] cells[j].rowid == rowid;
        lemma_first_exists(cells, rowid, j);
    }
}

impl RtreeTable {
    pub fn max_cells(&self) -> (r: usize)
        requires
            self.node_size >= 4,
            self.n_bytes_per_cell > 0,
        ensures
            r == self@.max_cells(),
    {
        (self.node_size - 4) / self.n_bytes_per_cell
    }

    /// A third of the room of a page.
    pub fn min_cells(&self) -> (r: usize)
        requires
            self.node_size >= 4,
            self.n_bytes_per_cell > 0,
        ensures
            r == self@.min_cells(),
    {
        self.max_cells() / 3
    }

    /// Most steps from node to node on the way up or down the tree.
    pub(crate) fn max_hops(&self) -> (r: u64)
        ensures
            r == self@.max_hops(),
    {
        if self.node_count > 100 {
            self.node_count as u64
        } else {
            100
        }
    }

    /// Most nodes that are looked after when one of them has lost a cell.
    pub(crate) fn max_fixes(&self) -> (r: u64)
        ensures
            r == self@.max_fixes(),
    {
        if self.node_count > 500 {
            self.node_count as u64
        } else {
            500
        }
    }

    /// The first cell of `node` with the given row id.
    pub fn find_cell_index(&self, node: &RtreeNode, rowid: i64) -> (r: Option<usize>)
        requires
            self@.wf(),
            self@.holds(node.data@),
        ensures
            match r {
                Some(i) => index_of_rowid(self@.cells(node.data@), rowid) == Some(i as int)
                    && i < node::page_count(node.data@),
                None => index_of_rowid(self@.cells(node.data@), rowid) is None,
            },
    {
        let n_cells: usize = node.cell_count();
        let ghost cells = self@.cells(node.data@);
        let mut i: usize = 0;
        while i < n_cells
            invariant
                self@.wf(),
                self@.holds(node.data@),
                cells == self@.cells(node.data@),
                n_cells == cells.len(),
                i <= n_cells,
                forall|j: int| 0 <= j < i ==> #[trigger] cells[j].rowid != rowid,
            decreases n_cells - i,
        {
            proof {
                self@.lemma_cell_inside(node.data@, i as int);
            }
            let cell = node.get_cell(self.n_dim2, self.n_bytes_per_cell, i);
            assert(cell@ == cells[i as int]);
            if cell.rowid == rowid {
                proof {
                    lemma_index_of_rowid(cells, rowid, i as int);
                }
                return Some(i);
            }
            i = i + 1;
        }
        proof {
            reveal(index_of_rowid);
        }
        None
    }

    /// Takes one cell out of `node`. An index behind the last cell changes nothing.
    pub fn delete_cell_from_node(&self, node: &mut RtreeNode, cell_index: usize)
        requires
            self@.wf(),
            self@.holds(old(node).data@),
        ensures
            final(node)@ == if cell_index < node::page_count(old(node).data@) {
                old(node)@.edited(
                    node::without_cell(
                        old(node).data@,
                        self.n_bytes_per_cell as nat,
                        cell_index as int,
                    ),
                )
            } else {
                old(node)@
            },
            self@.holds(final(node).data@),
    {
        let n_cells: usize = node.cell_count();
        if cell_index >= n_cells {
            return ;
        }
        proof {
            self@.lemma_cell_inside(node.data@, cell_index as int);
            self@.lemma_room();
        }
        let ghost before = node.data@;
        let width: usize = self.n_bytes_per_cell;
        let size: usize = node.data.len();
        let start: usize = 4 + width * cell_index;
        let mut k: usize = start;
        while k + width < size
            invariant
                start <= k,
                k + width <= size,
                size == before.len(),
                size == 4032,
                width <= 48,
                before == old(node).data@,
                node.node_no == old(node).node_no,
                node.depth == old(node).depth,
                node.data.len() == size,
                forall|j: int| 0 <= j < start ==> node.data@[j] == before[j],
                forall|j: int| start <= j < k ==> #[trigger] node.data@[j] == before[j + width],
                forall|j: int| k <= j < size ==> node.data@[j] == before[j],
            decreases size - k,
        {
            let moved: u8 = node.data[k + width];
            node.data.set(k, moved);
            k = k + 1;
        }
        let ghost shifted = Seq::new(
            before.len(),
            |j: int|
                if node::cell_offset(width as nat, cell_index as int) <= j && j + width
                    < before.len() {
                    before[j + width]
                } else {
                    before[j]
                },
        );
        assert(node.data@ =~= shifted);
        node.set_cell_count(n_cells - 1);
        proof {
            node::lemma_count_round_trip(shifted, (n_cells - 1) as nat);
        }
    }
}

} // verus!
