//! Nodes of the tree and the cells inside them.
//!
//! A node is a page of bytes. The first two bytes of the root hold the depth of the tree and the
//! next two bytes of every node its number of cells. The cells follow, each of the same width: a
//! 64 bit row id (or child node number) and the coordinates. All numbers are big endian.

use vstd::prelude::*;
use crate::bytes;
use crate::coord::Coord;

verus! {

/// Most dimensions that a table can have.
pub const RTREE_MAX_DIMENSIONS: usize = 5;

/// Coordinates that a cell has room for: two for each dimension.
pub const RTREE_MAX_COORDS: usize = 10;

/// A row id, or the number of a child node, with its bounding box.
///
/// Dimension `d` spans from `coords[2 * d]` to `coords[2 * d + 1]`.
#[derive(Clone, Copy, Debug)]
pub struct RtreeCell {
    pub rowid: i64,
    pub coords: [Coord; 10],
}

/// The model of a cell.
#[verifier::ext_equal]
pub struct CellView {
    pub rowid: i64,
    pub coords: Seq<Coord>,
}

impl View for RtreeCell {
    type V = CellView;

    open spec fn view(&self) -> CellView {
        CellView { rowid: self.rowid, coords: self.coords@ }
    }
}

impl CellView {
    /// The cell whose coordinates are all 0.
    pub open spec fn blank(rowid: i64) -> CellView {
        CellView {
            rowid,
            coords: Seq::new(RTREE_MAX_COORDS as nat, |k: int| Coord::spec_zero()),
        }
    }

    /// The cell with only its first `n_dim2` coordinates kept, the others 0.
    pub open spec fn kept(self, n_dim2: nat) -> CellView {
        CellView {
            rowid: self.rowid,
            coords: Seq::new(
                RTREE_MAX_COORDS as nat,
                |k: int|
                    if k < n_dim2 {
                        self.coords[k]
                    } else {
                        Coord::spec_zero()
                    },
            ),
        }
    }
}

impl RtreeCell {
    pub fn new(rowid: i64) -> (cell: RtreeCell)
        ensures
            cell@ == CellView::blank(rowid),
    {
        let cell = RtreeCell { rowid, coords: [Coord { bits: 0 };10] };
        assert(cell@.coords =~= CellView::blank(rowid).coords);
        cell
    }
}

/// The models of the cells of a list.
pub open spec fn cell_views(cells: Seq<RtreeCell>) -> Seq<CellView> {
    Seq::new(cells.len(), |i: int| cells[i]@)
}

/// Number of cells that a page says it has.
pub open spec fn page_count(data: Seq<u8>) -> nat {
    bytes::be16(data[2], data[3])
}

/// Depth of the tree that a root page holds.
pub open spec fn page_depth(data: Seq<u8>) -> nat {
    bytes::be16(data[0], data[1])
}

/// A page with the low 16 bits of `count` as its number of cells.
pub open spec fn with_count(data: Seq<u8>, count: nat) -> Seq<u8> {
    data.update(2, (count / 256 % 256) as u8).update(3, (count % 256) as u8)
}

/// A page with the low 16 bits of `depth` as its depth.
pub open spec fn with_depth(data: Seq<u8>, depth: nat) -> Seq<u8> {
    data.update(0, (depth / 256 % 256) as u8).update(1, (depth % 256) as u8)
}

/// Where cell `i` of a page starts, with cells of `width` bytes.
pub open spec fn cell_offset(width: nat, i: int) -> int {
    4 + width * i
}

/// The row id stored at `offset`.
pub open spec fn rowid_at(data: Seq<u8>, offset: int) -> i64 {
    bytes::signed64(bytes::be64_at(data, offset)) as i64
}

/// The coordinate stored at `offset`.
pub open spec fn coord_at(data: Seq<u8>, offset: int) -> Coord {
    Coord { bits: bytes::be32_at(data, offset) as u32 }
}

/// Coordinates of cell `i` of a page: the `n_dim2` stored ones, then zeros.
pub open spec fn coords_at(data: Seq<u8>, n_dim2: nat, width: nat, i: int) -> Seq<Coord> {
    Seq::new(
        RTREE_MAX_COORDS as nat,
        |k: int|
            if k < n_dim2 {
                coord_at(data, cell_offset(width, i) + 8 + 4 * k)
            } else {
                Coord::spec_zero()
            },
    )
}

/// Cell `i` of a page.
pub open spec fn cell_at(data: Seq<u8>, n_dim2: nat, width: nat, i: int) -> CellView {
    CellView {
        rowid: rowid_at(data, cell_offset(width, i)),
        coords: coords_at(data, n_dim2, width, i),
    }
}

/// The cells of a page.
pub open spec fn page_cells(data: Seq<u8>, n_dim2: nat, width: nat) -> Seq<CellView> {
    Seq::new(page_count(data), |i: int| cell_at(data, n_dim2, width, i))
}

/// The bytes of a cell with `n_dim2` coordinates.
pub open spec fn cell_bytes(cell: CellView, n_dim2: nat) -> Seq<u8> {
    Seq::new(
        8 + 4 * n_dim2,
        |k: int|
            if k < 8 {
                bytes::be64_bytes(bytes::unsigned64(cell.rowid))[k]
            } else {
                bytes::be32_bytes(cell.coords[(k - 8) / 4].bits)[(k - 8) % 4]
            },
    )
}

/// A page with `cell` written as cell `i`.
pub open spec fn with_cell(
    data: Seq<u8>,
    n_dim2: nat,
    width: nat,
    i: int,
    cell: CellView,
) -> Seq<u8> {
    bytes::overwrite(data, cell_offset(width, i), cell_bytes(cell, n_dim2))
}

/// A page with `cells` written from the first cell on.
pub open spec fn with_cells(
    data: Seq<u8>,
    n_dim2: nat,
    width: nat,
    cells: Seq<CellView>,
) -> Seq<u8>
    decreases cells.len(),
{
    if cells.len() == 0 {
        data
    } else {
        with_cell(
            with_cells(data, n_dim2, width, cells.drop_last()),
            n_dim2,
            width,
            cells.len() - 1,
            cells.last(),
        )
    }
}

/// A page without cell `i`: the bytes behind it moved down by one cell, and one cell less.
pub open spec fn without_cell(data: Seq<u8>, width: nat, i: int) -> Seq<u8> {
    with_count(
        Seq::new(
            data.len(),
            |k: int|
                if cell_offset(width, i) <= k && k + width < data.len() {
                    data[k + width]
                } else {
                    data[k]
                },
        ),
        (page_count(data) - 1) as nat,
    )
}

/// A page of `size` zero bytes.
pub open spec fn empty_page(size: nat) -> Seq<u8> {
    Seq::new(size, |k: int| 0u8)
}

/// A node of the tree, held by its page.
#[derive(Clone, Debug)]
pub struct RtreeNode {
    pub node_no: i64,
    pub depth: usize,
    pub data: Vec<u8>,
    pub is_dirty: bool,
}

/// The model of a node.
#[verifier::ext_equal]
pub struct NodeView {
    pub node_no: i64,
    pub depth: usize,
    pub data: Seq<u8>,
    pub is_dirty: bool,
}

impl View for RtreeNode {
    type V = NodeView;

    open spec fn view(&self) -> NodeView {
        NodeView {
            node_no: self.node_no,
            depth: self.depth,
            data: self.data@,
            is_dirty: self.is_dirty,
        }
    }
}

impl NodeView {
    /// A node without cells. Only the root, node 1, holds the depth in its page.
    pub open spec fn fresh(node_no: i64, depth: usize, size: nat) -> NodeView {
        NodeView {
            node_no,
            depth,
            data: if node_no == 1 {
                with_depth(empty_page(size), depth as nat)
            } else {
                empty_page(size)
            },
            is_dirty: true,
        }
    }

    /// Depth of the tree as this node tells it: only the root knows it.
    pub open spec fn tree_depth(self) -> nat {
        if self.node_no == 1 {
            page_depth(self.data)
        } else {
            0
        }
    }

    /// The node with a changed page.
    pub open spec fn edited(self, data: Seq<u8>) -> NodeView {
        NodeView { data, is_dirty: true, ..self }
    }

    /// The node with `count` as its number of cells.
    pub open spec fn counted(self, count: nat) -> NodeView {
        self.edited(with_count(self.data, count))
    }

    /// The node with `depth` as the depth of the tree, which only the root takes.
    pub open spec fn deepened(self, depth: nat) -> NodeView {
        if self.node_no == 1 {
            self.edited(with_depth(self.data, depth))
        } else {
            self
        }
    }

    /// The node with `cell` as cell `i`.
    pub open spec fn placed(self, n_dim2: nat, width: nat, i: int, cell: CellView) -> NodeView {
        self.edited(with_cell(self.data, n_dim2, width, i, cell))
    }
}

impl RtreeNode {
    pub fn new(node_no: i64, depth: usize, size: usize) -> (node: RtreeNode)
        requires
            node_no == 1 ==> size >= 2,
        ensures
            node@ == NodeView::fresh(node_no, depth, size as nat),
    {
        let mut data: Vec<u8> = vec![0u8; size];
        assert(data@ =~= empty_page(size as nat));
        if node_no == 1 {
            data.set(0, (depth / 256 % 256) as u8);
            data.set(1, (depth % 256) as u8);
        }
        RtreeNode { node_no, depth, data, is_dirty: true }
    }

    pub fn cell_count(&self) -> (r: usize)
        requires
            self.data.len() >= 4,
        ensures
            r == page_count(self.data@),
    {
        (self.data[2] as usize) * 256 + (self.data[3] as usize)
    }

    pub fn set_cell_count(&mut self, count: usize)
        requires
            old(self).data.len() >= 4,
        ensures
            final(self)@ == old(self)@.counted(count as nat),
    {
        self.data.set(2, (count / 256 % 256) as u8);
        self.data.set(3, (count % 256) as u8);
        self.is_dirty = true;
    }

    pub fn tree_depth(&self) -> (r: usize)
        requires
            self.node_no == 1 ==> self.data.len() >= 2,
        ensures
            r == self@.tree_depth(),
    {
        if self.node_no == 1 {
            (self.data[0] as usize) * 256 + (self.data[1] as usize)
        } else {
            0
        }
    }

    pub fn set_depth(&mut self, depth: usize)
        requires
            old(self).node_no == 1 ==> old(self).data.len() >= 2,
        ensures
            final(self)@ == old(self)@.deepened(depth as nat),
    {
        if self.node_no == 1 {
            self.data.set(0, (depth / 256 % 256) as u8);
            self.data.set(1, (depth % 256) as u8);
            self.is_dirty = true;
        }
    }

    pub fn read_coord(&self, offset: usize) -> (r: Coord)
        requires
            offset + 4 <= self.data.len(),
        ensures
            r == coord_at(self.data@, offset as int),
    {
        Coord { bits: bytes::read_be32(&self.data, offset) }
    }

    pub fn write_coord(&mut self, offset: usize, coord: Coord)
        requires
            offset + 4 <= old(self).data.len(),
        ensures
            final(self)@ == old(self)@.edited(
                bytes::overwrite(old(self).data@, offset as int, bytes::be32_bytes(coord.bits)),
            ),
    {
        bytes::write_be32(&mut self.data, offset, coord.bits);
        self.is_dirty = true;
    }

    pub fn read_int64(&self, offset: usize) -> (r: i64)
        requires
            offset + 8 <= self.data.len(),
        ensures
            r == rowid_at(self.data@, offset as int),
    {
        bytes::to_signed64(bytes::read_be64(&self.data, offset))
    }

    pub fn write_int64(&mut self, offset: usize, value: i64)
        requires
            offset + 8 <= old(self).data.len(),
        ensures
            final(self)@ == old(self)@.edited(
                bytes::overwrite(old(self).data@, offset as int, bytes::be64_bytes(bytes::unsigned64(value))),
            ),
    {
        bytes::write_be64(&mut self.data, offset, bytes::to_unsigned64(value));
        self.is_dirty = true;
    }

    pub fn coords(&self, n_dim2: usize, n_bytes_per_cell: usize, i_cell: usize) -> (r: [Coord; 10])
        requires
            n_dim2 <= RTREE_MAX_COORDS,
            cell_offset(n_bytes_per_cell as nat, i_cell as int) + 8 + 4 * n_dim2
                <= self.data.len(),
        ensures
            r@ == coords_at(self.data@, n_dim2 as nat, n_bytes_per_cell as nat, i_cell as int),
    {
        let offset: usize = 4 + n_bytes_per_cell * i_cell + 8;
        let mut coords: [Coord; 10] = [Coord { bits: 0 };10];
        let mut k: usize = 0;
        while k < n_dim2
            invariant
                k <= n_dim2 <= RTREE_MAX_COORDS,
                offset == cell_offset(n_bytes_per_cell as nat, i_cell as int) + 8,
                offset + 4 * n_dim2 <= self.data.len(),
                forall|j: int|
                    0 <= j < k ==> coords@[j] == coord_at(self.data@, offset + 4 * j),
                forall|j: int| k <= j < RTREE_MAX_COORDS ==> coords@[j] == Coord::spec_zero(),
            decreases n_dim2 - k,
        {
            coords[k] = self.read_coord(offset + k * 4);
            k = k + 1;
        }
        assert(coords@ =~= coords_at(
            self.data@,
            n_dim2 as nat,
            n_bytes_per_cell as nat,
            i_cell as int,
        ));
        coords
    }

    pub fn get_cell(&self, n_dim2: usize, n_bytes_per_cell: usize, i_cell: usize) -> (r: RtreeCell)
        requires
            n_dim2 <= RTREE_MAX_COORDS,
            cell_offset(n_bytes_per_cell as nat, i_cell as int) + 8 + 4 * n_dim2
                <= self.data.len(),
        ensures
            r@ == cell_at(self.data@, n_dim2 as nat, n_bytes_per_cell as nat, i_cell as int),
    {
        let offset: usize = 4 + n_bytes_per_cell * i_cell;
        let rowid: i64 = self.read_int64(offset);
        RtreeCell { rowid, coords: self.coords(n_dim2, n_bytes_per_cell, i_cell) }
    }

    pub fn set_cell(
        &mut self,
        n_dim2: usize,
        n_bytes_per_cell: usize,
        i_cell: usize,
        cell: &RtreeCell,
    )
        requires
            n_dim2 <= RTREE_MAX_COORDS,
            cell_offset(n_bytes_per_cell as nat, i_cell as int) + 8 + 4 * n_dim2 <= old(
                self,
            ).data.len(),
        ensures
            final(self)@ == old(self)@.placed(
                n_dim2 as nat,
                n_bytes_per_cell as nat,
                i_cell as int,
                cell@,
            ),
    {
        let ghost start = self.data@;
        let offset: usize = 4 + n_bytes_per_cell * i_cell;
        self.write_int64(offset, cell.rowid);
        let coord_offset: usize = offset + 8;
        assert(self.data@ =~= bytes::overwrite(start, offset as int, cell_bytes(cell@, 0)));
        let mut k: usize = 0;
        while k < n_dim2
            invariant
                k <= n_dim2 <= RTREE_MAX_COORDS,
                coord_offset == offset + 8,
                offset == cell_offset(n_bytes_per_cell as nat, i_cell as int),
                coord_offset + 4 * n_dim2 <= start.len(),
                start == old(self).data@,
                self.data.len() == start.len(),
                self.node_no == old(self).node_no,
                self.depth == old(self).depth,
                self.is_dirty,
                self.data@ == bytes::overwrite(start, offset as int, cell_bytes(cell@, k as nat)),
            decreases n_dim2 - k,
        {
            self.write_coord(coord_offset + k * 4, cell.coords[k]);
            k = k + 1;
            assert(self.data@ =~= bytes::overwrite(start, offset as int, cell_bytes(cell@, k as nat)));
        }
    }
}

/// Room for cells `0..=i` of `width` bytes leaves room for the first `8 + 4 * n_dim2` bytes of each.
pub proof fn lemma_cell_room(width: nat, i: int, j: int, size: int)
    requires
        0 <= i <= j,
        cell_offset(width, j + 1) <= size,
    ensures
        cell_offset(width, i) >= 4,
        cell_offset(width, i + 1) <= size,
        cell_offset(width, i + 1) == cell_offset(width, i) + width,
        i < j ==> cell_offset(width, i + 1) <= cell_offset(width, j),
{
    assert(width * i >= 0) by (nonlinear_arith)
        requires
            i >= 0,
    ;
    assert(width * (i + 1) == width * i + width) by (nonlinear_arith);
    assert(width * (i + 1) <= width * (j + 1)) by (nonlinear_arith)
        requires
            i <= j,
    ;
    if i < j {
        assert(width * (i + 1) <= width * j) by (nonlinear_arith)
            requires
                i < j,
        ;
    }
}

/// A count below 2^16 that is written to a page is read back from it, and nothing but the two
/// bytes of the count changes.
pub proof fn lemma_count_round_trip(data: Seq<u8>, count: nat)
    requires
        data.len() >= 4,
        count < 0x1_0000,
    ensures
        page_count(with_count(data, count)) == count,
        page_depth(with_count(data, count)) == page_depth(data),
        with_count(data, count).len() == data.len(),
        forall|k: int|
            0 <= k < data.len() && k != 2 && k != 3 ==> #[trigger] with_count(data, count)[k]
                == data[k],
{
    assert(count / 256 < 256);
}

/// A depth below 2^16 that is written to a root page is read back from it, and nothing but the
/// two bytes of the depth changes.
pub proof fn lemma_depth_round_trip(data: Seq<u8>, depth: nat)
    requires
        data.len() >= 4,
        depth < 0x1_0000,
    ensures
        page_depth(with_depth(data, depth)) == depth,
        page_count(with_depth(data, depth)) == page_count(data),
        with_depth(data, depth).len() == data.len(),
        forall|k: int|
            0 <= k < data.len() && k != 0 && k != 1 ==> #[trigger] with_depth(data, depth)[k]
                == data[k],
{
    assert(depth / 256 < 256);
}

/// Two pages that agree on the bytes of a cell hold the same cell there.
pub proof fn lemma_same_bytes_same_cell(
    a: Seq<u8>,
    b: Seq<u8>,
    n_dim2: nat,
    width: nat,
    i: int,
    j: int,
)
    requires
        n_dim2 <= RTREE_MAX_COORDS,
        forall|k: int|
            0 <= k < 8 + 4 * n_dim2 ==> #[trigger] a[cell_offset(width, i) + k] == b[cell_offset(
                width,
                j,
            ) + k],
    ensures
        cell_at(a, n_dim2, width, i) == cell_at(b, n_dim2, width, j),
{
    let p = cell_offset(width, i);
    let q = cell_offset(width, j);
    assert(a[p + 0] == b[q + 0] && a[p + 1] == b[q + 1] && a[p + 2] == b[q + 2] && a[p + 3] == b[q
        + 3]);
    assert(a[p + 4] == b[q + 4] && a[p + 5] == b[q + 5] && a[p + 6] == b[q + 6] && a[p + 7] == b[q
        + 7]);
    assert forall|k: int| 0 <= k < n_dim2 implies #[trigger] coord_at(a, p + 8 + 4 * k) == coord_at(
        b,
        q + 8 + 4 * k,
    ) by {
        assert(a[p + (8 + 4 * k)] == b[q + (8 + 4 * k)]);
        assert(a[p + (9 + 4 * k)] == b[q + (9 + 4 * k)]);
        assert(a[p + (10 + 4 * k)] == b[q + (10 + 4 * k)]);
        assert(a[p + (11 + 4 * k)] == b[q + (11 + 4 * k)]);
    }
    assert(coords_at(a, n_dim2, width, i) =~= coords_at(b, n_dim2, width, j));
}

/// What a cell is set to is what it reads as: `get_cell` gives back the cell of `set_cell`, with
/// the coordinates beyond the stored ones 0.
pub proof fn lemma_cell_round_trip(
    data: Seq<u8>,
    n_dim2: nat,
    width: nat,
    i: int,
    cell: CellView,
)
    requires
        n_dim2 <= RTREE_MAX_COORDS,
        i >= 0,
        cell_offset(width, i) + 8 + 4 * n_dim2 <= data.len(),
    ensures
        cell_at(with_cell(data, n_dim2, width, i, cell), n_dim2, width, i) == cell.kept(n_dim2),
{
    let page = with_cell(data, n_dim2, width, i, cell);
    let p = cell_offset(width, i);
    let bytes = cell_bytes(cell, n_dim2);
    assert(p >= 4) by (nonlinear_arith)
        requires
            p == 4 + width * i,
            i >= 0,
    ;
    assert forall|k: int| 0 <= k < 8 implies page[p + k] == #[trigger] bytes::be64_bytes(
        bytes::unsigned64(cell.rowid),
    )[k] by {
        assert(page[p + k] == bytes[k]);
    }
    bytes::lemma_be64_round_trip(page, p, bytes::unsigned64(cell.rowid));
    bytes::lemma_signed_round_trip(cell.rowid);
    assert forall|k: int| 0 <= k < n_dim2 implies #[trigger] coord_at(page, p + 8 + 4 * k)
        == cell.coords[k] by {
        assert forall|b: int| 0 <= b < 4 implies page[p + 8 + 4 * k + b]
            == #[trigger] bytes::be32_bytes(cell.coords[k].bits)[b] by {
            assert(page[p + (8 + 4 * k + b)] == bytes[8 + 4 * k + b]);
        }
        bytes::lemma_be32_round_trip(page, p + 8 + 4 * k, cell.coords[k].bits);
    }
    assert(coords_at(page, n_dim2, width, i) =~= cell.kept(n_dim2).coords);
}

/// Setting one cell leaves the other cells, the count and the depth of a page as they are.
pub proof fn lemma_set_cell_frame(
    data: Seq<u8>,
    n_dim2: nat,
    width: nat,
    i: int,
    cell: CellView,
    j: int,
)
    requires
        n_dim2 <= RTREE_MAX_COORDS,
        8 + 4 * n_dim2 <= width,
        i >= 0,
        j >= 0,
        i != j,
        cell_offset(width, i + 1) <= data.len(),
        cell_offset(width, j + 1) <= data.len(),
    ensures
        cell_at(with_cell(data, n_dim2, width, i, cell), n_dim2, width, j) == cell_at(
            data,
            n_dim2,
            width,
            j,
        ),
        page_count(with_cell(data, n_dim2, width, i, cell)) == page_count(data),
        page_depth(with_cell(data, n_dim2, width, i, cell)) == page_depth(data),
{
    let page = with_cell(data, n_dim2, width, i, cell);
    if i < j {
        lemma_cell_room(width, i, j, data.len() as int);
    } else {
        lemma_cell_room(width, j, i, data.len() as int);
    }
    lemma_cell_room(width, i, i, data.len() as int);
    lemma_cell_room(width, j, j, data.len() as int);
    lemma_same_bytes_same_cell(page, data, n_dim2, width, j, j);
}

} // verus!
