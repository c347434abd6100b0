//! What the bytes of a page stand for.

use vstd::prelude::*;
use crate::bytes;
use crate::node;
use crate::node::{CellView, NodeView};
use crate::value::ValueView;

verus! {

/// The number of the bytes of a list, each byte worth 256 times the next one.
pub open spec fn highest_first(bs: Seq<u8>) -> int
    decreases bs.len(),
{
    if bs.len() == 0 {
        0
    } else {
        256 * highest_first(bs.drop_last()) + bs.last()
    }
}

/// The number of the bytes of a list, each byte worth 256 times the one before it.
pub open spec fn lowest_first(bs: Seq<u8>) -> int
    decreases bs.len(),
{
    if bs.len() == 0 {
        0
    } else {
        bs[0] + 256 * lowest_first(bs.skip(1))
    }
}

proof fn lemma_highest_first_of_four(bs: Seq<u8>)
    requires
        bs.len() == 4,
    ensures
        highest_first(bs) == 0x100_0000 * bs[0] + 0x1_0000 * bs[1] + 0x100 * bs[2] + bs[3],
{
    reveal_with_fuel(highest_first, 5);
}

proof fn lemma_highest_first_in_parts(a: Seq<u8>, b: Seq<u8>)
    requires
        b.len() == 4,
    ensures
        highest_first(a + b) == 0x1_0000_0000 * highest_first(a) + highest_first(b),
{
    reveal_with_fuel(highest_first, 5);
    let ab = a + b;
    assert(ab.drop_last() =~= a + b.drop_last());
    assert((a + b.drop_last()).drop_last() =~= a + b.drop_last().drop_last());
    assert((a + b.drop_last().drop_last()).drop_last() =~= a
        + b.drop_last().drop_last().drop_last());
    assert((a + b.drop_last().drop_last().drop_last()).drop_last() =~= a);
    assert(b.drop_last().drop_last().drop_last().drop_last() =~= Seq::empty());
}

proof fn lemma_lowest_first_of_four(bs: Seq<u8>)
    requires
        bs.len() == 4,
    ensures
        lowest_first(bs) == bs[0] + 0x100 * bs[1] + 0x1_0000 * bs[2] + 0x100_0000 * bs[3],
{
    reveal_with_fuel(lowest_first, 5);
}

proof fn lemma_lowest_first_in_parts(a: Seq<u8>, b: Seq<u8>)
    requires
        a.len() == 4,
    ensures
        lowest_first(a + b) == lowest_first(a) + 0x1_0000_0000 * lowest_first(b),
{
    reveal_with_fuel(lowest_first, 5);
    assert((a + b).skip(1) =~= a.skip(1) + b);
    assert((a.skip(1) + b).skip(1) =~= a.skip(1).skip(1) + b);
    assert((a.skip(1).skip(1) + b).skip(1) =~= a.skip(1).skip(1).skip(1) + b);
    assert((a.skip(1).skip(1).skip(1) + b).skip(1) =~= b);
    assert(a.skip(1).skip(1).skip(1).skip(1) =~= Seq::empty());
}

proof fn lemma_four_bytes(x: u32)
    ensures
        bytes::be32_bytes(x).len() == 4,
        highest_first(bytes::be32_bytes(x)) == x,
        bytes::le32_bytes(x).len() == 4,
        lowest_first(bytes::le32_bytes(x)) == x,
{
    lemma_highest_first_of_four(bytes::be32_bytes(x));
    lemma_lowest_first_of_four(bytes::le32_bytes(x));
    let b = bytes::be32_bytes(x);
    let l = bytes::le32_bytes(x);
    let x3 = x / 0x100_0000;
    let x2 = x / 0x1_0000 % 0x100;
    let x1 = x / 0x100 % 0x100;
    let x0 = x % 0x100;
    assert(x == 0x100_0000 * x3 + 0x1_0000 * x2 + 0x100 * x1 + x0);
    assert(x3 < 0x100);
    assert(b[0] == x3 && b[1] == x2 && b[2] == x1 && b[3] == x0);
    assert(l[3] == x3 && l[2] == x2 && l[1] == x1 && l[0] == x0);
}

/// The bytes that a number is written as stand for the number.
pub proof fn lemma_bytes_of_numbers(x: u32, y: u64)
    ensures
        bytes::be32_bytes(x).len() == 4,
        highest_first(bytes::be32_bytes(x)) == x,
        bytes::be64_bytes(y).len() == 8,
        highest_first(bytes::be64_bytes(y)) == y,
        bytes::le32_bytes(x).len() == 4,
        lowest_first(bytes::le32_bytes(x)) == x,
        bytes::le64_bytes(y).len() == 8,
        lowest_first(bytes::le64_bytes(y)) == y,
{
    let low = (y % 0x1_0000_0000) as u32;
    let high = (y / 0x1_0000_0000) as u32;
    lemma_four_bytes(x);
    lemma_four_bytes(low);
    lemma_four_bytes(high);
    let hb = bytes::be32_bytes(high);
    let lb = bytes::be32_bytes(low);
    let hl = bytes::le32_bytes(high);
    let ll = bytes::le32_bytes(low);
    assert(bytes::be64_bytes(y) == hb + lb);
    assert(bytes::le64_bytes(y) == ll + hl);
    lemma_highest_first_in_parts(hb, lb);
    lemma_lowest_first_in_parts(ll, hl);
    assert(y == 0x1_0000_0000 * high + low);
}

/// The numbers that are read of bytes are those that the bytes stand for.
pub proof fn lemma_numbers_of_bytes(data: Seq<u8>, offset: int)
    requires
        0 <= offset,
        offset + 8 <= data.len(),
    ensures
        bytes::be32_at(data, offset) == highest_first(data.subrange(offset, offset + 4)),
        bytes::be64_at(data, offset) == highest_first(data.subrange(offset, offset + 8)),
        bytes::le32_at(data, offset) == lowest_first(data.subrange(offset, offset + 4)),
        bytes::le64_at(data, offset) == lowest_first(data.subrange(offset, offset + 8)),
{
    let a = data.subrange(offset, offset + 4);
    let b = data.subrange(offset + 4, offset + 8);
    assert(data.subrange(offset, offset + 8) =~= a + b);
    lemma_highest_first_of_four(a);
    lemma_highest_first_of_four(b);
    lemma_highest_first_in_parts(a, b);
    lemma_lowest_first_of_four(a);
    lemma_lowest_first_of_four(b);
    lemma_lowest_first_in_parts(a, b);
}

/// A signed number and its unsigned form differ by 0 or by 2 to the power of 64.
pub proof fn lemma_signed_numbers(value: i64, unsigned: u64)
    ensures
        bytes::unsigned64(value) == value || bytes::unsigned64(value) == value
            + 0x1_0000_0000_0000_0000,
        bytes::signed64(unsigned as int) == unsigned || bytes::signed64(unsigned as int) == unsigned
            - 0x1_0000_0000_0000_0000,
        i64::MIN <= bytes::signed64(unsigned as int) <= i64::MAX,
{
}

/// The head of a page: two bytes for the depth and two for the number of cells, the higher one first.
pub proof fn lemma_page_head(data: Seq<u8>, count: nat, depth: nat)
    requires
        data.len() >= 4,
        count < 0x1_0000,
        depth < 0x1_0000,
    ensures
        node::page_depth(data) == highest_first(data.subrange(0, 2)),
        node::page_count(data) == highest_first(data.subrange(2, 4)),
        node::with_count(data, count).len() == data.len(),
        node::with_depth(data, depth).len() == data.len(),
        highest_first(node::with_count(data, count).subrange(2, 4)) == count,
        highest_first(node::with_depth(data, depth).subrange(0, 2)) == depth,
        forall|k: int|
            0 <= k < data.len() && !(2 <= k < 4) ==> #[trigger] node::with_count(data, count)[k]
                == data[k],
        forall|k: int|
            2 <= k < data.len() ==> #[trigger] node::with_depth(data, depth)[k] == data[k],
{
    reveal_with_fuel(highest_first, 3);
    assert(count / 256 < 256 && depth / 256 < 256);
}

/// Cell `i` of a page stands behind the head and the cells before it: eight bytes for the row id and
/// then four bytes for each coordinate, the highest first.
pub proof fn lemma_cell_layout(data: Seq<u8>, n_dim2: nat, width: nat, i: int, k: int)
    requires
        n_dim2 <= 10,
        0 <= i,
        8 + 4 * n_dim2 <= width,
        4 + width * (i + 1) <= data.len(),
        0 <= k < 10,
    ensures
        ({
            let cell = node::cell_at(data, n_dim2, width, i);
            let at = 4 + width * i;
            let id = highest_first(data.subrange(at, at + 8));
            &&& cell.rowid == id || cell.rowid == id - 0x1_0000_0000_0000_0000
            &&& cell.coords.len() == 10
            &&& k < n_dim2 ==> cell.coords[k].bits == highest_first(
                data.subrange(at + 8 + 4 * k, at + 8 + 4 * k + 4),
            )
            &&& k >= n_dim2 ==> cell.coords[k].bits == 0
        }),
{
    let at = 4 + width * i;
    assert(width * (i + 1) == width * i + width) by (nonlinear_arith);
    assert(width * i >= 0) by (nonlinear_arith)
        requires
            i >= 0,
    ;
    lemma_numbers_of_bytes(data, at);
    let u = bytes::be64_at(data, at);
    lemma_be64_range(data, at);
    lemma_signed_numbers(0, u as u64);
    if k < n_dim2 {
        let o = at + 8 + 4 * k;
        lemma_highest_first_of_four(data.subrange(o, o + 4));
    }
}

proof fn lemma_be64_range(data: Seq<u8>, offset: int)
    ensures
        0 <= bytes::be64_at(data, offset) <= u64::MAX,
{
}

/// Writing a cell to a page writes its row id and coordinates to its place, and no other byte.
pub proof fn lemma_written_cell(
    data: Seq<u8>,
    n_dim2: nat,
    width: nat,
    i: int,
    cell: CellView,
    k: int,
)
    requires
        n_dim2 <= 10,
        0 <= i,
        8 + 4 * n_dim2 <= width,
        4 + width * (i + 1) <= data.len(),
        0 <= k < data.len(),
    ensures
        ({
            let page = node::with_cell(data, n_dim2, width, i, cell);
            let back = node::cell_at(page, n_dim2, width, i);
            let at = 4 + width * i;
            &&& page.len() == data.len()
            &&& back.rowid == cell.rowid
            &&& forall|j: int| 0 <= j < n_dim2 ==> #[trigger] back.coords[j] == cell.coords[j]
            &&& k < at || k >= at + 8 + 4 * n_dim2 ==> page[k] == data[k]
        }),
{
    assert(width * (i + 1) == width * i + width) by (nonlinear_arith);
    assert(width * i >= 0) by (nonlinear_arith)
        requires
            i >= 0,
    ;
    node::lemma_cell_round_trip(data, n_dim2, width, i, cell);
    let page = node::with_cell(data, n_dim2, width, i, cell);
    let back = node::cell_at(page, n_dim2, width, i);
    assert forall|j: int| 0 <= j < n_dim2 implies #[trigger] back.coords[j] == cell.coords[j] by {
        assert(back.coords[j] == cell.kept(n_dim2).coords[j]);
    }
}

/// A new node holds no cells: all its bytes are 0, but for the depth that the root holds. Only the
/// root tells and takes a depth.
pub proof fn lemma_new_node(node_no: i64, depth: usize, size: nat, n: NodeView)
    requires
        size >= 4,
        depth < 0x1_0000,
    ensures
        ({
            let fresh = NodeView::fresh(node_no, depth, size);
            &&& fresh.node_no == node_no
            &&& fresh.data.len() == size
            &&& forall|k: int| 2 <= k < size ==> #[trigger] fresh.data[k] == 0
            &&& node_no != 1 ==> fresh.data[0] == 0 && fresh.data[1] == 0
            &&& node_no == 1 ==> highest_first(fresh.data.subrange(0, 2)) == depth
        }),
        n.node_no != 1 ==> n.tree_depth() == 0 && n.deepened(depth as nat) == n,
        n.node_no == 1 && n.data.len() >= 4 ==> n.tree_depth() == highest_first(
            n.data.subrange(0, 2),
        ) && n.deepened(depth as nat).data == node::with_depth(n.data, depth as nat),
{
    reveal_with_fuel(highest_first, 3);
    assert((depth as nat) / 256 < 256);
}

/// A page that is read has the bytes that are stored, as far as there are any, and zeros behind them.
pub proof fn lemma_fitted(data: Seq<u8>, size: nat, k: int)
    requires
        0 <= k < size,
    ensures
        bytes::fitted(data, size).len() == size,
        k < data.len() ==> bytes::fitted(data, size)[k] == data[k],
        k >= data.len() ==> bytes::fitted(data, size)[k] == 0,
{
}

/// A value is kept as it is, but for an error, which is kept as NULL.
pub proof fn lemma_kept_value(v: ValueView)
    ensures
        v == ValueView::Error ==> v.owned() == ValueView::Null,
        v != ValueView::Error ==> v.owned() == v,
{
}

} // verus!
