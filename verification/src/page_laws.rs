//! What editing a page does to the list of its cells.

use vstd::prelude::*;
use crate::node;
use crate::node::{CellView, RTREE_MAX_COORDS};

verus! {

/// The page has a header, and the cells that it counts lie inside it.
pub open spec fn page_fits(data: Seq<u8>, width: nat) -> bool {
    &&& data.len() >= 4
    &&& node::cell_offset(width, node::page_count(data) as int) <= data.len()
}

/// Setting a counted cell updates that place of the cell list, and only that.
pub proof fn lemma_set_cell_updates(
    data: Seq<u8>,
    n_dim2: nat,
    width: nat,
    i: int,
    cell: CellView,
)
    requires
        n_dim2 <= RTREE_MAX_COORDS,
        8 + 4 * n_dim2 <= width,
        page_fits(data, width),
        0 <= i < node::page_count(data),
    ensures
        page_fits(node::with_cell(data, n_dim2, width, i, cell), width),
        node::page_count(node::with_cell(data, n_dim2, width, i, cell)) == node::page_count(data),
        node::page_depth(node::with_cell(data, n_dim2, width, i, cell)) == node::page_depth(data),
        node::page_cells(node::with_cell(data, n_dim2, width, i, cell), n_dim2, width)
            == node::page_cells(data, n_dim2, width).update(i, cell.kept(n_dim2)),
{
    let page = node::with_cell(data, n_dim2, width, i, cell);
    let count = node::page_count(data);
    node::lemma_cell_room(width, i, count - 1, data.len() as int);
    assert forall|j: int| 0 <= j < count implies #[trigger] node::cell_at(page, n_dim2, width, j)
        == node::page_cells(data, n_dim2, width).update(i, cell.kept(n_dim2))[j] by {
        node::lemma_cell_room(width, j, count - 1, data.len() as int);
        if j == i {
            node::lemma_cell_round_trip(data, n_dim2, width, i, cell);
        } else {
            node::lemma_set_cell_frame(data, n_dim2, width, i, cell, j);
        }
    }
    assert(node::page_cells(page, n_dim2, width) =~= node::page_cells(data, n_dim2, width).update(
        i,
        cell.kept(n_dim2),
    ));
}

/// A cell set right behind the last one and counted is appended to the cell list.
pub proof fn lemma_append_cell(data: Seq<u8>, n_dim2: nat, width: nat, cell: CellView)
    requires
        n_dim2 <= RTREE_MAX_COORDS,
        8 + 4 * n_dim2 <= width,
        data.len() >= 4,
        node::page_count(data) + 1 < 0x1_0000,
        node::cell_offset(width, (node::page_count(data) + 1) as int) <= data.len(),
    ensures
        ({
            let count = node::page_count(data);
            let page = node::with_count(
                node::with_cell(data, n_dim2, width, count as int, cell),
                count + 1,
            );
            &&& page_fits(page, width)
            &&& page.len() == data.len()
            &&& node::page_count(page) == count + 1
            &&& node::page_depth(page) == node::page_depth(data)
            &&& node::page_cells(page, n_dim2, width) == node::page_cells(
                data,
                n_dim2,
                width,
            ).push(cell.kept(n_dim2))
        }),
{
    let count = node::page_count(data);
    let set = node::with_cell(data, n_dim2, width, count as int, cell);
    let page = node::with_count(set, count + 1);
    node::lemma_cell_room(width, count as int, count as int, data.len() as int);
    node::lemma_count_round_trip(set, count + 1);
    assert forall|j: int| 0 <= j <= count implies #[trigger] node::cell_at(page, n_dim2, width, j)
        == node::page_cells(data, n_dim2, width).push(cell.kept(n_dim2))[j] by {
        node::lemma_cell_room(width, j, count as int, data.len() as int);
        assert forall|k: int| 0 <= k < 8 + 4 * n_dim2 implies #[trigger] page[node::cell_offset(
            width,
            j,
        ) + k] == set[node::cell_offset(width, j) + k] by {}
        node::lemma_same_bytes_same_cell(page, set, n_dim2, width, j, j);
        if j == count {
            node::lemma_cell_round_trip(data, n_dim2, width, j, cell);
        } else {
            node::lemma_set_cell_frame(data, n_dim2, width, count as int, cell, j);
        }
    }
    assert(node::page_cells(page, n_dim2, width) =~= node::page_cells(data, n_dim2, width).push(
        cell.kept(n_dim2),
    ));
}

/// Deleting a cell takes it out of the cell list and keeps the order of the others.
pub proof fn lemma_delete_cell(data: Seq<u8>, n_dim2: nat, width: nat, i: int)
    requires
        n_dim2 <= RTREE_MAX_COORDS,
        8 + 4 * n_dim2 <= width,
        page_fits(data, width),
        0 <= i < node::page_count(data),
    ensures
        ({
            let page = node::without_cell(data, width, i);
            &&& page_fits(page, width)
            &&& page.len() == data.len()
            &&& node::page_count(page) == node::page_count(data) - 1
            &&& node::page_depth(page) == node::page_depth(data)
            &&& node::page_cells(page, n_dim2, width) == node::page_cells(
                data,
                n_dim2,
                width,
            ).remove(i)
        }),
{
    let count = node::page_count(data);
    let page = node::without_cell(data, width, i);
    let moved = Seq::new(
        data.len(),
        |k: int|
            if node::cell_offset(width, i) <= k && k + width < data.len() {
                data[k + width]
            } else {
                data[k]
            },
    );
    node::lemma_cell_room(width, i, count - 1, data.len() as int);
    node::lemma_count_round_trip(moved, (count - 1) as nat);
    if count >= 2 {
        node::lemma_cell_room(width, count - 2, count - 1, data.len() as int);
    }
    assert(node::cell_offset(width, count - 1) <= data.len()) by {
        node::lemma_cell_room(width, count - 1, count - 1, data.len() as int);
    }
    assert forall|j: int| 0 <= j < count - 1 implies #[trigger] node::cell_at(
        page,
        n_dim2,
        width,
        j,
    ) == node::page_cells(data, n_dim2, width).remove(i)[j] by {
        node::lemma_cell_room(width, j, count - 1, data.len() as int);
        node::lemma_cell_room(width, j + 1, count - 1, data.len() as int);
        if j < i {
            node::lemma_cell_room(width, j, i, data.len() as int);
            node::lemma_same_bytes_same_cell(page, data, n_dim2, width, j, j);
        } else {
            node::lemma_cell_room(width, i, j + 1, data.len() as int);
            if i < j {
                node::lemma_cell_room(width, i, j, data.len() as int);
            }
            node::lemma_same_bytes_same_cell(page, data, n_dim2, width, j, j + 1);
        }
    }
    assert(node::page_cells(page, n_dim2, width) =~= node::page_cells(data, n_dim2, width).remove(
        i,
    ));
}

/// Cells written one after the other and counted are the cell list of the page.
pub proof fn lemma_fill_page(data: Seq<u8>, n_dim2: nat, width: nat, cells: Seq<CellView>)
    requires
        n_dim2 <= RTREE_MAX_COORDS,
        8 + 4 * n_dim2 <= width,
        data.len() >= 4,
        cells.len() < 0x1_0000,
        node::cell_offset(width, cells.len() as int) <= data.len(),
    ensures
        ({
            let page = node::with_count(
                node::with_cells(data, n_dim2, width, cells),
                cells.len(),
            );
            &&& page_fits(page, width)
            &&& page.len() == data.len()
            &&& node::page_count(page) == cells.len()
            &&& node::page_cells(page, n_dim2, width) == Seq::new(
                cells.len(),
                |i: int| cells[i].kept(n_dim2),
            )
        }),
{
    lemma_fill_cells(data, n_dim2, width, cells);
    let filled = node::with_cells(data, n_dim2, width, cells);
    let page = node::with_count(filled, cells.len());
    node::lemma_count_round_trip(filled, cells.len());
    assert forall|j: int| 0 <= j < cells.len() implies #[trigger] node::cell_at(
        page,
        n_dim2,
        width,
        j,
    ) == cells[j].kept(n_dim2) by {
        node::lemma_cell_room(width, j, cells.len() - 1, data.len() as int);
        assert(node::cell_at(filled, n_dim2, width, j) == cells[j].kept(n_dim2));
        node::lemma_same_bytes_same_cell(page, filled, n_dim2, width, j, j);
    }
    assert(node::page_cells(page, n_dim2, width) =~= Seq::new(
        cells.len(),
        |i: int| cells[i].kept(n_dim2),
    ));
}

proof fn lemma_fill_cells(data: Seq<u8>, n_dim2: nat, width: nat, cells: Seq<CellView>)
    requires
        n_dim2 <= RTREE_MAX_COORDS,
        8 + 4 * n_dim2 <= width,
        data.len() >= 4,
        node::cell_offset(width, cells.len() as int) <= data.len(),
    ensures
        node::with_cells(data, n_dim2, width, cells).len() == data.len(),
        forall|j: int|
            0 <= j < cells.len() ==> #[trigger] node::cell_at(
                node::with_cells(data, n_dim2, width, cells),
                n_dim2,
                width,
                j,
            ) == cells[j].kept(n_dim2),
    decreases cells.len(),
{
    if cells.len() > 0 {
        let last = cells.len() - 1;
        let rest = cells.drop_last();
        node::lemma_cell_room(width, last, last, data.len() as int);
        lemma_fill_cells(data, n_dim2, width, rest);
        let before = node::with_cells(data, n_dim2, width, rest);
        assert forall|j: int| 0 <= j < cells.len() implies #[trigger] node::cell_at(
            node::with_cells(data, n_dim2, width, cells),
            n_dim2,
            width,
            j,
        ) == cells[j].kept(n_dim2) by {
            node::lemma_cell_room(width, j, last, data.len() as int);
            if j == last {
                node::lemma_cell_round_trip(before, n_dim2, width, last, cells[last]);
            } else {
                node::lemma_set_cell_frame(before, n_dim2, width, last, cells[last], j);
                assert(node::cell_at(before, n_dim2, width, j) == rest[j].kept(n_dim2));
            }
        }
    }
}

} // verus!
