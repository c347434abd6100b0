//! Inserting a row puts it into the tree, and nothing else changes.

use vstd::prelude::*;
use crate::forest;
use crate::forest::{boxed, boxes, lists, Forest, Open};
use crate::forest_fill;
use crate::forest_rows;
use crate::forest_split::LeafSplit;
use crate::geometry;
use crate::node;
use crate::node::{CellView, NodeView};
use crate::split;
use crate::store::{AuxRowView, Stop, StoreView, WriteView};
use crate::table;
use crate::table::TableView;
use crate::tree_laws;
use crate::value;
use crate::value::{ArgView, ValueView};

verus! {

/// A box stays one without the coordinates behind those of the table.
pub proof fn lemma_kept_is_box(cell: CellView, n_dim2: nat)
    requires
        n_dim2 <= node::RTREE_MAX_COORDS,
        geometry::is_box(cell, n_dim2),
    ensures
        geometry::is_box(cell.kept(n_dim2), n_dim2),
{
    assert forall|d: int| 0 <= d < n_dim2 / 2 implies (#[trigger] cell.kept(n_dim2).coords[2
        * d]).at_most(cell.kept(n_dim2).coords[2 * d + 1]) by {
        assert(cell.coords[2 * d].at_most(cell.coords[2 * d + 1]));
    }
}

/// The box around the cells of a list covers them.
proof fn lemma_box_around_boxed(cells: Seq<CellView>, no: i64, n_dim2: nat)
    requires
        n_dim2 <= node::RTREE_MAX_COORDS,
        cells.len() > 0,
        boxes(cells, n_dim2),
    ensures
        boxed(geometry::box_around(cells, no, n_dim2), cells, n_dim2),
        geometry::is_box(geometry::box_around(cells, no, n_dim2), n_dim2),
{
    reveal(boxes);
    reveal(boxed);
    assert(geometry::is_box(cells[0], n_dim2));
    geometry::lemma_box_around_is_box(cells, no, n_dim2);
    assert forall|i: int| 0 <= i < cells.len() implies geometry::covers(
        geometry::box_around(cells, no, n_dim2),
        #[trigger] cells[i],
        n_dim2,
    ) by {
        geometry::lemma_box_covers(cells, no, n_dim2, i);
    }
}

/// A row that was put into a leaf: where it is, and what is left to be mended.
pub open spec fn is_placed(
    t: TableView,
    s: StoreView,
    open: Open,
    cell: CellView,
    nodeno: i64,
) -> bool {
    let f = t.forest(s);
    &&& t.grows(s, open)
    &&& f.pages.contains_key(nodeno)
    &&& !f.inner(nodeno)
    &&& lists(f.pages[nodeno], cell.rowid)
    &&& f.only_in(cell.rowid, nodeno)
    &&& open.gap.subset_of(tree_laws::near(f, nodeno))
}

pub(crate) proof fn lemma_placed_with_room(
    t: TableView,
    s: StoreView,
    open: Open,
    n: NodeView,
    cell: CellView,
)
    requires
        t.grows(s, open),
        open.adrift =~= Set::empty(),
        open.gap =~= Set::empty(),
        tree_laws::is_current(t, s, n),
        !t.forest(s).inner(n.node_no),
        open.loose.contains(cell.rowid),
        t.forest(s).absent(cell.rowid),
        geometry::is_box(cell, t.n_dim2 as nat),
        node::page_count(n.data) < t.max_cells(),
    ensures
        t.place_in_leaf(s, Some(n), cell) matches (Ok(nodeno), t2, s2) ==> {
            &&& t2 == t
            &&& is_placed(
                t2,
                s2,
                (Open { gap: open.gap.insert(n.node_no), ..open }),
                cell,
                nodeno,
            )
            &&& t2.rows(s2) == t.rows(s).insert(cell.kept(t.n_dim2 as nat))
            &&& s2.aux == s.aux
            &&& t.is_filled(s) ==> t2.is_filled(s2)
        },
{
    reveal(TableView::place_in_leaf);
    let n_dim2 = t.n_dim2 as nat;
    let f = t.forest(s);
    let kept = cell.kept(n_dim2);
    let count = node::page_count(n.data);
    t.lemma_append_holds(n.data, cell);
    t.lemma_slot_inside(count as int);
    t.lemma_room();
    let data = n.placed(n_dim2, t.n_bytes_per_cell as nat, count as int, cell).counted(
        count + 1,
    ).data;
    crate::page_laws::lemma_append_cell(n.data, n_dim2, t.n_bytes_per_cell as nat, cell);
    t.lemma_page_written(s, n.node_no, data);
    lemma_kept_is_box(cell, n_dim2);
    forest::lemma_row_added(f, n_dim2, t.node_count, open, n.node_no, kept);
    if let (Ok(nodeno), t2, s2) = t.place_in_leaf(s, Some(n), cell) {
        let g = f.with_page(n.node_no, f.pages[n.node_no].push(kept));
        assert(t.forest(s2) =~= g);
        forest_rows::lemma_rows_with_one_more(f, n.node_no, kept);
        if t.is_filled(s) {
            assert forall|m: i64| #[trigger]
                g.pages.contains_key(m) && m != 1 && !g.inner(m) implies f.pages.contains_key(m)
                && !f.inner(m) && g.pages[m].len() >= f.pages[m].len() by {
                if m != n.node_no {
                    assert(g.inner(m) == f.inner(m));
                }
            }
            forest_fill::lemma_fill_kept(f, g, t.min_cells(), Set::empty(), Set::empty());
        }
    }
}

#[verifier::rlimit(30)]
pub(crate) proof fn lemma_placed_by_split(
    t: TableView,
    s: StoreView,
    open: Open,
    n: NodeView,
    cell: CellView,
)
    requires
        t.grows(s, open),
        t.node_count <= i64::MAX - 2,
        open.adrift =~= Set::empty(),
        open.gap =~= Set::empty(),
        tree_laws::is_current(t, s, n),
        !t.forest(s).inner(n.node_no),
        open.loose.contains(cell.rowid),
        t.forest(s).absent(cell.rowid),
        geometry::is_box(cell, t.n_dim2 as nat),
        node::page_count(n.data) == t.max_cells(),
    ensures
        t.place_in_leaf(s, Some(n), cell) matches (Ok(nodeno), t2, s2) ==> {
            &&& t2 == (TableView { node_count: (t.node_count + 2) as i64, ..t })
            &&& is_placed(
                t2,
                s2,
                (Open { gap: open.gap.insert(n.node_no), ..open }),
                cell,
                nodeno,
            )
            &&& t2.rows(s2) == t.rows(s).insert(cell.kept(t.n_dim2 as nat))
            &&& s2.aux == s.aux
            &&& t.is_filled(s) ==> t2.is_filled(s2)
        },
{
    reveal(TableView::place_in_leaf);
    let n_dim2 = t.n_dim2 as nat;
    let f = t.forest(s);
    let kept = cell.kept(n_dim2);
    let t1 = TableView { node_count: (t.node_count + 2) as i64, ..t };
    let left_no = (t.node_count + 1) as i64;
    t.lemma_room();
    t.lemma_forest_by_shape(t1, s);
    t.lemma_wf_by_shape(t1, s);
    f.lemma_node(n_dim2, t.node_count, open, n.node_no);
    lemma_kept_is_box(cell, n_dim2);
    let ratings = tree_laws::ratings_for(t1, s, n, cell);
    let (left, right) = split::halves(t1, n, cell, n_dim2, ratings);
    split::lemma_split_keeps_cells(t1, n, cell, ratings);
    let all = f.pages[n.node_no].push(kept);
    let lc = t.cells(left.data);
    let rc = t.cells(right.data);
    let parts = LeafSplit {
        n: n.node_no,
        cell: kept,
        left: lc,
        left_box: geometry::box_around(lc, left_no, n_dim2),
        right: rc,
        right_box: geometry::box_around(rc, (left_no + 1) as i64, n_dim2),
    };
    forest::lemma_push(f.pages[n.node_no], kept, n_dim2);
    if lists(f.pages[n.node_no], kept.rowid) {
        assert(f.absent(cell.rowid));
        f.lemma_numbered(n_dim2, t.node_count, open);
    }
    assert(boxes(lc, n_dim2) && boxes(rc, n_dim2)) by {
        reveal(boxes);
        assert forall|i: int| 0 <= i < lc.len() implies geometry::is_box(#[trigger] lc[i], n_dim2) by {
            assert((lc + rc)[i] == lc[i]);
            assert((lc + rc).contains(lc[i]));
            assert(geometry::is_box(all[all.index_of(lc[i])], n_dim2));
        }
        assert forall|i: int| 0 <= i < rc.len() implies geometry::is_box(#[trigger] rc[i], n_dim2) by {
            assert((lc + rc)[lc.len() + i] == rc[i]);
            assert((lc + rc).contains(rc[i]));
            assert(geometry::is_box(all[all.index_of(rc[i])], n_dim2));
        }
    }
    table::lemma_found_by_rowid(lc, cell.rowid);
    assert(lists(lc, cell.rowid) == (table::index_of_rowid(lc, cell.rowid) is Some)) by {
        reveal(lists);
    }
    lemma_box_around_boxed(lc, left_no, n_dim2);
    lemma_box_around_boxed(rc, (left_no + 1) as i64, n_dim2);
    tree_laws::lemma_split_written(t1, s, n, cell, left_no);
    if let (Ok(nodeno), t2, s2) = t.place_in_leaf(s, Some(n), cell) {
        assert(parts.fits(f, n_dim2, t.node_count, open));
        parts.lemma_leaf_split(f, n_dim2, t.node_count, open);
        forest_rows::lemma_rows_of_split(parts, f, n_dim2, t.node_count, open);
        assert(t2.forest(s2) == parts.made(f));
        if t.is_filled(s) {
            split::lemma_split_fills_both_halves(t1, n, cell, ratings);
            forest_fill::lemma_fill_of_split(
                parts,
                f,
                n_dim2,
                t.node_count,
                open,
                t.min_cells(),
            );
        }
    }
}

/// The row id counted in, as an insertion does it.
pub open spec fn counting(t: TableView, rowid: i64) -> TableView {
    TableView {
        row_count: if rowid > t.row_count {
            rowid
        } else {
            t.row_count
        },
        ..t
    }
}

/// Choosing a leaf for a row, putting it there and widening the boxes above.
proof fn lemma_placed_and_boxed(
    t: TableView,
    s: StoreView,
    open: Open,
    cell: CellView,
    home: i64,
    t4: TableView,
    s4: StoreView,
    s5: StoreView,
)
    requires
        t.grows(s, open),
        0 < t.node_count <= i64::MAX - 2,
        open.adrift =~= Set::empty(),
        open.gap =~= Set::empty(),
        open.loose.contains(cell.rowid),
        t.forest(s).absent(cell.rowid),
        geometry::is_box(cell, t.n_dim2 as nat),
        t.choose_leaf(s, t.n_dim2 as nat).0 is Ok,
        t.place_in_leaf(
            t.choose_leaf(s, t.n_dim2 as nat).1,
            t.choose_leaf(s, t.n_dim2 as nat).0->Ok_0,
            cell,
        ) == (Ok::<i64, Stop>(home), t4, s4),
        t4.adjust(s4, home, 0).0 is Ok,
        t4.adjust(s4, home, 0).1 == s5,
    ensures
        is_placed(t4, s5, open, cell, home),
        t4.same_shape(t),
        t4.row_count == t.row_count,
        t.node_count <= t4.node_count <= t.node_count + 2,
        t4.rows(s5) == t.rows(s).insert(cell.kept(t.n_dim2 as nat)),
        s5.aux == s.aux,
        t.is_filled(s) ==> t4.is_filled(s5),
{
    tree_laws::lemma_chosen_leaf(t, s, open);
    let n = t.choose_leaf(s, t.n_dim2 as nat).0->Ok_0->0;
    let after = Open { gap: open.gap.insert(n.node_no), ..open };
    if node::page_count(n.data) < t.max_cells() {
        lemma_placed_with_room(t, s, open, n, cell);
    } else {
        lemma_placed_by_split(t, s, open, n, cell);
    }
    let f4 = t4.forest(s4);
    let k = forest::lemma_place(f4.pages[home], cell.rowid);
    tree_laws::lemma_adjusted(t4, s4, after, home, 0);
    let f5 = t4.forest(s5);
    if t.is_filled(s) {
        tree_laws::lemma_only_boxes_fill(t4, s4, s5);
    }
    assert(f5.pages.dom().contains(home));
    assert(f5.inner(home) == f4.inner(home));
    assert(f5.pages[home] == f4.pages[home]);
    assert(f4.only_in(cell.rowid, home));
    assert((Open { gap: Set::empty(), ..after }) =~= open);
}

/// Noting the node of a row that was put into it.
proof fn lemma_placed_row_noted(
    t: TableView,
    s: StoreView,
    open: Open,
    cell: CellView,
    home: i64,
    aux: Seq<ValueView>,
)
    requires
        is_placed(t, s, open, cell, home),
    ensures
        ({
            let w = WriteView::Rowid {
                rowid: cell.rowid,
                nodeno: home,
                aux: value::owned_all(aux),
            };
            s.issue(w) matches (Ok(()), s2) ==> {
                &&& t.grows(s2, (Open { loose: open.loose.remove(cell.rowid), ..open }))
                &&& t.rows(s2) == t.rows(s)
                &&& s2.aux == s.aux.insert(
                    cell.rowid,
                    AuxRowView::Values(value::owned_all(aux)),
                )
                &&& t.is_filled(s) ==> t.is_filled(s2)
            }
        }),
{
    let w = WriteView::Rowid { rowid: cell.rowid, nodeno: home, aux: value::owned_all(aux) };
    t.lemma_row_written(s, w);
    let f = t.forest(s);
    forest::lemma_row_noted(f, t.n_dim2 as nat, t.node_count, open, cell.rowid, home);
    if let (Ok(()), s2) = s.issue(w) {
        forest_rows::lemma_same_leaves(f, t.forest(s2));
        if t.is_filled(s) {
            forest_fill::lemma_fill_kept(
                f,
                t.forest(s2),
                t.min_cells(),
                Set::empty(),
                Set::empty(),
            );
        }
    }
}

/// Inserting a row that is in no leaf puts it into the tree, with its auxiliary columns, and leaves
/// every other row as it was.
pub proof fn lemma_leaf_row_inserted(
    t: TableView,
    s: StoreView,
    open: Open,
    cell: CellView,
    aux: Seq<ValueView>,
)
    requires
        t.grows(s, open),
        0 < t.node_count <= i64::MAX - 2,
        open.adrift =~= Set::empty(),
        open.gap =~= Set::empty(),
        open.loose.contains(cell.rowid),
        t.forest(s).absent(cell.rowid),
        geometry::is_box(cell, t.n_dim2 as nat),
    ensures
        t.insert_leaf_row(s, cell.rowid, cell, aux) matches (Ok(()), t2, s2) ==> {
            &&& t2.grows(s2, (Open { loose: open.loose.remove(cell.rowid), ..open }))
            &&& t2.same_shape(t)
            &&& t.node_count <= t2.node_count <= t.node_count + 2
            &&& t2.rows(s2) == t.rows(s).insert(cell.kept(t.n_dim2 as nat))
            &&& s2.aux == s.aux.insert(cell.rowid, AuxRowView::Values(value::owned_all(aux)))
            &&& t2.row_count == counting(t, cell.rowid).row_count
            &&& forall|r: i64| #[trigger]
                t.forest(s).absent(r) && r != cell.rowid ==> t2.forest(s2).absent(r)
            &&& t.is_filled(s) ==> t2.is_filled(s2)
        },
{
    let t1 = counting(t, cell.rowid);
    t.lemma_forest_by_shape(t1, s);
    t.lemma_wf_by_shape(t1, s);
    let (r, t2, s2) = t.insert_leaf_row(s, cell.rowid, cell, aux);
    if r is Ok {
        let (leaf, s3) = t1.choose_leaf(s, t1.n_dim2 as nat);
        let (placed, t4, s4) = t1.place_in_leaf(s3, leaf->Ok_0, cell);
        let home = placed->Ok_0;
        let s5 = t4.adjust(s4, home, 0).1;
        lemma_placed_and_boxed(t1, s, open, cell, home, t4, s4, s5);
        lemma_placed_row_noted(t4, s5, open, cell, home, aux);
        t.forest(s).lemma_numbered(t.n_dim2 as nat, t.node_count, open);
        assert forall|r: i64| #[trigger] t.forest(s).absent(r) && r != cell.rowid implies t2.forest(
            s2,
        ).absent(r) by {
            lemma_absent_by_rows(t.forest(s), t2.forest(s2), cell.kept(t.n_dim2 as nat), r);
        }
    }
}

/// A row that is in no leaf is in none where only another row was added.
pub proof fn lemma_absent_by_rows(f: Forest, g: Forest, cell: CellView, r: i64)
    requires
        g.rows() == f.rows().insert(cell),
        f.absent(r),
        !f.pages.contains_key(0),
        cell.rowid != r,
    ensures
        g.absent(r),
{
    assert forall|m: i64| #[trigger] g.pages.contains_key(m) && !g.inner(m) && m != 0 implies !lists(
        g.pages[m],
        r,
    ) by {
        if lists(g.pages[m], r) {
            let i = forest::lemma_place(g.pages[m], r);
            let c = g.pages[m][i];
            assert(g.pages[m].contains(c));
            assert(g.holds(c));
            assert(g.rows().contains(c));
            assert(f.rows().contains(c));
            let k = choose|k: i64| #[trigger]
                f.pages.contains_key(k) && !f.inner(k) && f.pages[k].contains(c);
            forest::lemma_lists(f.pages[k], f.pages[k].index_of(c));
        }
    }
}

/// A row as the arguments of an insertion describe it.
pub open spec fn row_cell(t: TableView, args: Seq<ArgView>) -> CellView {
    CellView { rowid: t.assigned_rowid(args), coords: t.row_coords(args) }
}

/// Creating the shadow tables plants an empty root.
pub(crate) proof fn lemma_planted(t: TableView, s: StoreView)
    requires
        t.wf(),
        s.wf(t),
        t.forest(s) == Forest::bare(),
    ensures
        t.create_shadow_tables(s) matches (Ok(()), t2, s2) ==> {
            &&& t2 == (TableView { node_count: 1, depth: 0, ..t })
            &&& t2.forest(s2) == Forest::sapling()
            &&& s2.wf(t2)
            &&& s2.connected == s.connected
            &&& s2.aux == s.aux
        },
{
    let page = node::with_depth(node::empty_page(t.node_size as nat), 0);
    let ws = seq![
        WriteView::CreateNodeTable,
        WriteView::CreateRowidTable,
        WriteView::CreateParentTable,
        WriteView::Node { nodeno: 1, data: page },
    ];
    let (r, t2, s2) = t.create_shadow_tables(s);
    if r is Ok {
        let w1 = ws.drop_first();
        let w2 = w1.drop_first();
        let w3 = w2.drop_first();
        let s_a = s.issue(ws[0]).1;
        let s_b = s_a.issue(w1[0]).1;
        let s_c = s_b.issue(w2[0]).1;
        let s_d = s_c.issue(w3[0]).1;
        assert(s.issue_all(ws) == s_a.issue_all(w1));
        assert(s_a.issue_all(w1) == s_b.issue_all(w2));
        assert(s_b.issue_all(w2) == s_c.issue_all(w3));
        assert(w3.drop_first().len() == 0);
        assert(s_c.issue_all(w3) == s_d.issue_all(w3.drop_first()));
        assert(s_d.issue_all(w3.drop_first()) == (Ok::<(), Stop>(()), s_d));
        assert(s_c.nodes == s.nodes && s_c.parents == s.parents && s_c.rowids == s.rowids);
        assert(t.forest(s_c) =~= t.forest(s)) by {
            assert(t.forest(s_c).pages =~= t.forest(s).pages);
            assert(t.forest(s_c).up =~= t.forest(s).up);
            assert(t.forest(s_c).home =~= t.forest(s).home);
        }
        assert(s_c.wf(t)) by {
            assert forall|n: i64| #[trigger] s_c.nodes.contains_key(n) implies StoreView::sound_page(
                t,
                n,
                s_c.nodes[n],
            ) by {
                assert(s.nodes.contains_key(n));
            }
        }
        t.lemma_fresh_holds(1, 0);
        t.lemma_page_written(s_c, 1, page);
        assert(node::page_depth(page) == 0);
        assert(t.cells(page) =~= Seq::empty());
        t.lemma_forest_by_shape(t2, s2);
        t.lemma_wf_by_shape(t2, s2);
        assert(t2.forest(s2) =~= Forest::sapling());
    }
}

/// Inserting a row keeps the tree a tree: the new row is in it, under the row id that is given back,
/// with its box and its auxiliary columns; every other row is in it as before; and no row had that
/// row id.
pub proof fn lemma_insert_keeps_tree(t: TableView, s: StoreView, args: Seq<ArgView>)
    requires
        t.is_tree(s),
        t.node_count <= i64::MAX - 2,
    ensures
        t.insert(s, args) matches (Ok(rowid), t2, s2) ==> {
            &&& rowid == t.assigned_rowid(args)
            &&& t2.is_tree(s2)
            &&& t2.same_shape(t)
            &&& t2.rows(s2) == t.rows(s).insert(row_cell(t, args))
            &&& forall|c: CellView| #[trigger] t.rows(s).contains(c) ==> c.rowid != rowid
            &&& s2.aux == s.aux.insert(
                rowid,
                AuxRowView::Values(value::owned_all(t.row_aux(args))),
            )
            &&& 0 < t2.node_count <= (if t.node_count == 0 {
                3
            } else {
                t.node_count + 2
            })
            &&& t2.row_count == t.counted_in(args).row_count
        },
{
    let t1 = t.counted_in(args);
    let cell = row_cell(t, args);
    let n_dim2 = t.n_dim2 as nat;
    if t.insert(s, args).0 is Ok {
        let aux = t.row_aux(args);
        t.lemma_forest_by_shape(t1, s);
        t.lemma_wf_by_shape(t1, s);
        assert(geometry::is_box(cell, n_dim2)) by {
            assert forall|d: int| 0 <= d < n_dim2 / 2 implies (#[trigger] cell.coords[2
                * d]).at_most(cell.coords[2 * d + 1]) by {
                assert(crate::rows::in_order(cell.coords, d));
            }
        }
        assert(cell.kept(n_dim2).coords =~= cell.coords);
        let open = Open { loose: Set::empty().insert(cell.rowid), ..Open::nothing() };
        if t.node_count == 0 {
            let t0 = counting(t1, cell.rowid);
            t1.lemma_forest_by_shape(t0, s);
            t1.lemma_wf_by_shape(t0, s);
            lemma_planted(t0, s);
            let (created, t2, s2) = t0.create_shadow_tables(s);
            forest::lemma_sapling(n_dim2);
            forest::lemma_less_asked(
                Forest::sapling(),
                n_dim2,
                1,
                1,
                Open::nothing(),
                open.loose,
            );
            forest::lemma_unnoted_is_absent(
                Forest::sapling(),
                n_dim2,
                1,
                Open::nothing(),
                cell.rowid,
            );
            lemma_leaf_row_inserted(t2, s2, open, cell, aux);
            assert(t2.row_count == t0.row_count);
            assert(t1.insert_leaf_row(s, cell.rowid, cell, aux) == t2.insert_leaf_row(
                s2,
                cell.rowid,
                cell,
                aux,
            ));
            assert(t.rows(s) =~= Set::empty());
            assert(t2.rows(s2) =~= Set::empty());
            assert(t2.is_filled(s2)) by {
                reveal(Forest::filled_but);
            }
        } else {
            t1.lemma_read_home(s, cell.rowid);
            let f = t.forest(s);
            forest::lemma_unnoted_is_absent(
                f,
                n_dim2,
                t.node_count,
                Open::nothing(),
                cell.rowid,
            );
            forest::lemma_less_asked(
                f,
                n_dim2,
                t.node_count,
                t.node_count,
                Open::nothing(),
                open.loose,
            );
            lemma_leaf_row_inserted(t1, s, open, cell, aux);
            assert forall|c: CellView| #[trigger] t.rows(s).contains(c) implies c.rowid
                != cell.rowid by {
                forest_rows::lemma_rows_by_id(f, n_dim2, t.node_count, cell.rowid);
                assert(f.holds(c));
            }
        }
        assert((Open { loose: open.loose.remove(cell.rowid), ..open }) =~= Open::nothing());
    }
}

} // verus!
