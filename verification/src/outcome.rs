//! How an operation ends: well, or waiting for something that it was not told yet.

use vstd::prelude::*;
use crate::coord::Area;
use crate::node::{CellView, NodeView};
use crate::split;
use crate::store;
use crate::store::{AuxRowView, RatingView, RequestView, Stop, StoreView, WriteView};
use crate::table::TableView;
use crate::tree_insert;
use crate::value::{ResultCode, ValueView};

verus! {

/// What is known of auxiliary columns is not that reading them failed, and there are enough.
pub open spec fn is_sound_aux(t: TableView, row: AuxRowView) -> bool {
    match row {
        AuxRowView::Failed => false,
        AuxRowView::Missing => true,
        AuxRowView::Values(values) => values.len() >= t.aux_columns.len(),
    }
}

/// No read and no change has failed.
#[verifier::opaque]
pub open spec fn is_sound(t: TableView, s: StoreView) -> bool {
    &&& forall|n: i64| #[trigger] s.nodes.contains_key(n) ==> !(s.nodes[n] is Failed)
    &&& forall|n: i64| #[trigger] s.parents.contains_key(n) ==> !(s.parents[n] is Failed)
    &&& forall|r: i64| #[trigger] s.rowids.contains_key(r) ==> !(s.rowids[r] is Failed)
    &&& forall|r: i64| #[trigger] s.aux.contains_key(r) ==> is_sound_aux(t, s.aux[r])
    &&& forall|i: int| 0 <= i < s.acks.len() ==> #[trigger] s.acks[i]
}

/// What was told of areas, ratings and changes is the same, and every row that was known is.
#[verifier::opaque]
pub open spec fn goes_on(s: StoreView, s2: StoreView) -> bool {
    &&& s2.areas == s.areas
    &&& s2.ratings == s.ratings
    &&& s2.acks == s.acks
    &&& s.nodes.dom().subset_of(s2.nodes.dom())
    &&& s.parents.dom().subset_of(s2.parents.dom())
    &&& s.rowids.dom().subset_of(s2.rowids.dom())
    &&& s.aux.dom().subset_of(s2.aux.dom())
}

/// The store does not hold the answer to what is waited for.
pub open spec fn lacks(s: StoreView) -> bool {
    match s.pending {
        None => false,
        Some(RequestView::Node(n)) => !s.nodes.contains_key(n),
        Some(RequestView::Parent(n)) => !s.parents.contains_key(n),
        Some(RequestView::RowidNode(r)) => !s.rowids.contains_key(r),
        Some(RequestView::RowidAux(r)) => !s.aux.contains_key(r),
        Some(RequestView::Area(coords)) => store::area_of(s.areas, coords) is None,
        Some(RequestView::Rating(_)) => s.ratings.len() <= s.rated,
        Some(RequestView::Write(_)) => s.acks.len() <= s.log.len(),
    }
}

/// An operation that started from `s` ended well, or it waits for something that it was not told.
pub open spec fn fares<T>(t: TableView, s: StoreView, r: Result<T, Stop>, s2: StoreView) -> bool {
    &&& goes_on(s, s2)
    &&& r is Ok ==> is_sound(t, s2)
    &&& r matches Err(stop) ==> stop == Stop::Wait && lacks(s2)
}

pub proof fn lemma_goes_nowhere(s: StoreView)
    ensures
        goes_on(s, s),
{
    reveal(goes_on);
}

/// One operation after another.
pub proof fn lemma_then<T>(
    t: TableView,
    s: StoreView,
    s1: StoreView,
    r: Result<T, Stop>,
    s2: StoreView,
)
    requires
        goes_on(s, s1),
        fares(t, s1, r, s2),
    ensures
        fares(t, s, r, s2),
{
    reveal(goes_on);
}

/// Whether anything failed depends on the shape of the table alone.
pub proof fn lemma_sound_by_shape(t: TableView, t2: TableView, s: StoreView)
    requires
        t2.same_shape(t),
    ensures
        is_sound(t2, s) == is_sound(t, s),
{
    reveal(is_sound);
    if is_sound(t, s) {
        assert forall|r: i64| #[trigger] s.aux.contains_key(r) implies is_sound_aux(
            t2,
            s.aux[r],
        ) by {
            assert(is_sound_aux(t, s.aux[r]));
        }
    }
    if is_sound(t2, s) {
        assert forall|r: i64| #[trigger] s.aux.contains_key(r) implies is_sound_aux(
            t,
            s.aux[r],
        ) by {
            assert(is_sound_aux(t2, s.aux[r]));
        }
    }
}

/// Reading a node.
pub proof fn lemma_node_fares(t: TableView, s: StoreView, n: i64)
    requires
        is_sound(t, s),
    ensures
        fares(t, s, t.read_node(s, n).0, t.read_node(s, n).1),
{
    reveal(is_sound);
    reveal(goes_on);
}

/// Reading the root.
pub proof fn lemma_root_fares(t: TableView, s: StoreView)
    requires
        is_sound(t, s),
    ensures
        fares(t, s, t.load_root_node(s).0, t.load_root_node(s).1),
{
    reveal(is_sound);
    reveal(goes_on);
}

/// Reading the parent of a node.
pub proof fn lemma_parent_fares(t: TableView, s: StoreView, n: i64)
    requires
        is_sound(t, s),
    ensures
        fares(t, s, t.get_parent_nodeno(s, n).0, t.get_parent_nodeno(s, n).1),
{
    reveal(is_sound);
    reveal(goes_on);
}

/// Reading the node of a row.
pub proof fn lemma_home_fares(t: TableView, s: StoreView, r: i64)
    requires
        is_sound(t, s),
    ensures
        fares(t, s, t.get_rowid_nodeno(s, r).0, t.get_rowid_nodeno(s, r).1),
{
    reveal(is_sound);
    reveal(goes_on);
}

/// Reading the auxiliary columns of a row, of which there may be none.
pub proof fn lemma_aux_fares(t: TableView, s: StoreView, r: i64)
    requires
        is_sound(t, s),
    ensures
        ({
            let (read, s2) = t.read_rowid_aux_values(s, r);
            &&& read == Err::<Seq<ValueView>, Stop>(Stop::Code(ResultCode::NotFound)) ==> s2 == s
            &&& read != Err::<Seq<ValueView>, Stop>(Stop::Code(ResultCode::NotFound)) ==> fares(
                t,
                s,
                read,
                s2,
            )
            &&& read matches Ok(values) ==> values.len() == t.aux_columns.len() && s2 == s
        }),
{
    reveal(is_sound);
    reveal(goes_on);
    if s.aux.contains_key(r) {
        assert(is_sound_aux(t, s.aux[r]));
    }
}

/// Telling whether a node is a leaf.
pub proof fn lemma_leaf_check_fares(t: TableView, s: StoreView, n: NodeView)
    requires
        is_sound(t, s),
    ensures
        fares(t, s, t.is_leaf(s, n).0, t.is_leaf(s, n).1),
{
    lemma_goes_nowhere(s);
    let cells = t.cells(n.data);
    if n.node_no != 1 && cells.len() > 0 {
        lemma_parent_fares(t, s, cells[0].rowid);
    }
}

/// The change is one of an insertion or a deletion, with enough auxiliary columns.
pub open spec fn is_plain(t: TableView, w: WriteView) -> bool {
    match w {
        WriteView::DropNodeTable => false,
        WriteView::DropRowidTable => false,
        WriteView::DropParentTable => false,
        WriteView::Rowid { rowid, nodeno, aux } => aux.len() >= t.aux_columns.len(),
        _ => true,
    }
}

/// Making a change.
pub proof fn lemma_change_fares(t: TableView, s: StoreView, w: WriteView)
    requires
        is_sound(t, s),
        is_plain(t, w),
    ensures
        fares(t, s, s.issue(w).0, s.issue(w).1),
{
    reveal(is_sound);
    reveal(goes_on);
    if s.log.len() < s.acks.len() {
        assert(s.acks[s.log.len() as int]);
        let s2 = s.issue(w).1;
        assert forall|r: i64| #[trigger] s2.aux.contains_key(r) implies is_sound_aux(
            t,
            s2.aux[r],
        ) by {
            if s.aux.contains_key(r) && s2.aux[r] == s.aux[r] {
                assert(is_sound_aux(t, s.aux[r]));
            }
        }
        assert forall|i: int| 0 <= i < s2.acks.len() implies #[trigger] s2.acks[i] by {
            assert(s.acks[i]);
        }
    }
}

/// Making several changes.
pub proof fn lemma_changes_fare(t: TableView, s: StoreView, ws: Seq<WriteView>)
    requires
        is_sound(t, s),
        forall|i: int| 0 <= i < ws.len() ==> is_plain(t, #[trigger] ws[i]),
    ensures
        fares(t, s, s.issue_all(ws).0, s.issue_all(ws).1),
    decreases ws.len(),
{
    lemma_goes_nowhere(s);
    if ws.len() > 0 {
        lemma_change_fares(t, s, ws[0]);
        if let (Ok(()), s1) = s.issue(ws[0]) {
            let less = ws.drop_first();
            assert forall|i: int| 0 <= i < less.len() implies is_plain(t, #[trigger] less[i]) by {
                assert(less[i] == ws[i + 1]);
            }
            lemma_changes_fare(t, s1, less);
            lemma_then(t, s, s1, s1.issue_all(less).0, s1.issue_all(less).1);
        }
    }
}

/// Asking for areas.
pub proof fn lemma_areas_fare(
    t: TableView,
    s: StoreView,
    cells: Seq<CellView>,
    i: int,
    known: Seq<Area>,
)
    requires
        is_sound(t, s),
    ensures
        fares(
            t,
            s,
            tree_insert::areas_from(s, cells, i, known).0,
            tree_insert::areas_from(s, cells, i, known).1,
        ),
    decreases cells.len() - i,
{
    lemma_goes_nowhere(s);
    if i < cells.len() {
        if let (Ok(area), s1) = s.fetch_area(cells[i].coords) {
            lemma_areas_fare(t, s1, cells, i + 1, known.push(area));
        } else {
            reveal(goes_on);
        }
    }
}

/// Asking for ratings.
pub proof fn lemma_ratings_fare(
    t: TableView,
    s: StoreView,
    n: NodeView,
    cell: CellView,
    d: nat,
    known: Seq<RatingView>,
)
    requires
        is_sound(t, s),
    ensures
        fares(
            t,
            s,
            t.rate_axes(s, n, cell, d, known).0,
            t.rate_axes(s, n, cell, d, known).1,
        ),
    decreases t.n_dim2 - d,
{
    reveal(TableView::rate_axes);
    reveal(goes_on);
    reveal(is_sound);
    let n_dim2 = t.n_dim2 as nat;
    if d < n_dim2 / 2 {
        let cells = split::arranged(split::all_cells(t, n, cell, n_dim2), d as int);
        if let (Ok(rating), s1) = s.rate(split::divisions(cells, t.min_cells(), n_dim2)) {
            lemma_ratings_fare(t, s1, n, cell, d + 1, known.push(rating));
        }
    }
}

} // verus!
