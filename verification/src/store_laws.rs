//! What an operation reads of the shadow tables is what was told of them and what it changed since.

use vstd::prelude::*;
use crate::coord::{Area, Coord};
use crate::store;
use crate::store::{
    AuxRowView, DivisionView, NodeRowView, NumberRow, RequestView, Stop, StoreView, WriteView,
};
use crate::table::TableView;
use crate::value::ResultCode;

verus! {

/// What is known of a page after a change.
pub open spec fn page_after(s: StoreView, w: WriteView, n: i64) -> Option<NodeRowView> {
    if w == WriteView::DropNodeTable {
        None
    } else if w is Node && w->Node_nodeno == n {
        Some(NodeRowView::Blob(w->Node_data))
    } else if w is DeleteNode && w->DeleteNode_nodeno == n {
        Some(NodeRowView::Missing)
    } else {
        known(s.nodes, n)
    }
}

/// What is known of the parent of a node after a change.
pub open spec fn parent_after(s: StoreView, w: WriteView, n: i64) -> Option<NumberRow> {
    if w == WriteView::DropParentTable {
        None
    } else if w is Parent && w->Parent_nodeno == n {
        Some(NumberRow::Number(w->Parent_parentnode))
    } else if w is DeleteParent && w->DeleteParent_nodeno == n {
        Some(NumberRow::Missing)
    } else {
        known(s.parents, n)
    }
}

/// What is known of the node of a row after a change. Moving a row changes it where the row is known
/// to be there.
pub open spec fn home_after(s: StoreView, w: WriteView, r: i64) -> Option<NumberRow> {
    if w == WriteView::DropRowidTable {
        None
    } else if w is Rowid && w->Rowid_rowid == r {
        Some(NumberRow::Number(w->Rowid_nodeno))
    } else if w is DeleteRowid && w->DeleteRowid_rowid == r {
        Some(NumberRow::Missing)
    } else if w is MoveRow && w->MoveRow_rowid == r && known(s.rowids, r) is Some && known(
        s.rowids,
        r,
    )->0 is Number {
        Some(NumberRow::Number(w->MoveRow_nodeno))
    } else {
        known(s.rowids, r)
    }
}

/// What is known of the auxiliary columns of a row after a change.
pub open spec fn aux_after(s: StoreView, w: WriteView, r: i64) -> Option<AuxRowView> {
    if w == WriteView::DropRowidTable {
        None
    } else if w is Rowid && w->Rowid_rowid == r {
        Some(AuxRowView::Values(w->Rowid_aux))
    } else if w is DeleteRowid && w->DeleteRowid_rowid == r {
        Some(AuxRowView::Missing)
    } else {
        known(s.aux, r)
    }
}

/// What is known under a number.
pub open spec fn known<V>(map: Map<i64, V>, key: i64) -> Option<V> {
    if map.contains_key(key) {
        Some(map[key])
    } else {
        None
    }
}

/// A change that was not answered yet is waited for, and nothing is changed. One that failed is
/// counted and ends with an error. One that succeeded is counted and is seen by every later read: of
/// the rows that it touches, and of no others.
pub proof fn lemma_changes_are_seen(s: StoreView, w: WriteView, key: i64)
    ensures
        ({
            let (r, s2) = s.issue(w);
            &&& s.log.len() >= s.acks.len() ==> r == Err::<(), Stop>(Stop::Wait) && s2
                == (StoreView { pending: Some(RequestView::Write(w)), ..s })
            &&& s.log.len() < s.acks.len() && !s.acks[s.log.len() as int] ==> r == Err::<(), Stop>(
                Stop::Code(ResultCode::Error),
            ) && s2 == (StoreView { log: s.log.push(w), ..s })
            &&& s.log.len() < s.acks.len() && s.acks[s.log.len() as int] ==> {
                &&& r == Ok::<(), Stop>(())
                &&& s2.log == s.log.push(w)
                &&& known(s2.nodes, key) == page_after(s, w, key)
                &&& known(s2.parents, key) == parent_after(s, w, key)
                &&& known(s2.rowids, key) == home_after(s, w, key)
                &&& known(s2.aux, key) == aux_after(s, w, key)
                &&& s2.connected == s.connected
                &&& s2.areas == s.areas
                &&& s2.ratings == s.ratings
                &&& s2.rated == s.rated
                &&& s2.acks == s.acks
            }
        }),
{
}

/// A list of changes is made one after the other, and the first that does not succeed ends it.
pub proof fn lemma_changes_in_turn(s: StoreView, ws: Seq<WriteView>)
    ensures
        ws.len() == 0 ==> s.issue_all(ws) == (Ok::<(), Stop>(()), s),
        ws.len() > 0 ==> match s.issue(ws[0]) {
            (Ok(()), s1) => s.issue_all(ws) == s1.issue_all(ws.skip(1)),
            (Err(stop), s1) => s.issue_all(ws) == (Err::<(), Stop>(stop), s1),
        },
{
    if ws.len() > 0 {
        assert(ws.skip(1) =~= ws.drop_first());
    }
}

/// A row that is known is read as it is known; any other is asked for.
pub proof fn lemma_reads(s: StoreView, key: i64)
    ensures
        s.fetch_node(key) == (match known(s.nodes, key) {
            Some(row) => (Ok::<NodeRowView, Stop>(row), s),
            None => (
                Err::<NodeRowView, Stop>(Stop::Wait),
                StoreView { pending: Some(RequestView::Node(key)), ..s },
            ),
        }),
        s.fetch_parent(key) == (match known(s.parents, key) {
            Some(row) => (Ok::<NumberRow, Stop>(row), s),
            None => (
                Err::<NumberRow, Stop>(Stop::Wait),
                StoreView { pending: Some(RequestView::Parent(key)), ..s },
            ),
        }),
        s.fetch_rowid(key) == (match known(s.rowids, key) {
            Some(row) => (Ok::<NumberRow, Stop>(row), s),
            None => (
                Err::<NumberRow, Stop>(Stop::Wait),
                StoreView { pending: Some(RequestView::RowidNode(key)), ..s },
            ),
        }),
        s.fetch_aux(key) == (match known(s.aux, key) {
            Some(row) => (Ok::<AuxRowView, Stop>(row), s),
            None => (
                Err::<AuxRowView, Stop>(Stop::Wait),
                StoreView { pending: Some(RequestView::RowidAux(key)), ..s },
            ),
        }),
{
}

/// The area of a box is the first one that was told of it, and is asked for where none was.
pub proof fn lemma_areas(areas: Seq<(Seq<Coord>, Area)>, coords: Seq<Coord>)
    ensures
        match store::area_of(areas, coords) {
            Some(area) => exists|i: int|
                0 <= i < areas.len() && #[trigger] areas[i] == (coords, area) && forall|j: int|
                    0 <= j < i ==> (#[trigger] areas[j]).0 != coords,
            None => forall|j: int| 0 <= j < areas.len() ==> (#[trigger] areas[j]).0 != coords,
        },
    decreases areas.len(),
{
    if areas.len() > 0 {
        let less = areas.drop_last();
        lemma_areas(less, coords);
        assert forall|j: int| 0 <= j < less.len() implies areas[j] == #[trigger] less[j] by {}
        if let Some(area) = store::area_of(less, coords) {
            let i = choose|i: int|
                0 <= i < less.len() && #[trigger] less[i] == (coords, area) && forall|j: int|
                    0 <= j < i ==> (#[trigger] less[j]).0 != coords;
            assert(areas[i] == (coords, area));
            assert forall|j: int| 0 <= j < i implies (#[trigger] areas[j]).0 != coords by {
                assert(less[j].0 != coords);
            }
        } else {
            assert forall|j: int| 0 <= j < less.len() implies (#[trigger] areas[j]).0 != coords by {
                assert(less[j].0 != coords);
            }
            if areas.last().0 == coords {
                assert(areas[areas.len() - 1] == (coords, areas.last().1));
            }
        }
    }
}

/// Areas and ratings that were told are given out, the ratings one after the other; others are asked
/// for.
pub proof fn lemma_answers(s: StoreView, coords: Seq<Coord>, divisions: Seq<DivisionView>)
    requires
        s.ratings.len() <= usize::MAX,
    ensures
        s.fetch_area(coords) == (match store::area_of(s.areas, coords) {
            Some(area) => (Ok::<Area, Stop>(area), s),
            None => (
                Err::<Area, Stop>(Stop::Wait),
                StoreView { pending: Some(RequestView::Area(coords)), ..s },
            ),
        }),
        s.rated < s.ratings.len() ==> s.rate(divisions).0 == Ok::<store::RatingView, Stop>(
            s.ratings[s.rated as int],
        ) && s.rate(divisions).1.rated == s.rated + 1 && s.rate(divisions).1 == (StoreView {
            rated: s.rate(divisions).1.rated,
            ..s
        }),
        s.rated >= s.ratings.len() ==> s.rate(divisions) == (
            Err::<store::RatingView, Stop>(Stop::Wait),
            StoreView { pending: Some(RequestView::Rating(divisions)), ..s },
        ),
{
}

/// A page is one that a table can work with if and only if it counts no more cells than a page has
/// room for, and, for the root, has the two bytes of the depth. Bytes that are not there count as 0.
pub proof fn lemma_sound_pages(t: TableView, nodeno: i64, data: Seq<u8>)
    requires
        t.wf(),
    ensures
        ({
            let high: int = if data.len() > 2 {
                data[2] as int
            } else {
                0
            };
            let low: int = if data.len() > 3 {
                data[3] as int
            } else {
                0
            };
            StoreView::sound_page(t, nodeno, NodeRowView::Blob(data)) <==> 256 * high + low
                <= t.max_cells() && (nodeno == 1 ==> data.len() >= 2)
        }),
        StoreView::sound_page(t, nodeno, NodeRowView::Missing),
        StoreView::sound_page(t, nodeno, NodeRowView::Failed),
{
}

} // verus!
