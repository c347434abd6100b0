//! The shadow tables as an operation sees them.
//!
//! The tree lives in three shadow tables: the pages of the nodes, the node of each row (with its
//! auxiliary columns) and the parent of each node. An operation reads rows, writes rows and goes
//! by the areas of boxes and by how good the ways to split a node are; all of these are worked out
//! elsewhere. A [`ShadowStore`] holds what has been learned so far: rows, areas, ratings, and how
//! each write ended. An operation that needs more stops with [`Stop::Wait`] and leaves in `pending`
//! what it waits for. Its caller finds that out, tells it to a copy of the store from before the
//! operation, and starts the operation again.

use vstd::prelude::*;
use std::collections::HashMap;
use crate::bytes;
use crate::coord::{Area, Coord};
use crate::table::{RtreeTable, TableView};
use crate::value;
use crate::value::{ResultCode, Value, ValueView};

verus! {

broadcast use vstd::std_specs::hash::group_hash_axioms;

/// Why an operation did not finish.
#[derive(Clone, Copy, Debug, PartialEq, Eq, Structural)]
pub enum Stop {
    /// It waits for the pending request of the store.
    Wait,
    /// It ended with this code.
    Code(ResultCode),
}

/// What reading a page gave.
#[derive(Clone, Debug)]
pub enum NodeRow {
    /// The read failed.
    Failed,
    /// There is no such row, or it holds no blob.
    Missing,
    Blob(Vec<u8>),
}

/// The model of what reading a page gave.
#[verifier::ext_equal]
pub enum NodeRowView {
    Failed,
    Missing,
    Blob(Seq<u8>),
}

impl View for NodeRow {
    type V = NodeRowView;

    open spec fn view(&self) -> NodeRowView {
        match self {
            NodeRow::Failed => NodeRowView::Failed,
            NodeRow::Missing => NodeRowView::Missing,
            NodeRow::Blob(data) => NodeRowView::Blob(data@),
        }
    }
}

/// What reading a node number gave.
#[derive(Clone, Copy, Debug, PartialEq, Eq, Structural)]
pub enum NumberRow {
    /// The read failed.
    Failed,
    /// There is no such row, or it holds no number.
    Missing,
    Number(i64),
}

/// What reading the auxiliary columns of a row gave.
#[derive(Clone, Debug)]
pub enum AuxRow {
    /// The read failed.
    Failed,
    /// There is no such row.
    Missing,
    Values(Vec<Value>),
}

/// The model of what reading the auxiliary columns of a row gave.
#[verifier::ext_equal]
pub enum AuxRowView {
    Failed,
    Missing,
    Values(Seq<ValueView>),
}

impl View for AuxRow {
    type V = AuxRowView;

    open spec fn view(&self) -> AuxRowView {
        match self {
            AuxRow::Failed => AuxRowView::Failed,
            AuxRow::Missing => AuxRowView::Missing,
            AuxRow::Values(values) => AuxRowView::Values(value::value_views(values@)),
        }
    }
}

/// The area of one box.
#[derive(Clone, Copy, Debug)]
pub struct KnownArea {
    pub coords: [Coord; 10],
    pub area: Area,
}

/// The boxes around the two parts that the cells of a node can be divided into.
#[derive(Clone, Copy, Debug)]
pub struct Division {
    pub left: [Coord; 10],
    pub right: [Coord; 10],
}

/// The model of a division.
#[verifier::ext_equal]
pub struct DivisionView {
    pub left: Seq<Coord>,
    pub right: Seq<Coord>,
}

impl View for Division {
    type V = DivisionView;

    open spec fn view(&self) -> DivisionView {
        DivisionView { left: self.left@, right: self.right@ }
    }
}

/// The models of the divisions of a list.
pub open spec fn division_views(divisions: Seq<Division>) -> Seq<DivisionView> {
    Seq::new(divisions.len(), |i: int| divisions[i]@)
}

/// How much the two boxes of a division overlap, and how large they are together.
#[derive(Clone, Copy, Debug, PartialEq, Eq, Structural)]
pub struct Score {
    pub overlap: Area,
    pub area: Area,
}

/// The sum of the margins of all divisions along an axis, and the score of each.
#[derive(Clone, Debug)]
pub struct Rating {
    pub margin: Area,
    pub scores: Vec<Score>,
}

/// The model of a rating.
#[verifier::ext_equal]
pub struct RatingView {
    pub margin: Area,
    pub scores: Seq<Score>,
}

impl View for Rating {
    type V = RatingView;

    open spec fn view(&self) -> RatingView {
        RatingView { margin: self.margin, scores: self.scores@ }
    }
}

/// The models of the ratings of a list.
pub open spec fn rating_views(ratings: Seq<Rating>) -> Seq<RatingView> {
    Seq::new(ratings.len(), |i: int| ratings[i]@)
}

/// A change to the shadow tables.
#[derive(Clone, Debug)]
pub enum Write {
    CreateNodeTable,
    CreateRowidTable,
    CreateParentTable,
    DropNodeTable,
    DropRowidTable,
    DropParentTable,
    /// Insert or replace a page.
    Node { nodeno: i64, data: Vec<u8> },
    /// Insert or replace the node and the auxiliary columns of a row.
    Rowid { rowid: i64, nodeno: i64, aux: Vec<Value> },
    /// Change the node of a row that is there, and keep its auxiliary columns.
    MoveRow { rowid: i64, nodeno: i64 },
    /// Insert or replace the parent of a node.
    Parent { nodeno: i64, parentnode: i64 },
    DeleteNode { nodeno: i64 },
    DeleteRowid { rowid: i64 },
    DeleteParent { nodeno: i64 },
}

/// The model of a change.
#[verifier::ext_equal]
pub enum WriteView {
    CreateNodeTable,
    CreateRowidTable,
    CreateParentTable,
    DropNodeTable,
    DropRowidTable,
    DropParentTable,
    Node { nodeno: i64, data: Seq<u8> },
    Rowid { rowid: i64, nodeno: i64, aux: Seq<ValueView> },
    MoveRow { rowid: i64, nodeno: i64 },
    Parent { nodeno: i64, parentnode: i64 },
    DeleteNode { nodeno: i64 },
    DeleteRowid { rowid: i64 },
    DeleteParent { nodeno: i64 },
}

impl View for Write {
    type V = WriteView;

    open spec fn view(&self) -> WriteView {
        match self {
            Write::CreateNodeTable => WriteView::CreateNodeTable,
            Write::CreateRowidTable => WriteView::CreateRowidTable,
            Write::CreateParentTable => WriteView::CreateParentTable,
            Write::DropNodeTable => WriteView::DropNodeTable,
            Write::DropRowidTable => WriteView::DropRowidTable,
            Write::DropParentTable => WriteView::DropParentTable,
            Write::Node { nodeno, data } => WriteView::Node { nodeno: *nodeno, data: data@ },
            Write::Rowid { rowid, nodeno, aux } => WriteView::Rowid {
                rowid: *rowid,
                nodeno: *nodeno,
                aux: value::value_views(aux@),
            },
            Write::MoveRow { rowid, nodeno } => WriteView::MoveRow {
                rowid: *rowid,
                nodeno: *nodeno,
            },
            Write::Parent { nodeno, parentnode } => WriteView::Parent {
                nodeno: *nodeno,
                parentnode: *parentnode,
            },
            Write::DeleteNode { nodeno } => WriteView::DeleteNode { nodeno: *nodeno },
            Write::DeleteRowid { rowid } => WriteView::DeleteRowid { rowid: *rowid },
            Write::DeleteParent { nodeno } => WriteView::DeleteParent { nodeno: *nodeno },
        }
    }
}

/// The models of the changes of a list.
pub open spec fn write_views(ws: Seq<Write>) -> Seq<WriteView> {
    Seq::new(ws.len(), |i: int| ws[i]@)
}

/// What an operation waits for.
#[derive(Clone, Debug)]
pub enum Request {
    /// The page of a node.
    Node(i64),
    /// The parent of a node.
    Parent(i64),
    /// The node of a row.
    RowidNode(i64),
    /// The auxiliary columns of a row.
    RowidAux(i64),
    /// The area of a box.
    Area([Coord; 10]),
    /// The rating of the divisions along an axis.
    Rating(Vec<Division>),
    /// That a change is made.
    Write(Write),
}

/// The model of a request.
#[verifier::ext_equal]
pub enum RequestView {
    Node(i64),
    Parent(i64),
    RowidNode(i64),
    RowidAux(i64),
    Area(Seq<Coord>),
    Rating(Seq<DivisionView>),
    Write(WriteView),
}

impl View for Request {
    type V = RequestView;

    open spec fn view(&self) -> RequestView {
        match self {
            Request::Node(n) => RequestView::Node(*n),
            Request::Parent(n) => RequestView::Parent(*n),
            Request::RowidNode(r) => RequestView::RowidNode(*r),
            Request::RowidAux(r) => RequestView::RowidAux(*r),
            Request::Area(coords) => RequestView::Area(coords@),
            Request::Rating(divisions) => RequestView::Rating(division_views(divisions@)),
            Request::Write(w) => RequestView::Write(w@),
        }
    }
}

/// What is known of the shadow tables.
#[derive(Clone, Debug)]
pub struct ShadowStore {
    /// Whether there is a connection to the tables at all.
    pub connected: bool,
    pub nodes: HashMap<i64, NodeRow>,
    pub parents: HashMap<i64, NumberRow>,
    pub rowids: HashMap<i64, NumberRow>,
    pub aux: HashMap<i64, AuxRow>,
    pub areas: Vec<KnownArea>,
    /// The ratings in the order in which they are asked for.
    pub ratings: Vec<Rating>,
    /// How many ratings were asked for so far.
    pub rated: usize,
    /// Whether each change, in the order they are made, succeeded.
    pub acks: Vec<bool>,
    /// The changes made so far.
    pub log: Vec<Write>,
    pub pending: Option<Request>,
}

/// The model of a store: the known rows of each table, and the changes in their order.
#[verifier::ext_equal]
pub struct StoreView {
    pub connected: bool,
    pub nodes: Map<i64, NodeRowView>,
    pub parents: Map<i64, NumberRow>,
    pub rowids: Map<i64, NumberRow>,
    pub aux: Map<i64, AuxRowView>,
    pub areas: Seq<(Seq<Coord>, Area)>,
    pub ratings: Seq<RatingView>,
    pub rated: usize,
    pub acks: Seq<bool>,
    pub log: Seq<WriteView>,
    pub pending: Option<RequestView>,
}

impl View for ShadowStore {
    type V = StoreView;

    open spec fn view(&self) -> StoreView {
        StoreView {
            connected: self.connected,
            nodes: self.nodes@.map_values(|row: NodeRow| row@),
            parents: self.parents@,
            rowids: self.rowids@,
            aux: self.aux@.map_values(|row: AuxRow| row@),
            areas: self.areas@.map_values(|known: KnownArea| (known.coords@, known.area)),
            ratings: rating_views(self.ratings@),
            rated: self.rated,
            acks: self.acks@,
            log: self.log@.map_values(|w: Write| w@),
            pending: match self.pending {
                Some(request) => Some(request@),
                None => None,
            },
        }
    }
}

/// The area known for a box: the first one told.
pub open spec fn area_of(areas: Seq<(Seq<Coord>, Area)>, coords: Seq<Coord>) -> Option<Area>
    decreases areas.len(),
{
    if areas.len() == 0 {
        None
    } else if area_of(areas.drop_last(), coords) is Some {
        area_of(areas.drop_last(), coords)
    } else if areas.last().0 == coords {
        Some(areas.last().1)
    } else {
        None
    }
}

impl StoreView {
    /// A page that the table can work with. The root says its depth in its first two bytes, so it
    /// must have them.
    pub open spec fn sound_page(t: TableView, nodeno: i64, row: NodeRowView) -> bool {
        match row {
            NodeRowView::Blob(data) => t.holds(bytes::fitted(data, t.node_size as nat)) && (nodeno
                == 1 ==> data.len() >= 2),
            _ => true,
        }
    }

    /// Every known page is one that the table can work with.
    pub open spec fn wf(self, t: TableView) -> bool {
        forall|n: i64| #[trigger]
            self.nodes.contains_key(n) ==> StoreView::sound_page(t, n, self.nodes[n])
    }

    /// The store with a request that is waited for.
    pub open spec fn asking(self, request: RequestView) -> StoreView {
        StoreView { pending: Some(request), ..self }
    }

    /// The store after a change that was made: the rows it touches are known from then on.
    pub open spec fn applied(self, w: WriteView) -> StoreView {
        match w {
            WriteView::CreateNodeTable => self,
            WriteView::CreateRowidTable => self,
            WriteView::CreateParentTable => self,
            WriteView::DropNodeTable => StoreView { nodes: Map::empty(), ..self },
            WriteView::DropRowidTable => StoreView {
                rowids: Map::empty(),
                aux: Map::empty(),
                ..self
            },
            WriteView::DropParentTable => StoreView { parents: Map::empty(), ..self },
            WriteView::Node { nodeno, data } => StoreView {
                nodes: self.nodes.insert(nodeno, NodeRowView::Blob(data)),
                ..self
            },
            WriteView::Rowid { rowid, nodeno, aux } => StoreView {
                rowids: self.rowids.insert(rowid, NumberRow::Number(nodeno)),
                aux: self.aux.insert(rowid, AuxRowView::Values(aux)),
                ..self
            },
            WriteView::MoveRow { rowid, nodeno } => if self.rowids.contains_key(rowid)
                && self.rowids[rowid] is Number {
                StoreView {
                    rowids: self.rowids.insert(rowid, NumberRow::Number(nodeno)),
                    ..self
                }
            } else {
                self
            },
            WriteView::Parent { nodeno, parentnode } => StoreView {
                parents: self.parents.insert(nodeno, NumberRow::Number(parentnode)),
                ..self
            },
            WriteView::DeleteNode { nodeno } => StoreView {
                nodes: self.nodes.insert(nodeno, NodeRowView::Missing),
                ..self
            },
            WriteView::DeleteRowid { rowid } => StoreView {
                rowids: self.rowids.insert(rowid, NumberRow::Missing),
                aux: self.aux.insert(rowid, AuxRowView::Missing),
                ..self
            },
            WriteView::DeleteParent { nodeno } => StoreView {
                parents: self.parents.insert(nodeno, NumberRow::Missing),
                ..self
            },
        }
    }

    /// Reading a page.
    pub open spec fn fetch_node(self, nodeno: i64) -> (Result<NodeRowView, Stop>, StoreView) {
        if self.nodes.contains_key(nodeno) {
            (Ok(self.nodes[nodeno]), self)
        } else {
            (Err(Stop::Wait), self.asking(RequestView::Node(nodeno)))
        }
    }

    /// Reading the parent of a node.
    pub open spec fn fetch_parent(self, nodeno: i64) -> (Result<NumberRow, Stop>, StoreView) {
        if self.parents.contains_key(nodeno) {
            (Ok(self.parents[nodeno]), self)
        } else {
            (Err(Stop::Wait), self.asking(RequestView::Parent(nodeno)))
        }
    }

    /// Reading the node of a row.
    pub open spec fn fetch_rowid(self, rowid: i64) -> (Result<NumberRow, Stop>, StoreView) {
        if self.rowids.contains_key(rowid) {
            (Ok(self.rowids[rowid]), self)
        } else {
            (Err(Stop::Wait), self.asking(RequestView::RowidNode(rowid)))
        }
    }

    /// Reading the auxiliary columns of a row.
    pub open spec fn fetch_aux(self, rowid: i64) -> (Result<AuxRowView, Stop>, StoreView) {
        if self.aux.contains_key(rowid) {
            (Ok(self.aux[rowid]), self)
        } else {
            (Err(Stop::Wait), self.asking(RequestView::RowidAux(rowid)))
        }
    }

    /// Asking for the rating of the divisions along an axis.
    pub open spec fn rate(self, divisions: Seq<DivisionView>) -> (
        Result<RatingView, Stop>,
        StoreView,
    ) {
        if self.rated < self.ratings.len() {
            (
                Ok(self.ratings[self.rated as int]),
                StoreView { rated: (self.rated + 1) as usize, ..self },
            )
        } else {
            (Err(Stop::Wait), self.asking(RequestView::Rating(divisions)))
        }
    }

    /// Asking for the area of a box.
    pub open spec fn fetch_area(self, coords: Seq<Coord>) -> (Result<Area, Stop>, StoreView) {
        match area_of(self.areas, coords) {
            Some(area) => (Ok(area), self),
            None => (Err(Stop::Wait), self.asking(RequestView::Area(coords))),
        }
    }

    /// Making changes one after the other, up to the first that does not succeed.
    pub open spec fn issue_all(self, ws: Seq<WriteView>) -> (Result<(), Stop>, StoreView)
        decreases ws.len(),
    {
        if ws.len() == 0 {
            (Ok(()), self)
        } else {
            match self.issue(ws[0]) {
                (Ok(()), s) => s.issue_all(ws.drop_first()),
                (Err(stop), s) => (Err(stop), s),
            }
        }
    }

    /// Making a change. It takes effect only where it succeeds.
    pub open spec fn issue(self, w: WriteView) -> (Result<(), Stop>, StoreView) {
        if self.log.len() >= self.acks.len() {
            (Err(Stop::Wait), self.asking(RequestView::Write(w)))
        } else {
            let logged = StoreView { log: self.log.push(w), ..self };
            if self.acks[self.log.len() as int] {
                (Ok(()), logged.applied(w))
            } else {
                (Err(Stop::Code(ResultCode::Error)), logged)
            }
        }
    }
}

/// The model of a fetched page.
pub open spec fn node_row_result(r: Result<NodeRow, Stop>) -> Result<NodeRowView, Stop> {
    match r {
        Ok(row) => Ok(row@),
        Err(stop) => Err(stop),
    }
}

/// The model of fetched auxiliary columns.
pub open spec fn aux_row_result(r: Result<AuxRow, Stop>) -> Result<AuxRowView, Stop> {
    match r {
        Ok(row) => Ok(row@),
        Err(stop) => Err(stop),
    }
}

/// The model of a rating that was asked for.
pub open spec fn rating_result(r: Result<Rating, Stop>) -> Result<RatingView, Stop> {
    match r {
        Ok(rating) => Ok(rating@),
        Err(stop) => Err(stop),
    }
}

fn copy_rating(rating: &Rating) -> (r: Rating)
    ensures
        r@ == rating@,
{
    let mut scores: Vec<Score> = Vec::new();
    let mut i: usize = 0;
    while i < rating.scores.len()
        invariant
            i <= rating.scores.len(),
            scores@ == rating.scores@.take(i as int),
        decreases rating.scores.len() - i,
    {
        scores.push(rating.scores[i]);
        assert(scores@ =~= rating.scores@.take(i + 1));
        i = i + 1;
    }
    assert(scores@ =~= rating.scores@);
    Rating { margin: rating.margin, scores }
}

impl ShadowStore {
    /// A store that nothing is known of yet.
    pub fn new() -> (s: ShadowStore)
        ensures
            s@ == (StoreView {
                connected: true,
                nodes: Map::empty(),
                parents: Map::empty(),
                rowids: Map::empty(),
                aux: Map::empty(),
                areas: Seq::empty(),
                ratings: Seq::empty(),
                rated: 0,
                acks: Seq::empty(),
                log: Seq::empty(),
                pending: None,
            }),
    {
        let s = ShadowStore {
            connected: true,
            nodes: HashMap::new(),
            parents: HashMap::new(),
            rowids: HashMap::new(),
            aux: HashMap::new(),
            areas: Vec::new(),
            ratings: Vec::new(),
            rated: 0,
            acks: Vec::new(),
            log: Vec::new(),
            pending: None,
        };
        assert(s@.nodes =~= Map::empty());
        assert(s@.aux =~= Map::empty());
        assert(s@.areas =~= Seq::empty());
        assert(s@.ratings =~= Seq::empty());
        assert(s@.log =~= Seq::empty());
        s
    }

    /// A store without a connection to the shadow tables.
    pub fn detached() -> (s: ShadowStore)
        ensures
            s@ == (StoreView {
                connected: false,
                nodes: Map::empty(),
                parents: Map::empty(),
                rowids: Map::empty(),
                aux: Map::empty(),
                areas: Seq::empty(),
                ratings: Seq::empty(),
                rated: 0,
                acks: Seq::empty(),
                log: Seq::empty(),
                pending: None,
            }),
    {
        let mut s = ShadowStore::new();
        s.connected = false;
        s
    }

    /// Tells what reading the page of a node gave. False, and nothing is learned, when it is a
    /// page that the table cannot work with: one that counts more cells than it has room for, or
    /// a root without the bytes of the depth.
    pub fn learn_node(&mut self, table: &RtreeTable, nodeno: i64, row: NodeRow) -> (r: bool)
        requires
            table@.wf(),
        ensures
            r == StoreView::sound_page(table@, nodeno, row@),
            final(self)@ == if r {
                (StoreView { nodes: old(self)@.nodes.insert(nodeno, row@), ..old(self)@ })
            } else {
                old(self)@
            },
            old(self)@.wf(table@) ==> final(self)@.wf(table@),
    {
        if let NodeRow::Blob(data) = &row {
            if nodeno == 1 && data.len() < 2 {
                return false;
            }
            let page: Vec<u8> = bytes::fit(data, table.node_size);
            let count: usize = (page[2] as usize) * 256 + (page[3] as usize);
            if count > table.max_cells() {
                return false;
            }
        }
        self.nodes.insert(nodeno, row);
        assert(self@.nodes =~= old(self)@.nodes.insert(nodeno, row@));
        true
    }

    /// Tells the parent of a node.
    pub fn learn_parent(&mut self, nodeno: i64, row: NumberRow)
        ensures
            final(self)@ == (StoreView {
                parents: old(self)@.parents.insert(nodeno, row),
                ..old(self)@
            }),
    {
        self.parents.insert(nodeno, row);
    }

    /// Tells the node of a row.
    pub fn learn_rowid(&mut self, rowid: i64, row: NumberRow)
        ensures
            final(self)@ == (StoreView {
                rowids: old(self)@.rowids.insert(rowid, row),
                ..old(self)@
            }),
    {
        self.rowids.insert(rowid, row);
    }

    /// Tells the auxiliary columns of a row.
    pub fn learn_aux(&mut self, rowid: i64, row: AuxRow)
        ensures
            final(self)@ == (StoreView { aux: old(self)@.aux.insert(rowid, row@), ..old(self)@ }),
    {
        self.aux.insert(rowid, row);
        assert(self@.aux =~= old(self)@.aux.insert(rowid, row@));
    }

    /// Tells the area of a box.
    pub fn learn_area(&mut self, coords: [Coord; 10], area: Area)
        ensures
            final(self)@ == (StoreView {
                areas: old(self)@.areas.push((coords@, area)),
                ..old(self)@
            }),
    {
        self.areas.push(KnownArea { coords, area });
        assert(self@.areas =~= old(self)@.areas.push((coords@, area)));
    }

    /// Tells the rating that was waited for.
    pub fn learn_rating(&mut self, rating: Rating)
        ensures
            final(self)@ == (StoreView {
                ratings: old(self)@.ratings.push(rating@),
                ..old(self)@
            }),
    {
        self.ratings.push(rating);
        assert(self@.ratings =~= old(self)@.ratings.push(rating@));
    }

    /// Asks for the rating of the divisions along an axis.
    pub fn rate(&mut self, divisions: Vec<Division>) -> (r: Result<Rating, Stop>)
        ensures
            (rating_result(r), final(self)@) == old(self)@.rate(division_views(divisions@)),
    {
        if self.rated < self.ratings.len() {
            let at: usize = self.rated;
            let rating = copy_rating(&self.ratings[at]);
            assert(self@.ratings[at as int] == self.ratings@[at as int]@);
            self.rated = at + 1;
            return Ok(rating);
        }
        self.pending = Some(Request::Rating(divisions));
        Err(Stop::Wait)
    }

    /// Tells whether the next change that was waited for succeeded.
    pub fn learn_ack(&mut self, success: bool)
        ensures
            final(self)@ == (StoreView { acks: old(self)@.acks.push(success), ..old(self)@ }),
    {
        self.acks.push(success);
    }

    pub fn fetch_node(&mut self, nodeno: i64) -> (r: Result<NodeRow, Stop>)
        ensures
            (node_row_result(r), final(self)@) == old(self)@.fetch_node(nodeno),
    {
        match self.nodes.get(&nodeno) {
            Some(row) => {
                let copy = match row {
                    NodeRow::Failed => NodeRow::Failed,
                    NodeRow::Missing => NodeRow::Missing,
                    NodeRow::Blob(data) => NodeRow::Blob(bytes::copy_bytes(data)),
                };
                Ok(copy)
            },
            None => {
                self.pending = Some(Request::Node(nodeno));
                Err(Stop::Wait)
            },
        }
    }

    pub fn fetch_parent(&mut self, nodeno: i64) -> (r: Result<NumberRow, Stop>)
        ensures
            (r, final(self)@) == old(self)@.fetch_parent(nodeno),
    {
        match self.parents.get(&nodeno) {
            Some(row) => Ok(*row),
            None => {
                self.pending = Some(Request::Parent(nodeno));
                Err(Stop::Wait)
            },
        }
    }

    pub fn fetch_rowid(&mut self, rowid: i64) -> (r: Result<NumberRow, Stop>)
        ensures
            (r, final(self)@) == old(self)@.fetch_rowid(rowid),
    {
        match self.rowids.get(&rowid) {
            Some(row) => Ok(*row),
            None => {
                self.pending = Some(Request::RowidNode(rowid));
                Err(Stop::Wait)
            },
        }
    }

    pub fn fetch_aux(&mut self, rowid: i64) -> (r: Result<AuxRow, Stop>)
        ensures
            (aux_row_result(r), final(self)@) == old(self)@.fetch_aux(rowid),
    {
        match self.aux.get(&rowid) {
            Some(row) => {
                let copy = match row {
                    AuxRow::Failed => AuxRow::Failed,
                    AuxRow::Missing => AuxRow::Missing,
                    AuxRow::Values(values) => AuxRow::Values(value::copy_values(values)),
                };
                Ok(copy)
            },
            None => {
                self.pending = Some(Request::RowidAux(rowid));
                Err(Stop::Wait)
            },
        }
    }

    pub fn fetch_area(&mut self, coords: &[Coord; 10]) -> (r: Result<Area, Stop>)
        ensures
            (r, final(self)@) == old(self)@.fetch_area(coords@),
    {
        let ghost areas = self@.areas;
        let mut i: usize = 0;
        assert(areas.take(0) =~= Seq::empty());
        while i < self.areas.len()
            invariant
                self@ == old(self)@,
                areas == self@.areas,
                areas.len() == self.areas.len(),
                i <= self.areas.len(),
                area_of(areas.take(i as int), coords@) is None,
            decreases self.areas.len() - i,
        {
            let known: KnownArea = self.areas[i];
            let mut same = true;
            let mut k: usize = 0;
            while k < 10
                invariant
                    k <= 10,
                    same <==> (forall|j: int| 0 <= j < k ==> known.coords@[j] == coords@[j]),
                decreases 10 - k,
            {
                if known.coords[k] != coords[k] {
                    same = false;
                }
                k = k + 1;
            }
            proof {
                assert(areas.take(i + 1).drop_last() =~= areas.take(i as int));
                assert(areas.take(i + 1).last() == (known.coords@, known.area));
                if same {
                    assert(known.coords@ =~= coords@);
                    lemma_area_of_prefix(areas, coords@, i + 1);
                }
            }
            if same {
                return Ok(known.area);
            }
            i = i + 1;
        }
        assert(areas.take(areas.len() as int) =~= areas);
        self.pending = Some(Request::Area(*coords));
        Err(Stop::Wait)
    }

    pub fn issue(&mut self, w: Write) -> (r: Result<(), Stop>)
        ensures
            (r, final(self)@) == old(self)@.issue(w@),
    {
        let k: usize = self.log.len();
        if k >= self.acks.len() {
            self.pending = Some(Request::Write(w));
            return Err(Stop::Wait);
        }
        let success: bool = self.acks[k];
        if success {
            self.apply(&w);
        }
        let ghost before = self@;
        self.log.push(w);
        assert(self@.log =~= before.log.push(w@));
        if success {
            Ok(())
        } else {
            Err(Stop::Code(ResultCode::Error))
        }
    }

    pub fn issue_all(&mut self, ws: Vec<Write>) -> (r: Result<(), Stop>)
        ensures
            (r, final(self)@) == old(self)@.issue_all(write_views(ws@)),
    {
        let mut rest: Vec<Write> = ws;
        while rest.len() > 0
            invariant
                self@.issue_all(write_views(rest@)) == old(self)@.issue_all(write_views(ws@)),
            decreases rest.len(),
        {
            let ghost before = rest@;
            let w: Write = rest.remove(0);
            assert(write_views(rest@) =~= write_views(before).drop_first());
            match self.issue(w) {
                Ok(()) => {},
                Err(stop) => {
                    return Err(stop);
                },
            }
        }
        Ok(())
    }

    fn apply(&mut self, w: &Write)
        ensures
            final(self)@ == old(self)@.applied(w@),
    {
        match w {
            Write::CreateNodeTable => {},
            Write::CreateRowidTable => {},
            Write::CreateParentTable => {},
            Write::DropNodeTable => {
                self.nodes.clear();
                assert(self@.nodes =~= Map::empty());
            },
            Write::DropRowidTable => {
                self.rowids.clear();
                self.aux.clear();
                assert(self@.aux =~= Map::empty());
            },
            Write::DropParentTable => {
                self.parents.clear();
            },
            Write::Node { nodeno, data } => {
                self.nodes.insert(*nodeno, NodeRow::Blob(bytes::copy_bytes(data)));
                assert(self@.nodes =~= old(self)@.nodes.insert(*nodeno, NodeRowView::Blob(data@)));
            },
            Write::Rowid { rowid, nodeno, aux } => {
                self.rowids.insert(*rowid, NumberRow::Number(*nodeno));
                self.aux.insert(*rowid, AuxRow::Values(value::copy_values(aux)));
                assert(self@.aux =~= old(self)@.aux.insert(
                    *rowid,
                    AuxRowView::Values(value::value_views(aux@)),
                ));
            },
            Write::MoveRow { rowid, nodeno } => {
                let there: bool = match self.rowids.get(rowid) {
                    Some(NumberRow::Number(_)) => true,
                    _ => false,
                };
                if there {
                    self.rowids.insert(*rowid, NumberRow::Number(*nodeno));
                }
            },
            Write::Parent { nodeno, parentnode } => {
                self.parents.insert(*nodeno, NumberRow::Number(*parentnode));
            },
            Write::DeleteNode { nodeno } => {
                self.nodes.insert(*nodeno, NodeRow::Missing);
                assert(self@.nodes =~= old(self)@.nodes.insert(*nodeno, NodeRowView::Missing));
            },
            Write::DeleteRowid { rowid } => {
                self.rowids.insert(*rowid, NumberRow::Missing);
                self.aux.insert(*rowid, AuxRow::Missing);
                assert(self@.aux =~= old(self)@.aux.insert(*rowid, AuxRowView::Missing));
            },
            Write::DeleteParent { nodeno } => {
                self.parents.insert(*nodeno, NumberRow::Missing);
            },
        }
    }
}

proof fn lemma_area_of_prefix(areas: Seq<(Seq<Coord>, Area)>, coords: Seq<Coord>, n: int)
    requires
        0 <= n <= areas.len(),
        area_of(areas.take(n), coords) is Some,
    ensures
        area_of(areas, coords) == area_of(areas.take(n), coords),
    decreases areas.len() - n,
{
    if n < areas.len() {
        assert(areas.take(n + 1).drop_last() =~= areas.take(n));
        lemma_area_of_prefix(areas, coords, n + 1);
    } else {
        assert(areas.take(n) =~= areas);
    }
}

} // verus!
